//! The regular expressions of the grounding markup, and what they match.

use regex::Regex;
use vstd::prelude::*;
use vstd::utf8::encode_utf8;

use crate::text::{first_at, lemma_first_at, parse_number, parsed};

verus! {

broadcast use vstd::seq::group_seq_axioms;

/// A detection tag up to its closing tag, over line breaks too.
pub const DET_PATTERN: &'static str = r"<\|det\|>[\s\S]*?<\|/det\|>";

/// A reference tag up to its closing tag; what is between is captured.
pub const REF_PATTERN: &'static str = r"<\|ref\|>(?s)(.*?)<\|/ref\|>";

/// A run of decimal digits.
pub const NUMBER_PATTERN: &'static str = r"\d+";

/// Opens a detection tag.
pub const DET_OPEN: &'static str = "<|det|>";

/// Closes a detection tag.
pub const DET_CLOSE: &'static str = "<|/det|>";

/// Opens a reference tag.
pub const REF_OPEN: &'static str = "<|ref|>";

/// Closes a reference tag.
pub const REF_CLOSE: &'static str = "<|/ref|>";

// ---------------------------------------------------------------------------
// What the patterns match
// ---------------------------------------------------------------------------

/// The stretches of `s` from `from` on that begin with `open` and end with the
/// first `close` behind it: the leftmost one, then those behind its end.
pub open spec fn tag_spans(s: Seq<char>, open: Seq<char>, close: Seq<char>, from: int) -> Seq<
    (int, int),
>
    decreases s.len() - from,
{
    match first_at(s, open, from) {
        Some(i) if 0 <= from && open.len() > 0 => match first_at(s, close, i + open.len()) {
            Some(j) => {
                proof {
                    lemma_first_at(s, open, from);
                    lemma_first_at(s, close, i + open.len());
                }
                seq![(i, j + close.len() as int)] + tag_spans(s, open, close, j + close.len())
            },
            None => seq![],
        },
        _ => seq![],
    }
}

/// `s` from `from` on, with each stretch of `tag_spans` replaced by what stands
/// between its tags where `keep` is set, and by nothing where it is not.
pub open spec fn untagged(
    s: Seq<char>,
    open: Seq<char>,
    close: Seq<char>,
    keep: bool,
    from: int,
) -> Seq<char>
    decreases s.len() - from,
{
    match first_at(s, open, from) {
        Some(i) if 0 <= from && open.len() > 0 => match first_at(s, close, i + open.len()) {
            Some(j) => {
                proof {
                    lemma_first_at(s, open, from);
                    lemma_first_at(s, close, i + open.len());
                }
                let inside = if keep {
                    s.subrange(i + open.len(), j)
                } else {
                    seq![]
                };
                s.subrange(from, i) + inside + untagged(s, open, close, keep, j + close.len())
            },
            None => s.skip(from),
        },
        _ => s.skip(from),
    }
}

/// The end of the run of marked positions that goes on at `i`.
pub open spec fn run_end(marks: Seq<bool>, i: int) -> int
    decreases marks.len() - i,
{
    if 0 <= i < marks.len() && marks[i] {
        run_end(marks, i + 1)
    } else {
        i
    }
}

/// The runs of marked positions from `from` on, each as long as it can be.
pub open spec fn runs(marks: Seq<bool>, from: int) -> Seq<(int, int)>
    decreases marks.len() - from,
{
    if from < 0 || from >= marks.len() {
        seq![]
    } else if marks[from] {
        proof {
            lemma_run_end(marks, from + 1);
        }
        let end = run_end(marks, from + 1);
        seq![(from, end)] + runs(marks, end)
    } else {
        runs(marks, from + 1)
    }
}

/// A decimal digit: one of ASCII, or one of those beyond ASCII.
pub open spec fn is_digit(c: char, is_digit_beyond_ascii: bool) -> bool {
    if c <= '\u{7f}' {
        '0' <= c <= '9'
    } else {
        is_digit_beyond_ascii
    }
}

/// The runs of decimal digits in `s`.
pub open spec fn digit_runs(s: Seq<char>) -> Seq<(int, int)> {
    runs(Seq::new(s.len(), |i: int| is_digit(s[i], is_wide_digit(s[i]))), 0)
}

/// The numbers that `spans` cut out of `s`. What is no `u32` in decimal digits
/// of ASCII is passed over.
pub open spec fn numbers_at(s: Seq<char>, spans: Seq<(int, int)>) -> Seq<u32>
    decreases spans.len(),
{
    if spans.len() == 0 {
        seq![]
    } else {
        let before = numbers_at(s, spans.drop_last());
        match parsed(s.subrange(spans.last().0, spans.last().1), u32::MAX as nat) {
            Some(n) => before.push(n as u32),
            None => before,
        }
    }
}

/// The numbers in `s`, from the left.
pub open spec fn numbers_in(s: Seq<char>) -> Seq<u32> {
    numbers_at(s, digit_runs(s))
}

/// The offset in bytes at which the character at position `k` begins.
pub open spec fn byte_offset(s: Seq<char>, k: int) -> nat {
    encode_utf8(s.take(k)).len()
}

/// `offsets` are the stretches `spans` of `s`, counted in bytes.
pub open spec fn are_offsets(
    offsets: Seq<(usize, usize)>,
    s: Seq<char>,
    spans: Seq<(int, int)>,
) -> bool {
    &&& offsets.len() == spans.len()
    &&& forall|i: int|
        #![trigger offsets[i]]
        #![trigger spans[i]]
        0 <= i < spans.len() ==> {
            &&& offsets[i].0 == byte_offset(s, spans[i].0)
            &&& offsets[i].1 == byte_offset(s, spans[i].1)
        }
}

pub proof fn lemma_run_end(marks: Seq<bool>, i: int)
    requires
        0 <= i <= marks.len(),
    ensures
        i <= run_end(marks, i) <= marks.len(),
    decreases marks.len() - i,
{
    if i < marks.len() && marks[i] {
        lemma_run_end(marks, i + 1);
    }
}

pub proof fn lemma_runs_within(marks: Seq<bool>, from: int)
    requires
        0 <= from <= marks.len(),
    ensures
        ({
            let spans = runs(marks, from);
            forall|k: int|
                #![trigger spans[k]]
                0 <= k < spans.len() ==> from <= spans[k].0 < spans[k].1 <= marks.len()
        }),
    decreases marks.len() - from,
{
    if from < marks.len() {
        if marks[from] {
            let end = run_end(marks, from + 1);
            lemma_run_end(marks, from + 1);
            lemma_runs_within(marks, end);
            let rest = runs(marks, end);
            let spans = runs(marks, from);
            assert(spans =~= seq![(from, end)] + rest);
            assert forall|k: int| #![trigger spans[k]] 0 <= k < spans.len() implies from
                <= spans[k].0 < spans[k].1 <= marks.len() by {
                if k > 0 {
                    assert(spans[k] == rest[k - 1]);
                }
            }
        } else {
            lemma_runs_within(marks, from + 1);
            assert(runs(marks, from) == runs(marks, from + 1));
        }
    }
}

/// The stretches lie in `s`, one behind the other, and each begins and ends
/// with its tags.
pub proof fn lemma_tag_spans_within(s: Seq<char>, open: Seq<char>, close: Seq<char>, from: int)
    requires
        0 <= from <= s.len(),
        open.len() > 0,
    ensures
        ({
            let spans = tag_spans(s, open, close, from);
            &&& forall|k: int|
                #![trigger spans[k]]
                0 <= k < spans.len() ==> {
                    &&& from <= spans[k].0
                    &&& spans[k].0 + open.len() + close.len() <= spans[k].1 <= s.len()
                }
            &&& forall|k: int, l: int|
                #![trigger spans[k], spans[l]]
                0 <= k < l < spans.len() ==> spans[k].1 <= spans[l].0
        }),
    decreases s.len() - from,
{
    lemma_first_at(s, open, from);
    if let Some(i) = first_at(s, open, from) {
        lemma_first_at(s, close, i + open.len());
        if let Some(j) = first_at(s, close, i + open.len()) {
            let rest = tag_spans(s, open, close, j + close.len());
            lemma_tag_spans_within(s, open, close, j + close.len());
            let spans = tag_spans(s, open, close, from);
            assert(spans =~= seq![(i, j + close.len() as int)] + rest);
            assert forall|k: int| #![trigger spans[k]] 0 < k < spans.len() implies spans[k]
                == rest[k - 1] by {}
        }
    }
}

// ---------------------------------------------------------------------------
// The regular expressions
// ---------------------------------------------------------------------------

/// A compiled regular expression.
#[verifier::external_type_specification]
#[verifier::external_body]
pub struct ExRegex(Regex);

/// Why a regular expression could not be compiled.
#[verifier::external_type_specification]
#[verifier::external_body]
pub struct ExRegexError(regex::Error);

/// The text that `Regex::new` compiled a regular expression from.
pub uninterp spec fn regex_source(re: Regex) -> Seq<char>;

/// Whether a character beyond ASCII is one of those that `\d` matches: those
/// of the general category Nd.
pub uninterp spec fn is_wide_digit(c: char) -> bool;

/// `Regex::new` compiles a pattern and keeps its text. The three patterns of
/// this module are well formed, so that it succeeds on them.
#[verifier::external_body]
fn compile(pattern: &str) -> (r: Result<Regex, regex::Error>)
    ensures
        r matches Ok(re) ==> regex_source(re) == pattern@,
        pattern@ == DET_PATTERN@ || pattern@ == REF_PATTERN@ || pattern@ == NUMBER_PATTERN@
            ==> r is Ok,
{
    Regex::new(pattern)
}

/// `Regex::find_iter` walks over the matches that do not overlap, from the
/// left; `Match::start` and `Match::end` give the bytes that a match covers.
/// A match of the tag pattern begins at the leftmost opening tag that a closing
/// tag follows, and ends at the first such closing tag; a match of the number
/// pattern is a run of digits that is as long as it can be.
#[verifier::external_body]
fn find_all(re: &Regex, text: &str) -> (r: Vec<(usize, usize)>)
    requires
        regex_source(*re) == DET_PATTERN@ || regex_source(*re) == NUMBER_PATTERN@,
    ensures
        regex_source(*re) == DET_PATTERN@ ==> are_offsets(
            r@,
            text@,
            tag_spans(text@, DET_OPEN@, DET_CLOSE@, 0),
        ),
        regex_source(*re) == NUMBER_PATTERN@ ==> are_offsets(
            r@,
            text@,
            runs(Seq::new(text@.len(), |i: int| is_digit(text@[i], is_wide_digit(text@[i]))), 0),
        ),
{
    re.find_iter(text).map(|m| (m.start(), m.end())).collect()
}

/// `Regex::replace_all` puts the replacement in the place of each match that
/// `find_iter` would give and keeps the rest; `$1` stands for what the first
/// group captured.
#[verifier::external_body]
fn replace_all(re: &Regex, text: &str, replacement: &str) -> (r: String)
    requires
        (regex_source(*re) == DET_PATTERN@ && replacement@ == ""@) || (regex_source(*re)
            == REF_PATTERN@ && replacement@ == "$1"@),
    ensures
        regex_source(*re) == DET_PATTERN@ && replacement@ == ""@ ==> r@ == untagged(
            text@,
            DET_OPEN@,
            DET_CLOSE@,
            false,
            0,
        ),
        regex_source(*re) == REF_PATTERN@ && replacement@ == "$1"@ ==> r@ == untagged(
            text@,
            REF_OPEN@,
            REF_CLOSE@,
            true,
            0,
        ),
{
    re.replace_all(text, replacement).into_owned()
}

/// The compiled pattern of detection tags.
pub struct DetPattern {
    regex: Regex,
}

/// The compiled pattern of reference tags.
pub struct RefPattern {
    regex: Regex,
}

/// The compiled pattern of numbers.
pub struct NumberPattern {
    regex: Regex,
}

impl DetPattern {
    #[verifier::type_invariant]
    spec fn wf(self) -> bool {
        regex_source(self.regex) == DET_PATTERN@
    }

    /// Compiles the pattern.
    pub fn new() -> (r: Result<Self, regex::Error>)
        ensures
            r is Ok,
    {
        match compile(DET_PATTERN) {
            Ok(regex) => Ok(DetPattern { regex }),
            Err(e) => Err(e),
        }
    }

    /// The bytes that the detection tags of `text` cover, with all that is
    /// between an opening and its closing tag.
    pub fn spans(&self, text: &str) -> (r: Vec<(usize, usize)>)
        ensures
            are_offsets(r@, text@, tag_spans(text@, DET_OPEN@, DET_CLOSE@, 0)),
    {
        proof {
            use_type_invariant(self);
        }
        find_all(&self.regex, text)
    }

    /// `text` without its detection tags and what is between them.
    pub fn strip(&self, text: &str) -> (r: String)
        ensures
            r@ == untagged(text@, DET_OPEN@, DET_CLOSE@, false, 0),
    {
        proof {
            use_type_invariant(self);
        }
        replace_all(&self.regex, text, "")
    }
}

impl RefPattern {
    #[verifier::type_invariant]
    spec fn wf(self) -> bool {
        regex_source(self.regex) == REF_PATTERN@
    }

    /// Compiles the pattern.
    pub fn new() -> (r: Result<Self, regex::Error>)
        ensures
            r is Ok,
    {
        match compile(REF_PATTERN) {
            Ok(regex) => Ok(RefPattern { regex }),
            Err(e) => Err(e),
        }
    }

    /// `text` with what is between its reference tags, but without the tags.
    pub fn unwrap_tags(&self, text: &str) -> (r: String)
        ensures
            r@ == untagged(text@, REF_OPEN@, REF_CLOSE@, true, 0),
    {
        proof {
            use_type_invariant(self);
        }
        replace_all(&self.regex, text, "$1")
    }
}

impl NumberPattern {
    #[verifier::type_invariant]
    spec fn wf(self) -> bool {
        regex_source(self.regex) == NUMBER_PATTERN@
    }

    /// Compiles the pattern.
    pub fn new() -> (r: Result<Self, regex::Error>)
        ensures
            r is Ok,
    {
        match compile(NUMBER_PATTERN) {
            Ok(regex) => Ok(NumberPattern { regex }),
            Err(e) => Err(e),
        }
    }

    /// The numbers in `text`, from the left.
    pub fn numbers(&self, text: &str) -> (r: Vec<u32>)
        ensures
            r@ == numbers_in(text@),
    {
        proof {
            use_type_invariant(self);
        }
        let offsets = find_all(&self.regex, text);
        let ghost marks = Seq::new(
            text@.len(),
            |i: int| is_digit(text@[i], is_wide_digit(text@[i])),
        );
        let ghost spans = digit_runs(text@);
        let mut r: Vec<u32> = Vec::new();
        let mut i: usize = 0;
        proof {
            assert(spans == runs(marks, 0));
            lemma_runs_within(marks, 0);
            assert(spans.take(0) =~= seq![]);
        }
        while i < offsets.len()
            invariant
                i <= offsets@.len(),
                are_offsets(offsets@, text@, spans),
                forall|k: int|
                    #![trigger spans[k]]
                    0 <= k < spans.len() ==> 0 <= spans[k].0 < spans[k].1 <= text@.len(),
                r@ == numbers_at(text@, spans.take(i as int)),
            decreases offsets@.len() - i,
        {
            let ghost span = spans[i as int];
            let piece = slice(
                text,
                offsets[i].0,
                offsets[i].1,
                Ghost(span.0),
                Ghost(span.1),
            );
            proof {
                assert(spans.take(i + 1).drop_last() =~= spans.take(i as int));
                assert(spans.take(i + 1).last() == span);
            }
            if let Some(n) = parse_number(piece, u32::MAX as u64) {
                r.push(n as u32);
            }
            i += 1;
        }
        proof {
            assert(spans.take(offsets@.len() as int) =~= spans);
        }
        r
    }
}

// ---------------------------------------------------------------------------
// Cutting text at byte offsets
// ---------------------------------------------------------------------------

pub proof fn lemma_encode_concat(a: Seq<char>, b: Seq<char>)
    ensures
        encode_utf8(a + b) == encode_utf8(a) + encode_utf8(b),
    decreases a.len(),
{
    if a.len() == 0 {
        assert(a + b =~= b);
        assert(encode_utf8(a) + encode_utf8(b) =~= encode_utf8(b));
    } else {
        lemma_encode_concat(a.drop_first(), b);
        assert((a + b).drop_first() =~= a.drop_first() + b);
        assert(encode_utf8(a + b) =~= encode_utf8(a) + encode_utf8(b));
    }
}

proof fn lemma_boundary(a: Seq<char>, b: Seq<char>)
    ensures
        vstd::utf8::is_char_boundary(encode_utf8(a + b), encode_utf8(a).len() as int),
    decreases a.len(),
{
    let bytes = encode_utf8(a + b);
    vstd::utf8::encode_utf8_valid_utf8(a + b);
    lemma_encode_concat(a, b);
    if a.len() > 0 {
        vstd::utf8::encode_utf8_first_scalar(a + b);
        lemma_boundary(a.drop_first(), b);
        assert((a + b).drop_first() =~= a.drop_first() + b);
        assert(vstd::utf8::pop_first_scalar(bytes) =~= encode_utf8(a.drop_first() + b));
    }
}

/// Cuts a text at the byte offset of its character `k`.
fn cut<'a>(text: &'a str, at: usize, Ghost(k): Ghost<int>) -> (r: (&'a str, &'a str))
    requires
        0 <= k <= text@.len(),
        at == byte_offset(text@, k),
    ensures
        r.0@ == text@.take(k),
        r.1@ == text@.skip(k),
{
    proof {
        assert(text@ =~= text@.take(k) + text@.skip(k));
        lemma_encode_concat(text@.take(k), text@.skip(k));
        lemma_boundary(text@.take(k), text@.skip(k));
    }
    let r = text.split_at(at);
    proof {
        assert(encode_utf8(r.0@) =~= encode_utf8(text@.take(k)));
        assert(encode_utf8(r.1@) =~= encode_utf8(text@.skip(k)));
        vstd::utf8::encode_utf8_decode_utf8(r.0@);
        vstd::utf8::encode_utf8_decode_utf8(text@.take(k));
        vstd::utf8::encode_utf8_decode_utf8(r.1@);
        vstd::utf8::encode_utf8_decode_utf8(text@.skip(k));
    }
    r
}

/// The characters `a..b` of a text, given by their byte offsets.
pub(crate) fn slice<'a>(
    text: &'a str,
    from: usize,
    to: usize,
    Ghost(a): Ghost<int>,
    Ghost(b): Ghost<int>,
) -> (r: &'a str)
    requires
        0 <= a <= b <= text@.len(),
        from == byte_offset(text@, a),
        to == byte_offset(text@, b),
    ensures
        r@ == text@.subrange(a, b),
{
    let (head, _) = cut(text, to, Ghost(b));
    proof {
        assert(head@.take(a) =~= text@.take(a));
    }
    let (_, piece) = cut(head, from, Ghost(a));
    proof {
        assert(piece@ =~= text@.subrange(a, b));
    }
    piece
}

} // verus!
