//! Text as a sequence of characters: searching, cutting, trimming, joining,
//! and numbers in decimal.

use vstd::prelude::*;
use vstd::utf8::{decode_utf8, encode_utf8, encode_utf8_decode_utf8, valid_utf8};

verus! {

broadcast use vstd::seq::group_seq_axioms;

/// `String::push` appends one character to the end of a string.
pub assume_specification[ String::push ](s: &mut String, c: char)
    ensures
        final(s)@ == old(s)@.push(c),
;

// ---------------------------------------------------------------------------
// Searching
// ---------------------------------------------------------------------------

/// `pat` stands in `s` at position `i`.
pub open spec fn occurs_at(s: Seq<char>, pat: Seq<char>, i: int) -> bool {
    &&& 0 <= i
    &&& i + pat.len() <= s.len()
    &&& s.subrange(i, i + pat.len()) == pat
}

/// The position of the leftmost occurrence of `pat` in `s` at or after `from`.
pub open spec fn first_at(s: Seq<char>, pat: Seq<char>, from: int) -> Option<int>
    decreases s.len() + 1 - from,
{
    if from < 0 || from + pat.len() > s.len() {
        None
    } else if occurs_at(s, pat, from) {
        Some(from)
    } else {
        first_at(s, pat, from + 1)
    }
}

/// `pat` stands somewhere in `s`.
pub open spec fn includes(s: Seq<char>, pat: Seq<char>) -> bool {
    exists|i: int| occurs_at(s, pat, i)
}

/// `s` begins with `pat`.
pub open spec fn begins(s: Seq<char>, pat: Seq<char>) -> bool {
    occurs_at(s, pat, 0)
}

/// What `first_at` finds is the leftmost occurrence.
pub proof fn lemma_first_at(s: Seq<char>, pat: Seq<char>, from: int)
    requires
        0 <= from,
    ensures
        match first_at(s, pat, from) {
            Some(i) => {
                &&& from <= i
                &&& occurs_at(s, pat, i)
                &&& forall|k: int| from <= k < i ==> !occurs_at(s, pat, k)
            },
            None => forall|k: int| from <= k ==> !occurs_at(s, pat, k),
        },
    decreases s.len() + 1 - from,
{
    if from + pat.len() > s.len() {
    } else if occurs_at(s, pat, from) {
    } else {
        lemma_first_at(s, pat, from + 1);
    }
}

/// The leftmost occurrence is what `first_at` finds.
pub proof fn lemma_first_at_is(s: Seq<char>, pat: Seq<char>, from: int, i: int)
    requires
        0 <= from <= i,
        occurs_at(s, pat, i),
        forall|k: int| from <= k < i ==> !occurs_at(s, pat, k),
    ensures
        first_at(s, pat, from) == Some(i),
{
    lemma_first_at(s, pat, from);
}

/// Without an occurrence `first_at` finds none.
pub proof fn lemma_first_at_none(s: Seq<char>, pat: Seq<char>, from: int)
    requires
        0 <= from,
        forall|k: int| from <= k ==> !occurs_at(s, pat, k),
    ensures
        first_at(s, pat, from) is None,
{
    lemma_first_at(s, pat, from);
}

/// An occurrence in `s` behind position `k` is one in what is left of `s`
/// there.
pub proof fn lemma_occurs_skip(s: Seq<char>, pat: Seq<char>, k: int, i: int)
    requires
        0 <= k <= s.len(),
        0 <= i,
    ensures
        occurs_at(s.skip(k), pat, i) == occurs_at(s, pat, k + i),
{
    if i + pat.len() <= s.len() - k {
        assert(s.skip(k).subrange(i, i + pat.len()) =~= s.subrange(k + i, k + i + pat.len()));
    }
}

/// Searching `s` from position `k + i` on is searching what is left of `s` at
/// `k` from position `i` on.
pub proof fn lemma_first_at_skip(s: Seq<char>, pat: Seq<char>, k: int, i: int)
    requires
        0 <= k <= s.len(),
        0 <= i,
    ensures
        first_at(s, pat, k + i) == match first_at(s.skip(k), pat, i) {
            Some(j) => Some(k + j),
            None => None,
        },
    decreases s.len() + 1 - (k + i),
{
    lemma_occurs_skip(s, pat, k, i);
    if k + i + pat.len() <= s.len() && !occurs_at(s, pat, k + i) {
        lemma_first_at_skip(s, pat, k, i + 1);
    }
}

/// The first occurrence stays the first when more text follows.
pub proof fn lemma_first_at_extends(x: Seq<char>, b: Seq<char>, pat: Seq<char>)
    requires
        first_at(x, pat, 0) is Some,
    ensures
        first_at(x + b, pat, 0) == first_at(x, pat, 0),
{
    let i = first_at(x, pat, 0)->0;
    lemma_first_at(x, pat, 0);
    assert((x + b).subrange(i, i + pat.len()) =~= x.subrange(i, i + pat.len()));
    assert forall|k: int| 0 <= k < i implies !occurs_at(x + b, pat, k) by {
        if occurs_at(x + b, pat, k) {
            assert((x + b).subrange(k, k + pat.len()) =~= x.subrange(k, k + pat.len()));
            assert(occurs_at(x, pat, k));
        }
    }
    lemma_first_at_is(x + b, pat, 0, i);
}

/// Whether `pat` stands in `chars` at position `at`.
pub fn stands_at(chars: &[char], pat: &[char], at: usize) -> (r: bool)
    ensures
        r == occurs_at(chars@, pat@, at as int),
{
    if at > chars.len() || pat.len() > chars.len() - at {
        return false;
    }
    let mut i: usize = 0;
    while i < pat.len()
        invariant
            at + pat@.len() <= chars@.len() <= usize::MAX,
            0 <= i <= pat@.len(),
            forall|k: int| 0 <= k < i ==> chars@[at + k] == pat@[k],
        decreases pat@.len() - i,
    {
        if chars[at + i] != pat[i] {
            proof {
                assert(chars@.subrange(at as int, at + pat@.len())[i as int] == chars@[at + i]);
            }
            return false;
        }
        i += 1;
    }
    proof {
        assert(chars@.subrange(at as int, at + pat@.len()) =~= pat@);
    }
    true
}

/// The leftmost position at or after `from` at which `pat` stands in `chars`.
pub fn find_from(chars: &[char], pat: &[char], from: usize) -> (r: Option<usize>)
    ensures
        match r {
            Some(i) => first_at(chars@, pat@, from as int) == Some(i as int) && from <= i && i
                + pat@.len() <= chars@.len() <= usize::MAX,
            None => first_at(chars@, pat@, from as int) is None,
        },
{
    if pat.len() > chars.len() {
        return None;
    }
    let last: usize = chars.len() - pat.len();
    let mut i: usize = from;
    while i <= last
        invariant
            last == chars@.len() - pat@.len(),
            chars@.len() <= usize::MAX,
            from <= i,
            first_at(chars@, pat@, from as int) == first_at(chars@, pat@, i as int),
        decreases last + 1 - i,
    {
        if stands_at(chars, pat, i) {
            return Some(i);
        }
        if i == last {
            proof {
                reveal_with_fuel(first_at, 2);
            }
            return None;
        }
        i += 1;
    }
    None
}

/// The leftmost position of `pat` in `text`, counted in characters.
pub fn find(text: &str, pat: &str) -> (r: Option<usize>)
    ensures
        match r {
            Some(i) => first_at(text@, pat@, 0) == Some(i as int),
            None => first_at(text@, pat@, 0) is None,
        },
{
    find_from(&chars_of(text), &chars_of(pat), 0)
}

/// Whether `pat` stands somewhere in `text`.
pub fn contains(text: &str, pat: &str) -> (r: bool)
    ensures
        r == includes(text@, pat@),
{
    proof {
        lemma_first_at(text@, pat@, 0);
    }
    find(text, pat).is_some()
}

/// Whether `text` begins with `pat`.
pub fn starts_with(text: &str, pat: &str) -> (r: bool)
    ensures
        r == begins(text@, pat@),
{
    stands_at(&chars_of(text), &chars_of(pat), 0)
}

// ---------------------------------------------------------------------------
// Cutting and putting together
// ---------------------------------------------------------------------------

/// `s` with every occurrence of `pat` taken out, searching from the left and
/// going on behind each occurrence.
pub open spec fn without(s: Seq<char>, pat: Seq<char>) -> Seq<char>
    decreases s.len(),
{
    match first_at(s, pat, 0) {
        Some(i) if pat.len() > 0 => {
            proof {
                lemma_first_at(s, pat, 0);
            }
            s.take(i) + without(s.skip(i + pat.len()), pat)
        },
        _ => s,
    }
}

/// `s` up to its first `c`, all of `s` where there is none.
pub open spec fn before_first(s: Seq<char>, c: char) -> Seq<char> {
    match first_at(s, seq![c], 0) {
        Some(i) => s.take(i),
        None => s,
    }
}

/// What follows the last `c` of `s`, all of `s` where there is none.
pub open spec fn after_last(s: Seq<char>, c: char) -> Seq<char>
    decreases s.len(),
{
    match first_at(s, seq![c], 0) {
        Some(i) => {
            proof {
                lemma_first_at(s, seq![c], 0);
            }
            after_last(s.skip(i + 1), c)
        },
        None => s,
    }
}

/// `s` without the occurrences of `c` at its end.
pub open spec fn without_end(s: Seq<char>, c: char) -> Seq<char>
    decreases s.len(),
{
    if s.len() > 0 && s.last() == c {
        without_end(s.drop_last(), c)
    } else {
        s
    }
}

/// `s` without the occurrences of `pat`, one behind the other, at its start.
pub open spec fn without_start(s: Seq<char>, pat: Seq<char>) -> Seq<char>
    decreases s.len(),
{
    if pat.len() > 0 && begins(s, pat) {
        without_start(s.skip(pat.len() as int), pat)
    } else {
        s
    }
}

/// The lines of `s`. A line ends at a line feed, or at a carriage return with
/// a line feed behind it; the last line may lack its end.
pub open spec fn lines_of(s: Seq<char>) -> Seq<Seq<char>>
    decreases s.len(),
{
    match first_at(s, seq!['\n'], 0) {
        Some(i) => {
            proof {
                lemma_first_at(s, seq!['\n'], 0);
            }
            let line = if i > 0 && s[i - 1] == '\r' {
                s.take(i - 1)
            } else {
                s.take(i)
            };
            seq![line] + lines_of(s.skip(i + 1))
        },
        None => if s.len() == 0 {
            seq![]
        } else {
            seq![s]
        },
    }
}

/// The parts in order, with `sep` between each two.
pub open spec fn joined(parts: Seq<Seq<char>>, sep: Seq<char>) -> Seq<char>
    decreases parts.len(),
{
    if parts.len() == 0 {
        seq![]
    } else if parts.len() == 1 {
        parts[0]
    } else {
        joined(parts.drop_last(), sep) + sep + parts.last()
    }
}

/// The parts one behind the other.
pub open spec fn glued<A>(parts: Seq<Seq<A>>) -> Seq<A>
    decreases parts.len(),
{
    if parts.len() == 0 {
        seq![]
    } else {
        parts[0] + glued(parts.skip(1))
    }
}

pub proof fn lemma_glued_concat<A>(a: Seq<Seq<A>>, b: Seq<Seq<A>>)
    ensures
        glued(a + b) == glued(a) + glued(b),
    decreases a.len(),
{
    if a.len() == 0 {
        assert(a + b =~= b);
        assert(seq![] + glued(b) =~= glued(b));
    } else {
        lemma_glued_concat(a.skip(1), b);
        assert((a + b).skip(1) =~= a.skip(1) + b);
        assert(a[0] + (glued(a.skip(1)) + glued(b)) =~= glued(a) + glued(b));
    }
}

pub proof fn lemma_glued_push<A>(parts: Seq<Seq<A>>)
    requires
        parts.len() > 0,
    ensures
        glued(parts) == glued(parts.drop_last()) + parts.last(),
{
    let one = seq![parts.last()];
    lemma_glued_concat(parts.drop_last(), one);
    assert(parts.drop_last() + one =~= parts);
    assert(one.skip(1) =~= seq![]);
    assert(glued(one.skip(1)) =~= seq![]);
    assert(parts.last() + seq![] =~= parts.last());
}

/// The contents of a list of strings.
pub open spec fn texts(list: Seq<String>) -> Seq<Seq<char>> {
    list.map_values(|s: String| s@)
}

/// The content of a string that may be absent.
pub open spec fn text_opt(s: Option<String>) -> Option<Seq<char>> {
    match s {
        Some(s) => Some(s@),
        None => None,
    }
}

/// The characters of a text.
pub fn chars_of(text: &str) -> (r: Vec<char>)
    ensures
        r@ == text@,
{
    let mut r: Vec<char> = Vec::new();
    for c in it: text.chars()
        invariant
            it.seq() == text@,
            r@ == text@.take(it.index() as int),
    {
        proof {
            assert(text@.take(it.index() + 1) =~= text@.take(it.index() as int).push(c));
        }
        r.push(c);
    }
    proof {
        assert(text@.take(text@.len() as int) =~= text@);
    }
    r
}

/// The text made of the characters `from..to`.
pub fn string_of(chars: &[char], from: usize, to: usize) -> (r: String)
    requires
        from <= to <= chars@.len(),
    ensures
        r@ == chars@.subrange(from as int, to as int),
{
    let mut r = String::new();
    let mut i: usize = from;
    while i < to
        invariant
            from <= i <= to <= chars@.len(),
            r@ == chars@.subrange(from as int, i as int),
        decreases to - i,
    {
        r.push(chars[i]);
        i += 1;
        proof {
            assert(chars@.subrange(from as int, i as int) =~= chars@.subrange(
                from as int,
                i - 1,
            ).push(chars@[i - 1]));
        }
    }
    r
}

/// `text` with every occurrence of `pat` taken out.
pub fn remove_all(text: &str, pat: &str) -> (r: String)
    requires
        pat@.len() > 0,
    ensures
        r@ == without(text@, pat@),
{
    let chars = chars_of(text);
    let mark = chars_of(pat);
    let mut r = String::new();
    let mut at: usize = 0;
    proof {
        assert(chars@.skip(0) =~= chars@);
    }
    loop
        invariant
            chars@ == text@,
            mark@ == pat@,
            mark@.len() > 0,
            at <= chars@.len(),
            r@ + without(chars@.skip(at as int), mark@) == without(text@, pat@),
        decreases chars@.len() - at,
    {
        let ghost rest = chars@.skip(at as int);
        proof {
            lemma_first_at_skip(chars@, mark@, at as int, 0);
            lemma_first_at(rest, mark@, 0);
        }
        match find_from(&chars, &mark, at) {
            Some(i) => {
                let piece = string_of(&chars, at, i);
                let ghost before = r@;
                r.append(piece.as_str());
                proof {
                    assert(rest.take(i - at) =~= piece@);
                    assert(rest.skip(i - at + mark@.len()) =~= chars@.skip(i + mark@.len()));
                    assert(before + (piece@ + without(chars@.skip(i + mark@.len()), mark@)) =~= r@
                        + without(chars@.skip(i + mark@.len()), mark@));
                }
                at = i + mark.len();
            },
            None => {
                let piece = string_of(&chars, at, chars.len());
                r.append(piece.as_str());
                proof {
                    assert(piece@ =~= rest);
                }
                return r;
            },
        }
    }
}

/// The parts of `list` in order, with `sep` between each two.
pub fn join(list: &Vec<String>, sep: &str) -> (r: String)
    ensures
        r@ == joined(texts(list@), sep@),
{
    let mut r = String::new();
    let mut i: usize = 0;
    let ghost all = texts(list@);
    while i < list.len()
        invariant
            all == texts(list@),
            i <= list@.len(),
            r@ == joined(all.take(i as int), sep@),
        decreases list@.len() - i,
    {
        if i > 0 {
            r.append(sep);
        }
        r.append(list[i].as_str());
        proof {
            assert(all.take(i + 1).drop_last() =~= all.take(i as int));
            if i == 0 {
                assert(r@ =~= list@[0]@);
            }
        }
        i += 1;
    }
    proof {
        assert(all.take(list@.len() as int) =~= all);
    }
    r
}

/// `text` up to its first `c`.
pub fn text_before_first(text: &str, c: char) -> (r: String)
    ensures
        r@ == before_first(text@, c),
{
    let chars = chars_of(text);
    let mark: Vec<char> = vec![c];
    proof {
        assert(mark@ =~= seq![c]);
        assert(chars@.subrange(0, chars@.len() as int) =~= chars@);
    }
    match find_from(&chars, &mark, 0) {
        Some(i) => string_of(&chars, 0, i),
        None => string_of(&chars, 0, chars.len()),
    }
}

/// What follows the last `c` of `text`.
pub fn text_after_last(text: &str, c: char) -> (r: String)
    ensures
        r@ == after_last(text@, c),
{
    let chars = chars_of(text);
    let mark: Vec<char> = vec![c];
    let mut at: usize = 0;
    proof {
        assert(mark@ =~= seq![c]);
        assert(chars@.skip(0) =~= chars@);
    }
    loop
        invariant
            chars@ == text@,
            mark@ == seq![c],
            at <= chars@.len(),
            after_last(chars@.skip(at as int), c) == after_last(text@, c),
        decreases chars@.len() - at,
    {
        proof {
            lemma_first_at_skip(chars@, mark@, at as int, 0);
            lemma_first_at(chars@.skip(at as int), mark@, 0);
        }
        match find_from(&chars, &mark, at) {
            Some(i) => {
                proof {
                    assert(chars@.skip(at as int).skip(i - at + 1) =~= chars@.skip(i + 1));
                }
                at = i + 1;
            },
            None => {
                proof {
                    assert(chars@.skip(at as int) =~= chars@.subrange(
                        at as int,
                        chars@.len() as int,
                    ));
                }
                return string_of(&chars, at, chars.len());
            },
        }
    }
}

/// `text` without the occurrences of `c` at its end.
pub fn strip_end(text: &str, c: char) -> (r: String)
    ensures
        r@ == without_end(text@, c),
{
    let chars = chars_of(text);
    let mut b: usize = chars.len();
    proof {
        assert(chars@.take(b as int) =~= chars@);
    }
    while b > 0 && chars[b - 1] == c
        invariant
            b <= chars@.len(),
            without_end(chars@, c) == without_end(chars@.take(b as int), c),
        decreases b,
    {
        proof {
            assert(chars@.take(b as int).drop_last() =~= chars@.take(b - 1));
        }
        b -= 1;
    }
    proof {
        assert(chars@.take(b as int) =~= chars@.subrange(0, b as int));
    }
    string_of(&chars, 0, b)
}

/// `text` without the occurrences of `pat`, one behind the other, at its
/// start.
pub fn strip_start(text: &str, pat: &str) -> (r: String)
    requires
        pat@.len() > 0,
    ensures
        r@ == without_start(text@, pat@),
{
    let chars = chars_of(text);
    let mark = chars_of(pat);
    let n: usize = chars.len();
    let mut a: usize = 0;
    proof {
        assert(chars@.skip(0) =~= chars@);
        lemma_occurs_skip(chars@, mark@, 0, 0);
    }
    while stands_at(&chars, &mark, a)
        invariant
            mark@.len() > 0,
            a <= chars@.len(),
            n == chars@.len(),
            occurs_at(chars@.skip(a as int), mark@, 0) == occurs_at(chars@, mark@, a as int),
            without_start(chars@, mark@) == without_start(chars@.skip(a as int), mark@),
        decreases chars@.len() - a,
    {
        proof {
            assert(chars@.skip(a as int).skip(mark@.len() as int) =~= chars@.skip(a + mark@.len()));
            lemma_occurs_skip(chars@, mark@, a + mark@.len(), 0);
        }
        a += mark.len();
    }
    proof {
        assert(chars@.skip(a as int) =~= chars@.subrange(a as int, chars@.len() as int));
    }
    string_of(&chars, a, n)
}

/// The lines of `text`.
pub fn split_lines(text: &str) -> (r: Vec<String>)
    ensures
        texts(r@) == lines_of(text@),
{
    let chars = chars_of(text);
    let mark: Vec<char> = vec!['\n'];
    let mut r: Vec<String> = Vec::new();
    let mut at: usize = 0;
    proof {
        assert(mark@ =~= seq!['\n']);
        assert(chars@.skip(0) =~= chars@);
        assert(texts(r@) + lines_of(text@) =~= lines_of(text@));
    }
    loop
        invariant
            chars@ == text@,
            mark@ == seq!['\n'],
            at <= chars@.len(),
            texts(r@) + lines_of(chars@.skip(at as int)) == lines_of(text@),
        decreases chars@.len() - at,
    {
        let ghost rest = chars@.skip(at as int);
        let ghost before = r@;
        proof {
            lemma_first_at_skip(chars@, mark@, at as int, 0);
            lemma_first_at(rest, mark@, 0);
        }
        match find_from(&chars, &mark, at) {
            Some(i) => {
                let end: usize = if i > at && chars[i - 1] == '\r' {
                    i - 1
                } else {
                    i
                };
                let line = string_of(&chars, at, end);
                proof {
                    assert(rest.skip(i - at + 1) =~= chars@.skip(i + 1));
                    assert(rest.take(end - at) =~= line@);
                }
                r.push(line);
                proof {
                    assert(texts(r@) =~= texts(before).push(line@));
                    assert(texts(before) + (seq![line@] + lines_of(chars@.skip(i + 1))) =~= texts(
                        r@,
                    ) + lines_of(chars@.skip(i + 1)));
                }
                at = i + 1;
            },
            None => {
                if at < chars.len() {
                    let line = string_of(&chars, at, chars.len());
                    proof {
                        assert(line@ =~= rest);
                    }
                    r.push(line);
                    proof {
                        assert(texts(r@) =~= texts(before) + seq![line@]);
                    }
                } else {
                    proof {
                        assert(texts(r@) + seq![] =~= texts(r@));
                    }
                }
                return r;
            },
        }
    }
}

/// The text that `String::from_utf8_lossy` makes of bytes.
pub uninterp spec fn lossy(bytes: Seq<u8>) -> Seq<char>;

/// `String::from_utf8_lossy` reads bytes as UTF-8 and puts replacement
/// characters where they are not; bytes that are UTF-8 it reads as they are.
#[verifier::external_body]
fn lossy_text(bytes: &[u8]) -> (r: String)
    ensures
        r@ == lossy(bytes@),
        valid_utf8(bytes@) ==> encode_utf8(r@) == bytes@,
{
    String::from_utf8_lossy(bytes).into_owned()
}

/// The text that bytes are read as: what they encode in UTF-8 where they do,
/// and otherwise what `String::from_utf8_lossy` makes of them.
pub open spec fn text_of(bytes: Seq<u8>) -> Seq<char> {
    if valid_utf8(bytes) {
        decode_utf8(bytes)
    } else {
        lossy(bytes)
    }
}

/// Reads bytes as text.
pub fn read_text(bytes: &[u8]) -> (r: String)
    ensures
        r@ == text_of(bytes@),
{
    let r = lossy_text(bytes);
    proof {
        encode_utf8_decode_utf8(r@);
    }
    r
}

/// One text behind the other.
pub fn concat(a: &str, b: &str) -> (r: String)
    ensures
        r@ == a@ + b@,
{
    let mut r = String::new();
    r.append(a);
    r.append(b);
    proof {
        assert(r@ =~= a@ + b@);
    }
    r
}

// ---------------------------------------------------------------------------
// White space
// ---------------------------------------------------------------------------

/// The characters with the Unicode property White_Space.
pub open spec fn is_white(c: char) -> bool {
    ||| '\u{9}' <= c <= '\u{d}'
    ||| c == '\u{20}' || c == '\u{85}' || c == '\u{a0}' || c == '\u{1680}'
    ||| '\u{2000}' <= c <= '\u{200a}'
    ||| c == '\u{2028}' || c == '\u{2029}' || c == '\u{202f}' || c == '\u{205f}' || c == '\u{3000}'
}

/// `s` from its first character that is not white space on.
pub open spec fn trimmed_start(s: Seq<char>) -> Seq<char>
    decreases s.len(),
{
    if s.len() > 0 && is_white(s[0]) {
        trimmed_start(s.skip(1))
    } else {
        s
    }
}

/// `s` up to its last character that is not white space.
pub open spec fn trimmed_end(s: Seq<char>) -> Seq<char>
    decreases s.len(),
{
    if s.len() > 0 && is_white(s.last()) {
        trimmed_end(s.drop_last())
    } else {
        s
    }
}

/// `s` without white space at its two ends.
pub open spec fn trimmed(s: Seq<char>) -> Seq<char> {
    trimmed_end(trimmed_start(s))
}

/// Whether `c` is white space.
pub fn is_white_space(c: char) -> (r: bool)
    ensures
        r == is_white(c),
{
    ('\u{9}' <= c && c <= '\u{d}') || c == '\u{20}' || c == '\u{85}' || c == '\u{a0}' || c
        == '\u{1680}' || ('\u{2000}' <= c && c <= '\u{200a}') || c == '\u{2028}' || c == '\u{2029}'
        || c == '\u{202f}' || c == '\u{205f}' || c == '\u{3000}'
}

/// `text` without white space at its two ends.
pub fn trim(text: &str) -> (r: String)
    ensures
        r@ == trimmed(text@),
{
    let chars = chars_of(text);
    proof {
        assert(chars@.skip(0) =~= chars@);
    }
    let mut a: usize = 0;
    while a < chars.len() && is_white_space(chars[a])
        invariant
            a <= chars@.len(),
            trimmed_start(chars@) == trimmed_start(chars@.skip(a as int)),
        decreases chars@.len() - a,
    {
        proof {
            assert(chars@.skip(a as int).skip(1) =~= chars@.skip(a + 1));
        }
        a += 1;
    }
    let mut b: usize = chars.len();
    proof {
        assert(chars@.skip(a as int) =~= chars@.subrange(a as int, b as int));
    }
    while b > a && is_white_space(chars[b - 1])
        invariant
            a <= b <= chars@.len(),
            trimmed_end(chars@.skip(a as int)) == trimmed_end(chars@.subrange(a as int, b as int)),
        decreases b,
    {
        proof {
            assert(chars@.subrange(a as int, b as int).drop_last() =~= chars@.subrange(
                a as int,
                b - 1,
            ));
        }
        b -= 1;
    }
    string_of(&chars, a, b)
}

// ---------------------------------------------------------------------------
// Numbers
// ---------------------------------------------------------------------------

/// A decimal digit of ASCII.
pub open spec fn is_ascii_digit(c: char) -> bool {
    '0' <= c <= '9'
}

/// Every character of `s` is a decimal digit of ASCII.
pub open spec fn all_digits(s: Seq<char>) -> bool {
    forall|i: int| 0 <= i < s.len() ==> is_ascii_digit(#[trigger] s[i])
}

/// The number that a row of digits writes in decimal.
pub open spec fn value_of(s: Seq<char>) -> nat
    decreases s.len(),
{
    if s.len() == 0 {
        0
    } else {
        value_of(s.drop_last()) * 10 + (s.last() as int - '0' as int) as nat
    }
}

/// `s` read as a number of at most `max`: one digit or more, after a plus sign
/// that may be absent.
pub open spec fn parsed(s: Seq<char>, max: nat) -> Option<nat> {
    let digits = if s.len() > 0 && s[0] == '+' {
        s.skip(1)
    } else {
        s
    };
    if digits.len() > 0 && all_digits(digits) && value_of(digits) <= max {
        Some(value_of(digits))
    } else {
        None
    }
}

/// `n` written in decimal.
pub open spec fn decimal(n: nat) -> Seq<char>
    decreases n,
{
    if n < 10 {
        seq![(n + '0' as int) as char]
    } else {
        decimal(n / 10).push((n % 10 + '0' as int) as char)
    }
}

proof fn lemma_value_grows(s: Seq<char>, k: int)
    requires
        0 <= k <= s.len(),
    ensures
        value_of(s.take(k)) <= value_of(s),
    decreases s.len() - k,
{
    if k == s.len() {
        assert(s.take(k) =~= s);
    } else {
        lemma_value_grows(s, k + 1);
        assert(s.take(k + 1).drop_last() =~= s.take(k));
    }
}

/// Reads a number of at most `max` in decimal.
pub fn parse_number(text: &str, max: u64) -> (r: Option<u64>)
    ensures
        match r {
            Some(n) => parsed(text@, max as nat) == Some(n as nat),
            None => parsed(text@, max as nat) is None,
        },
{
    let chars = chars_of(text);
    let start: usize = if chars.len() > 0 && chars[0] == '+' {
        1
    } else {
        0
    };
    let ghost digits = chars@.skip(start as int);
    proof {
        assert(start == 0 ==> digits =~= chars@);
    }
    if start == chars.len() {
        return None;
    }
    let mut n: u64 = 0;
    let mut i: usize = start;
    while i < chars.len()
        invariant
            digits == chars@.skip(start as int),
            start <= i <= chars@.len(),
            n == value_of(digits.take(i - start)),
            n <= max,
            forall|k: int| 0 <= k < i - start ==> is_ascii_digit(#[trigger] digits[k]),
            chars@ == text@,
            start == (if chars@.len() > 0 && chars@[0] == '+' {
                1int
            } else {
                0int
            }),
            start == 0 ==> digits == chars@,
        decreases chars@.len() - i,
    {
        let c: char = chars[i];
        proof {
            assert(digits[i - start] == c);
        }
        if c < '0' || c > '9' {
            return None;
        }
        let d: u64 = (c as u32 - 48) as u64;
        proof {
            assert(digits.take(i + 1 - start).drop_last() =~= digits.take(i - start));
            assert(value_of(digits.take(i + 1 - start)) == n * 10 + d);
            lemma_value_grows(digits, i + 1 - start);
        }
        if d > max || n > (max - d) / 10 {
            return None;
        }
        n = n * 10 + d;
        i += 1;
    }
    proof {
        assert(digits.take(digits.len() as int) =~= digits);
    }
    Some(n)
}

/// Writes a number in decimal.
pub fn decimal_text(n: usize) -> (r: String)
    ensures
        r@ == decimal(n as nat),
    decreases n,
{
    let digit: char = (48u8 + (n % 10) as u8) as char;
    let mut r = if n < 10 {
        String::new()
    } else {
        decimal_text(n / 10)
    };
    r.push(digit);
    proof {
        assert(r@ =~= decimal(n as nat));
    }
    r
}

} // verus!
