//! What holds of the numbers, labels and regions in detection tags, and of the
//! boxes and texts around them.

use vstd::prelude::*;

use crate::grounding::{lemma_ref_tags, lemma_tags};
use crate::markup::{is_ascii_text, label_in, lower_case, lowered, region_in, without_refs};
use crate::models::BoxValue;
use crate::patterns::{
    is_digit, is_wide_digit, lemma_run_end, lemma_runs_within, lemma_tag_spans_within, numbers_at,
    numbers_in, run_end, runs, tag_spans, untagged, DET_CLOSE, DET_OPEN, REF_CLOSE, REF_OPEN,
};
use crate::processor::{box_at, boxes_from, extracted, inside_of, sanitized, text_behind};
use crate::sanitize_laws::lemma_untagged_skip;
use crate::text::{
    decimal, first_at, is_white, lemma_first_at, lemma_first_at_is, lemma_first_at_none,
    lemma_first_at_skip, occurs_at, parsed, trimmed,
};
use crate::text_laws::{
    decimal_form_is_made_of_digits, is_blank, is_free_of, lemma_free, numbers_are_read_back,
    removing_takes_out_what_stands_there, text_before_a_mark, trimming_keeps_what_stands_between,
};

verus! {

broadcast use vstd::seq::group_seq_axioms;

spec fn shifted(spans: Seq<(int, int)>, k: int) -> Seq<(int, int)> {
    spans.map_values(|p: (int, int)| (p.0 + k, p.1 + k))
}

// ---------------------------------------------------------------------------
// Numbers
// ---------------------------------------------------------------------------

spec fn marks_of(s: Seq<char>) -> Seq<bool> {
    Seq::new(s.len(), |i: int| is_digit(s[i], is_wide_digit(s[i])))
}

proof fn lemma_run_end_left(a: Seq<bool>, b: Seq<bool>, i: int)
    requires
        0 <= i <= a.len(),
    ensures
        run_end(a + seq![false] + b, i) == run_end(a, i),
    decreases a.len() - i,
{
    let all = a + seq![false] + b;
    if i < a.len() {
        assert(all[i] == a[i]);
        lemma_run_end_left(a, b, i + 1);
    }
}

proof fn lemma_run_end_right(a: Seq<bool>, b: Seq<bool>, i: int)
    requires
        0 <= i <= b.len(),
    ensures
        run_end(a + b, a.len() + i) == a.len() + run_end(b, i),
    decreases b.len() - i,
{
    if i < b.len() {
        assert((a + b)[a.len() + i] == b[i]);
        lemma_run_end_right(a, b, i + 1);
    }
}

proof fn lemma_runs_right(a: Seq<bool>, b: Seq<bool>, i: int)
    requires
        0 <= i <= b.len(),
    ensures
        runs(a + b, a.len() + i) == shifted(runs(b, i), a.len() as int),
    decreases b.len() - i,
{
    let n = a.len() as int;
    if i == b.len() {
        assert(shifted(runs(b, i), n) =~= seq![]);
    } else {
        assert((a + b)[n + i] == b[i]);
        if b[i] {
            let end = run_end(b, i + 1);
            lemma_run_end(b, i + 1);
            lemma_run_end_right(a, b, i + 1);
            lemma_runs_right(a, b, end);
            assert(runs(a + b, n + i) == seq![(n + i, n + end)] + runs(a + b, n + end));
            assert(shifted(seq![(i, end)] + runs(b, end), n) =~= seq![(n + i, n + end)] + shifted(
                runs(b, end),
                n,
            ));
        } else {
            lemma_runs_right(a, b, i + 1);
        }
    }
}

proof fn lemma_runs_left(a: Seq<bool>, b: Seq<bool>, i: int)
    requires
        0 <= i <= a.len(),
    ensures
        runs(a + seq![false] + b, i) == runs(a, i) + shifted(runs(b, 0), a.len() as int + 1),
    decreases a.len() - i,
{
    let all = a + seq![false] + b;
    let behind = shifted(runs(b, 0), a.len() as int + 1);
    if i == a.len() {
        assert(!all[i]);
        lemma_runs_right(a + seq![false], b, 0);
        assert(runs(a, i) + behind =~= behind);
    } else {
        assert(all[i] == a[i]);
        if a[i] {
            let end = run_end(a, i + 1);
            lemma_run_end(a, i + 1);
            lemma_run_end_left(a, b, i + 1);
            lemma_runs_left(a, b, end);
            assert(seq![(i, end)] + (runs(a, end) + behind) =~= seq![(i, end)] + runs(a, end)
                + behind);
        } else {
            lemma_runs_left(a, b, i + 1);
        }
    }
}

proof fn lemma_numbers_concat(s: Seq<char>, a: Seq<(int, int)>, b: Seq<(int, int)>)
    ensures
        numbers_at(s, a + b) == numbers_at(s, a) + numbers_at(s, b),
    decreases b.len(),
{
    if b.len() == 0 {
        assert(a + b =~= a);
        assert(numbers_at(s, a) + numbers_at(s, b) =~= numbers_at(s, a));
    } else {
        lemma_numbers_concat(s, a, b.drop_last());
        assert((a + b).drop_last() =~= a + b.drop_last());
        assert((a + b).last() == b.last());
        assert(numbers_at(s, a + b) =~= numbers_at(s, a) + numbers_at(s, b));
    }
}

proof fn lemma_numbers_moved(
    s: Seq<char>,
    t: Seq<char>,
    spans: Seq<(int, int)>,
    k: int,
)
    requires
        0 <= k,
        k + t.len() <= s.len(),
        s.subrange(k, k + t.len()) == t,
        forall|i: int|
            #![trigger spans[i]]
            0 <= i < spans.len() ==> 0 <= spans[i].0 <= spans[i].1 <= t.len(),
    ensures
        numbers_at(s, shifted(spans, k)) == numbers_at(t, spans),
    decreases spans.len(),
{
    let moved = shifted(spans, k);
    if spans.len() > 0 {
        let before = spans.drop_last();
        assert forall|i: int| #![trigger before[i]] 0 <= i < before.len() implies 0 <= before[i].0
            <= before[i].1 <= t.len() by {
            assert(before[i] == spans[i]);
        }
        lemma_numbers_moved(s, t, before, k);
        assert(moved.drop_last() =~= shifted(before, k));
        let last = spans[spans.len() - 1];
        assert(moved.last() == (last.0 + k, last.1 + k));
        assert(s.subrange(last.0 + k, last.1 + k) =~= t.subrange(last.0, last.1)) by {
            assert forall|j: int| 0 <= j < last.1 - last.0 implies s[last.0 + k + j]
                == #[trigger] t[last.0 + j] by {
                assert(s.subrange(k, k + t.len())[last.0 + j] == s[k + last.0 + j]);
            }
        }
    }
}

/// What is no digit parts numbers: those before it are read, then those behind
/// it, each as if the rest were not there.
pub proof fn numbers_are_read_one_behind_the_other(x: Seq<char>, c: char, y: Seq<char>)
    requires
        if c <= '\u{7f}' {
            !('0' <= c <= '9')
        } else {
            !is_wide_digit(c)
        },
    ensures
        numbers_in(x + seq![c] + y) == numbers_in(x) + numbers_in(y),
{
    let s = x + seq![c] + y;
    let a = marks_of(x);
    let b = marks_of(y);
    let n = x.len() as int;
    assert(marks_of(s) =~= a + seq![false] + b);
    lemma_runs_left(a, b, 0);
    lemma_runs_within(a, 0);
    lemma_runs_within(b, 0);
    let left = runs(a, 0);
    let right = runs(b, 0);
    lemma_numbers_concat(s, left, shifted(right, n + 1));
    assert(s.subrange(n + 1, n + 1 + y.len()) =~= y);
    lemma_numbers_moved(s, y, right, n + 1);
    assert(s.subrange(0, n) =~= x);
    lemma_numbers_moved(s, x, left, 0);
    assert(shifted(left, 0) =~= left);
}

proof fn lemma_run_all(marks: Seq<bool>, i: int)
    requires
        0 <= i <= marks.len(),
        forall|k: int| 0 <= k < marks.len() ==> #[trigger] marks[k],
    ensures
        run_end(marks, i) == marks.len(),
    decreases marks.len() - i,
{
    if i < marks.len() {
        assert(marks[i]);
        lemma_run_all(marks, i + 1);
    }
}

/// Digits one behind the other are one number, where it is not too large, and
/// else none. Text without digits holds no number.
pub proof fn digits_are_one_number(s: Seq<char>)
    ensures
        s.len() > 0 && (forall|i: int| 0 <= i < s.len() ==> '0' <= #[trigger] s[i] <= '9') ==> (
        match parsed(s, u32::MAX as nat) {
            Some(n) => numbers_in(s) == seq![n as u32],
            None => numbers_in(s) == Seq::<u32>::empty(),
        }),
        (forall|i: int| 0 <= i < s.len() ==> #[trigger] s[i] <= '\u{7f}' && !('0' <= s[i] <= '9'))
            ==> numbers_in(s) == Seq::<u32>::empty(),
{
    let marks = marks_of(s);
    if s.len() > 0 && (forall|i: int| 0 <= i < s.len() ==> '0' <= #[trigger] s[i] <= '9') {
        assert forall|k: int| 0 <= k < marks.len() implies #[trigger] marks[k] by {
            assert('0' <= s[k] <= '9');
        }
        assert(marks[0]);
        lemma_run_all(marks, 1);
        let n = s.len() as int;
        let spans = seq![(0int, n)];
        assert(runs(marks, n) =~= seq![]);
        assert(runs(marks, 0) =~= spans);
        assert(spans.drop_last() =~= seq![]);
        assert(s.subrange(0, n) =~= s);
        assert(numbers_at(s, spans.drop_last()) =~= seq![]);
        assert(numbers_in(s) =~= match parsed(s, u32::MAX as nat) {
            Some(m) => seq![m as u32],
            None => seq![],
        });
    }
    if forall|i: int| 0 <= i < s.len() ==> #[trigger] s[i] <= '\u{7f}' && !('0' <= s[i] <= '9') {
        assert forall|k: int| 0 <= k < marks.len() implies !#[trigger] marks[k] by {
            assert(s[k] <= '\u{7f}');
        }
        lemma_no_run(marks, 0);
    }
}

proof fn lemma_no_run(marks: Seq<bool>, i: int)
    requires
        0 <= i <= marks.len(),
        forall|k: int| 0 <= k < marks.len() ==> !#[trigger] marks[k],
    ensures
        runs(marks, i) == Seq::<(int, int)>::empty(),
    decreases marks.len() - i,
{
    if i < marks.len() {
        assert(!marks[i]);
        lemma_no_run(marks, i + 1);
    }
}

// ---------------------------------------------------------------------------
// Labels and regions
// ---------------------------------------------------------------------------

/// In ASCII, lower case changes the capital letters and nothing else.
pub proof fn only_capitals_are_lowered(s: Seq<char>, i: int)
    requires
        is_ascii_text(s),
        0 <= i < s.len(),
    ensures
        lowered(s).len() == s.len(),
        'A' <= s[i] <= 'Z' ==> lowered(s)[i] as int == s[i] as int + 32,
        !('A' <= s[i] <= 'Z') ==> lowered(s)[i] == s[i],
{
}

/// The label is all that stands before the first bracket, without the white
/// space around it, in lower case; without anything there it is "text".
pub proof fn label_stands_before_the_bracket(
    a: Seq<char>,
    m: Seq<char>,
    b: Seq<char>,
    rest: Seq<char>,
)
    requires
        is_blank(a),
        is_blank(b),
        !(a + m + b).contains('['),
        m.len() == 0 || (!is_white(m[0]) && !is_white(m.last())),
    ensures
        m.len() == 0 ==> label_in(a + m + b + seq!['['] + rest) == "text"@ && label_in(a + m + b)
            == "text"@,
        m.len() > 0 ==> label_in(a + m + b + seq!['['] + rest) == lowered(m) && label_in(a + m + b)
            == lowered(m),
        m.len() > 0 && !is_ascii_text(m) ==> label_in(a + m + b) == lower_case(m),
{
    text_before_a_mark(a + m + b, '[', rest);
    trimming_keeps_what_stands_between(a, m, b);
}

/// Two coordinates are put in order and cut down to 1000.
pub open spec fn spans_from_to(a: u32, b: u32, low: u32, high: u32) -> bool {
    &&& low <= high <= 1000
    &&& a <= b ==> low == (if a <= 1000 { a } else { 1000 }) && high == (if b <= 1000 {
        b
    } else {
        1000
    })
    &&& b <= a ==> low == (if b <= 1000 { b } else { 1000 }) && high == (if a <= 1000 {
        a
    } else {
        1000
    })
}

/// A tag with four numbers or more is a region. The first and the third number
/// are its sides to the left and to the right, the second and the fourth its
/// upper and its lower side, whichever of two is the lesser.
pub proof fn first_four_numbers_are_the_corners(inside: Seq<char>)
    ensures
        region_in(inside) is Some <==> numbers_in(inside).len() >= 4,
        region_in(inside) matches Some(r) ==> {
            let n = numbers_in(inside);
            &&& spans_from_to(n[0], n[2], r.xmin, r.xmax)
            &&& spans_from_to(n[1], n[3], r.ymin, r.ymax)
            &&& r.label == label_in(inside)
        },
{
}

/// A tag with a label and four coordinates in brackets.
pub open spec fn region_text(label: Seq<char>, x1: u32, y1: u32, x2: u32, y2: u32) -> Seq<char> {
    label + " ["@ + decimal(x1 as nat) + ", "@ + decimal(y1 as nat) + ", "@ + decimal(x2 as nat)
        + ", "@ + decimal(y2 as nat) + "]"@
}

proof fn lemma_number(n: u32)
    ensures
        numbers_in(decimal(n as nat)) == seq![n],
{
    decimal_form_is_made_of_digits(n as nat);
    digits_are_one_number(decimal(n as nat));
    numbers_are_read_back(n as nat, u32::MAX as nat);
}

/// A number, a comma and a space, then the rest.
proof fn lemma_next_number(n: u32, rest: Seq<char>)
    ensures
        numbers_in(decimal(n as nat) + ", "@ + rest) == seq![n] + numbers_in(rest),
{
    reveal_strlit(", ");
    let none = Seq::<char>::empty();
    lemma_number(n);
    let tail = none + seq![' '] + rest;
    numbers_are_read_one_behind_the_other(decimal(n as nat), ',', tail);
    numbers_are_read_one_behind_the_other(none, ' ', rest);
    digits_are_one_number(none);
    assert(decimal(n as nat) + ", "@ + rest =~= decimal(n as nat) + seq![','] + tail);
    assert(Seq::<u32>::empty() + numbers_in(rest) =~= numbers_in(rest));
}

/// A region that the model writes into a tag is the region that is read.
pub proof fn written_region_is_read(label: Seq<char>, x1: u32, y1: u32, x2: u32, y2: u32)
    requires
        label.len() > 0,
        !is_white(label[0]),
        !is_white(label.last()),
        forall|i: int|
            0 <= i < label.len() ==> #[trigger] label[i] <= '\u{7f}' && !('0' <= label[i] <= '9')
                && label[i] != '[',
    ensures
        region_in(region_text(label, x1, y1, x2, y2)) matches Some(r) && {
            &&& r.label == lowered(label)
            &&& spans_from_to(x1, x2, r.xmin, r.xmax)
            &&& spans_from_to(y1, y2, r.ymin, r.ymax)
        },
{
    reveal_strlit(" [");
    reveal_strlit(", ");
    reveal_strlit("]");
    let none = Seq::<char>::empty();
    let s = region_text(label, x1, y1, x2, y2);
    let d4 = decimal(y2 as nat) + seq![']'] + none;
    let d3 = decimal(x2 as nat) + ", "@ + d4;
    let d2 = decimal(y1 as nat) + ", "@ + d3;
    let d1 = decimal(x1 as nat) + ", "@ + d2;
    lemma_number(y2);
    digits_are_one_number(none);
    numbers_are_read_one_behind_the_other(decimal(y2 as nat), ']', none);
    assert(numbers_in(d4) =~= seq![y2]);
    lemma_next_number(x2, d4);
    lemma_next_number(y1, d3);
    lemma_next_number(x1, d2);
    assert(numbers_in(d1) =~= seq![x1, y1, x2, y2]);
    let tail = none + seq!['['] + d1;
    numbers_are_read_one_behind_the_other(none, '[', d1);
    numbers_are_read_one_behind_the_other(label, ' ', tail);
    digits_are_one_number(label);
    assert(s =~= label + seq![' '] + tail);
    assert(numbers_in(s) =~= seq![x1, y1, x2, y2]);
    assert(seq![' '].len() == 1 && is_white(seq![' '][0]));
    assert forall|k: int| 0 <= k < (none + label + seq![' ']).len() implies (none + label
        + seq![' '])[k] != '[' by {
        if k < label.len() {
            assert((none + label + seq![' '])[k] == label[k]);
        }
    }
    label_stands_before_the_bracket(none, label, seq![' '], d1);
    assert(s =~= none + label + seq![' '] + seq!['['] + d1);
    first_four_numbers_are_the_corners(s);
}

// ---------------------------------------------------------------------------
// Tags
// ---------------------------------------------------------------------------

/// A tag begins with a character that it does not hold again.
pub open spec fn is_tag(tag: Seq<char>) -> bool {
    &&& tag.len() > 0
    &&& forall|j: int| 0 < j < tag.len() ==> #[trigger] tag[j] != tag[0]
}

pub proof fn lemma_are_tags()
    ensures
        is_tag(DET_OPEN@),
        is_tag(DET_CLOSE@),
        is_tag(REF_OPEN@),
        is_tag(REF_CLOSE@),
{
    lemma_tags();
    lemma_ref_tags();
}

pub proof fn lemma_first_tag(p: Seq<char>, tag: Seq<char>, x: Seq<char>)
    requires
        is_tag(tag),
        is_free_of(p, tag),
    ensures
        first_at(p + tag + x, tag, 0) == Some(p.len() as int),
{
    let s = p + tag + x;
    let n = p.len() as int;
    assert(s.subrange(n, n + tag.len()) =~= tag);
    lemma_free(p, tag);
    assert forall|k: int| 0 <= k < n implies !occurs_at(s, tag, k) by {
        if occurs_at(s, tag, k) {
            if k + tag.len() <= n {
                assert(p.subrange(k, k + tag.len()) =~= s.subrange(k, k + tag.len()));
                assert(occurs_at(p, tag, k));
            } else {
                assert(s.subrange(k, k + tag.len())[n - k] == s[n]);
                assert(s[n] == tag[0]);
                assert(tag[n - k] != tag[0]);
            }
        }
    }
    lemma_first_at_is(s, tag, 0, n);
}

/// The places of the tags of the first stretch.
proof fn lemma_first_stretch(
    before: Seq<char>,
    open: Seq<char>,
    inside: Seq<char>,
    close: Seq<char>,
    rest: Seq<char>,
)
    requires
        is_tag(open),
        is_tag(close),
        is_free_of(before, open),
        is_free_of(inside, close),
    ensures
        ({
            let s = before + open + inside + close + rest;
            let a = before.len() as int + open.len();
            &&& first_at(s, open, 0) == Some(before.len() as int)
            &&& first_at(s, close, a) == Some(a + inside.len())
            &&& s.skip(a + inside.len() + close.len()) == rest
            &&& s.subrange(a, a + inside.len()) == inside
            &&& s.subrange(0, before.len() as int) == before
        }),
{
    let s = before + open + inside + close + rest;
    let a = before.len() as int + open.len();
    lemma_first_tag(before, open, inside + close + rest);
    assert(s =~= before + open + (inside + close + rest));
    lemma_first_tag(inside, close, rest);
    assert(s.skip(a) =~= inside + close + rest);
    lemma_first_at_skip(s, close, a, 0);
    assert(s.skip(a + inside.len() + close.len()) =~= rest);
    assert(s.subrange(a, a + inside.len()) =~= inside);
    assert(s.subrange(0, before.len() as int) =~= before);
}

/// Of the first stretch between tags, all that stands before it stays, and what
/// stands inside stays or goes; then the same is done to what follows. Text
/// without an opening or without a closing tag stays as it is.
pub proof fn tags_are_taken_out_one_by_one(
    before: Seq<char>,
    inside: Seq<char>,
    rest: Seq<char>,
    keep: bool,
)
    ensures
        is_free_of(before, "<|det|>"@) && is_free_of(inside, "<|/det|>"@) ==> untagged(
            before + "<|det|>"@ + inside + "<|/det|>"@ + rest,
            "<|det|>"@,
            "<|/det|>"@,
            keep,
            0,
        ) == before + (if keep {
            inside
        } else {
            Seq::<char>::empty()
        }) + untagged(rest, "<|det|>"@, "<|/det|>"@, keep, 0),
        is_free_of(before, "<|ref|>"@) && is_free_of(inside, "<|/ref|>"@) ==> untagged(
            before + "<|ref|>"@ + inside + "<|/ref|>"@ + rest,
            "<|ref|>"@,
            "<|/ref|>"@,
            keep,
            0,
        ) == before + (if keep {
            inside
        } else {
            Seq::<char>::empty()
        }) + untagged(rest, "<|ref|>"@, "<|/ref|>"@, keep, 0),
        is_free_of(rest, "<|det|>"@) || is_free_of(rest, "<|/det|>"@) ==> untagged(
            rest,
            "<|det|>"@,
            "<|/det|>"@,
            keep,
            0,
        ) == rest,
        is_free_of(rest, "<|ref|>"@) || is_free_of(rest, "<|/ref|>"@) ==> untagged(
            rest,
            "<|ref|>"@,
            "<|/ref|>"@,
            keep,
            0,
        ) == rest,
{
    lemma_are_tags();
    lemma_untagged_first(before, DET_OPEN@, inside, DET_CLOSE@, rest, keep);
    lemma_untagged_first(before, REF_OPEN@, inside, REF_CLOSE@, rest, keep);
    lemma_untagged_none(rest, DET_OPEN@, DET_CLOSE@, keep);
    lemma_untagged_none(rest, REF_OPEN@, REF_CLOSE@, keep);
}

proof fn lemma_untagged_first(
    before: Seq<char>,
    open: Seq<char>,
    inside: Seq<char>,
    close: Seq<char>,
    rest: Seq<char>,
    keep: bool,
)
    requires
        is_tag(open),
        is_tag(close),
    ensures
        is_free_of(before, open) && is_free_of(inside, close) ==> untagged(
            before + open + inside + close + rest,
            open,
            close,
            keep,
            0,
        ) == before + (if keep {
            inside
        } else {
            Seq::<char>::empty()
        }) + untagged(rest, open, close, keep, 0),
{
    if is_free_of(before, open) && is_free_of(inside, close) {
        let s = before + open + inside + close + rest;
        lemma_first_stretch(before, open, inside, close, rest);
        lemma_untagged_skip(
            s,
            open,
            close,
            keep,
            before.len() as int + open.len() + inside.len() + close.len(),
        );
    }
}

/// Text without an opening or without a closing tag holds no stretch.
proof fn lemma_no_stretch(s: Seq<char>, open: Seq<char>, close: Seq<char>)
    requires
        is_tag(open),
        is_free_of(s, open) || is_free_of(s, close),
    ensures
        match first_at(s, open, 0) {
            Some(i) => first_at(s, close, i + open.len()) is None,
            None => true,
        },
        tag_spans(s, open, close, 0) == Seq::<(int, int)>::empty(),
{
    lemma_first_at(s, open, 0);
    if is_free_of(s, open) {
        lemma_free(s, open);
        lemma_first_at_none(s, open, 0);
    } else {
        lemma_free(s, close);
        if let Some(i) = first_at(s, open, 0) {
            lemma_first_at_none(s, close, i + open.len());
        }
    }
}

proof fn lemma_untagged_none(s: Seq<char>, open: Seq<char>, close: Seq<char>, keep: bool)
    requires
        is_tag(open),
    ensures
        is_free_of(s, open) || is_free_of(s, close) ==> untagged(s, open, close, keep, 0) == s,
{
    if is_free_of(s, open) || is_free_of(s, close) {
        lemma_no_stretch(s, open, close);
        assert(s.skip(0) =~= s);
    }
}

/// A reference tag is taken out of a text wherever it stands, opening or
/// closing, and all else stays.
pub proof fn reference_tags_are_dropped(a: Seq<char>, b: Seq<char>)
    ensures
        is_free_of(a, "<|ref|>"@) && is_free_of(a, "<|/ref|>"@) ==> without_refs(a) == a,
        is_free_of(a, "<|ref|>"@) && is_free_of(b, "<|ref|>"@) && is_free_of(a + b, "<|/ref|>"@)
            ==> without_refs(a + "<|ref|>"@ + b) == a + b,
        is_free_of(a + "<|/ref|>"@ + b, "<|ref|>"@) && is_free_of(a, "<|/ref|>"@) && is_free_of(
            b,
            "<|/ref|>"@,
        ) ==> without_refs(a + "<|/ref|>"@ + b) == a + b,
{
    lemma_are_tags();
    removing_takes_out_what_stands_there(a, REF_OPEN@, b);
    removing_takes_out_what_stands_there(a, REF_CLOSE@, b);
    removing_takes_out_what_stands_there(b, REF_OPEN@, b);
    removing_takes_out_what_stands_there(b, REF_CLOSE@, b);
    removing_takes_out_what_stands_there(a + b, REF_CLOSE@, b);
    removing_takes_out_what_stands_there(a + REF_CLOSE@ + b, REF_OPEN@, b);
    if is_free_of(a, REF_OPEN@) {
        lemma_free_up_to(a, REF_OPEN@);
    }
    if is_free_of(a, REF_CLOSE@) {
        lemma_free_up_to(a, REF_CLOSE@);
    }
}

proof fn lemma_free_up_to(a: Seq<char>, tag: Seq<char>)
    requires
        is_tag(tag),
        is_free_of(a, tag),
    ensures
        is_free_of((a + tag).drop_last(), tag),
{
    let s = (a + tag).drop_last();
    let n = a.len() as int;
    assert forall|j: int| 0 <= j && j + tag.len() <= s.len() implies #[trigger] s.subrange(
        j,
        j + tag.len(),
    ) != tag by {
        let part = s.subrange(j, j + tag.len());
        if part == tag {
            if j + tag.len() <= n {
                assert(a.subrange(j, j + tag.len()) =~= part);
            } else {
                assert(part[n - j] == s[n]);
                assert(s[n] == tag[0]);
                assert(tag[n - j] != tag[0]);
            }
        }
    }
}

// ---------------------------------------------------------------------------
// Boxes
// ---------------------------------------------------------------------------

proof fn lemma_spans_skip(s: Seq<char>, open: Seq<char>, close: Seq<char>, k: int, i: int)
    requires
        0 <= k <= s.len(),
        0 <= i <= s.len() - k,
        open.len() > 0,
    ensures
        tag_spans(s, open, close, k + i) == shifted(tag_spans(s.skip(k), open, close, i), k),
    decreases s.len() - k - i,
{
    let t = s.skip(k);
    lemma_first_at_skip(s, open, k, i);
    lemma_first_at(t, open, i);
    match first_at(t, open, i) {
        Some(p) => {
            lemma_first_at_skip(s, close, k, p + open.len());
            lemma_first_at(t, close, p + open.len());
            match first_at(t, close, p + open.len()) {
                Some(j) => {
                    let z = j + close.len();
                    lemma_spans_skip(s, open, close, k, z);
                    assert(k + p + open.len() == k + (p + open.len()));
                    assert(k + j + close.len() == k + z);
                    assert(shifted(seq![(p, z)] + tag_spans(t, open, close, z), k) =~= seq![
                        (k + p, k + z),
                    ] + shifted(tag_spans(t, open, close, z), k));
                },
                None => {
                    assert(k + p + open.len() == k + (p + open.len()));
                    assert(shifted(tag_spans(t, open, close, i), k) =~= seq![]);
                },
            }
        },
        None => {
            assert(shifted(tag_spans(t, open, close, i), k) =~= seq![]);
        },
    }
}

/// The stretches of what is left of a text give the boxes that they give in the
/// whole of it.
proof fn lemma_boxes_moved(
    raw: Seq<char>,
    k: int,
    spans: Seq<(int, int)>,
    rest: Seq<(int, int)>,
    d: int,
    i: int,
)
    requires
        0 <= k <= raw.len(),
        rest == tag_spans(raw.skip(k), DET_OPEN@, DET_CLOSE@, 0),
        0 <= d,
        spans.len() == rest.len() + d,
        forall|n: int|
            0 <= n < rest.len() ==> #[trigger] spans[n + d] == (rest[n].0 + k, rest[n].1 + k),
        0 <= i <= rest.len(),
    ensures
        boxes_from(raw, spans, i + d) == boxes_from(raw.skip(k), rest, i),
    decreases rest.len() - i,
{
    let t = raw.skip(k);
    if i < rest.len() {
        lemma_tags();
        lemma_tag_spans_within(t, DET_OPEN@, DET_CLOSE@, 0);
        lemma_boxes_moved(raw, k, spans, rest, d, i + 1);
        let span = rest[i];
        assert(spans[i + d] == (span.0 + k, span.1 + k));
        assert(inside_of(raw, spans[i + d]) =~= inside_of(t, span));
        let end = if i + 1 < rest.len() {
            rest[i + 1].0
        } else {
            t.len() as int
        };
        if i + 1 < rest.len() {
            assert(spans[i + 1 + d] == (rest[i + 1].0 + k, rest[i + 1].1 + k));
            assert(span.1 <= rest[i + 1].0);
        }
        assert(t.subrange(span.1, end) =~= raw.subrange(span.1 + k, end + k));
        assert(text_behind(raw, spans, i + d) == text_behind(t, rest, i));
        assert(i + 1 + d == i + d + 1);
    }
}

/// `rest` begins with a detection tag that is closed.
pub open spec fn begins_with_a_box(rest: Seq<char>) -> bool {
    &&& rest.len() >= 7
    &&& rest.take(7) == "<|det|>"@
    &&& !is_free_of(rest.skip(7), "<|/det|>"@)
}

/// Where the text of a box ends: at the next detection tag that is closed, or
/// at the end of what the model wrote.
pub open spec fn ends_before(text: Seq<char>, rest: Seq<char>) -> bool {
    ||| is_free_of(text, "<|det|>"@) && begins_with_a_box(rest)
    ||| rest.len() == 0 && (is_free_of(text, "<|det|>"@) || is_free_of(text, "<|/det|>"@))
}

/// Text before a detection tag gives no box.
proof fn lemma_no_box_before(text: Seq<char>, rest: Seq<char>)
    requires
        ends_before(text, rest),
    ensures
        extracted(text + rest) == extracted(rest),
        ({
            let spans = tag_spans(text + rest, DET_OPEN@, DET_CLOSE@, 0);
            if rest.len() == 0 {
                spans.len() == 0
            } else {
                spans.len() > 0 && spans[0].0 == text.len()
            }
        }),
{
    lemma_are_tags();
    lemma_tags();
    let s = text + rest;
    let n = text.len() as int;
    if rest.len() == 0 {
        assert(s =~= text);
        lemma_no_stretch(text, DET_OPEN@, DET_CLOSE@);
        assert(is_free_of(rest, DET_OPEN@));
        lemma_no_stretch(rest, DET_OPEN@, DET_CLOSE@);
    } else {
        let more = rest.skip(7);
        assert(rest =~= DET_OPEN@ + more);
        lemma_first_tag(text, DET_OPEN@, more);
        assert(s =~= text + DET_OPEN@ + more);
        assert(s.skip(n) =~= rest);
        assert(rest.subrange(0, 7) =~= DET_OPEN@);
        lemma_first_at_is(rest, DET_OPEN@, 0, 0);
        lemma_first_at_skip(s, DET_OPEN@, n, 0);
        assert(tag_spans(s, DET_OPEN@, DET_CLOSE@, 0) == tag_spans(s, DET_OPEN@, DET_CLOSE@, n));
        lemma_spans_skip(s, DET_OPEN@, DET_CLOSE@, n, 0);
        let rests = tag_spans(rest, DET_OPEN@, DET_CLOSE@, 0);
        let spans = tag_spans(s, DET_OPEN@, DET_CLOSE@, 0);
        assert(spans == shifted(rests, n));
        let j = choose|j: int|
            0 <= j && j + DET_CLOSE@.len() <= more.len() && #[trigger] more.subrange(
                j,
                j + DET_CLOSE@.len(),
            ) == DET_CLOSE@;
        assert(occurs_at(more, DET_CLOSE@, j));
        lemma_first_at(more, DET_CLOSE@, 0);
        lemma_first_at_skip(rest, DET_CLOSE@, 7, 0);
        assert(rests.len() > 0 && rests[0].0 == 0);
        assert(spans[0] == (rests[0].0 + n, rests[0].1 + n));
        assert forall|i: int| 0 <= i < rests.len() implies #[trigger] spans[i + 0] == (
            rests[i].0 + n,
            rests[i].1 + n,
        ) by {}
        lemma_boxes_moved(s, n, spans, rests, 0, 0);
    }
}

/// A detection tag that holds a region gives a box with that region, and one
/// that holds none gives none. The text of the box is all that stands behind
/// its tag up to the next one, or up to the end, without reference tags and
/// without white space at its ends. The boxes of the rest follow.
pub proof fn boxes_are_read_one_behind_the_other(
    before: Seq<char>,
    inside: Seq<char>,
    text: Seq<char>,
    rest: Seq<char>,
)
    requires
        is_free_of(before, "<|det|>"@),
        is_free_of(inside, "<|/det|>"@),
        ends_before(text, rest),
    ensures
        ({
            let raw = before + "<|det|>"@ + inside + "<|/det|>"@ + (text + rest);
            match region_in(inside) {
                Some(r) => extracted(raw) == seq![
                    BoxValue {
                        label: r.label,
                        xmin: r.xmin,
                        ymin: r.ymin,
                        xmax: r.xmax,
                        ymax: r.ymax,
                        text: trimmed(without_refs(text)),
                    },
                ] + extracted(rest),
                None => extracted(raw) == extracted(rest),
            }
        }),
{
    lemma_are_tags();
    lemma_tags();
    let tail = text + rest;
    let raw = before + DET_OPEN@ + inside + DET_CLOSE@ + tail;
    let n = before.len() as int;
    let z = n + 7 + inside.len() + 8;
    lemma_first_stretch(before, DET_OPEN@, inside, DET_CLOSE@, tail);
    lemma_spans_skip(raw, DET_OPEN@, DET_CLOSE@, z, 0);
    assert(raw.skip(z) =~= tail);
    let rests = tag_spans(tail, DET_OPEN@, DET_CLOSE@, 0);
    let spans = tag_spans(raw, DET_OPEN@, DET_CLOSE@, 0);
    assert(spans =~= seq![(n, z)] + shifted(rests, z));
    assert forall|i: int| 0 <= i < rests.len() implies #[trigger] spans[i + 1] == (
        rests[i].0 + z,
        rests[i].1 + z,
    ) by {
        assert(spans[i + 1] == shifted(rests, z)[i]);
    }
    lemma_boxes_moved(raw, z, spans, rests, 1, 0);
    lemma_no_box_before(text, rest);
    assert(inside_of(raw, spans[0]) =~= inside);
    if rest.len() == 0 {
        assert(text_behind(raw, spans, 0) =~= text);
    } else {
        assert(spans[0int + 1] == (rests[0].0 + z, rests[0].1 + z));
        assert(raw.subrange(z, z + text.len()) =~= text);
        assert(text_behind(raw, spans, 0) =~= text);
    }
    assert(extracted(raw) == box_at(raw, spans, 0) + boxes_from(raw, spans, 1));
    assert(Seq::<BoxValue>::empty() + extracted(rest) =~= extracted(rest));
}

/// Where no reference tag stands in the text behind a detection tag, the box
/// keeps that text character by character, line breaks included, but for the
/// white space at its ends.
pub proof fn box_keeps_its_text(
    before: Seq<char>,
    inside: Seq<char>,
    a: Seq<char>,
    m: Seq<char>,
    b: Seq<char>,
    rest: Seq<char>,
)
    requires
        is_free_of(before, "<|det|>"@),
        is_free_of(inside, "<|/det|>"@),
        region_in(inside) is Some,
        is_blank(a),
        is_blank(b),
        m.len() == 0 || (!is_white(m[0]) && !is_white(m.last())),
        is_free_of(a + m + b, "<|ref|>"@),
        is_free_of(a + m + b, "<|/ref|>"@),
        ends_before(a + m + b, rest),
    ensures
        ({
            let raw = before + "<|det|>"@ + inside + "<|/det|>"@ + (a + m + b + rest);
            &&& extracted(raw).len() == extracted(rest).len() + 1
            &&& extracted(raw)[0].text == m
            &&& extracted(raw).skip(1) == extracted(rest)
        }),
{
    boxes_are_read_one_behind_the_other(before, inside, a + m + b, rest);
    reference_tags_are_dropped(a + m + b, seq![]);
    trimming_keeps_what_stands_between(a, m, b);
    let raw = before + "<|det|>"@ + inside + "<|/det|>"@ + (a + m + b + rest);
    assert(extracted(raw).skip(1) =~= extracted(rest));
}

/// Text without an opening or without a closing detection tag gives no box.
pub proof fn no_tags_no_boxes(raw: Seq<char>)
    requires
        is_free_of(raw, "<|det|>"@) || is_free_of(raw, "<|/det|>"@),
    ensures
        extracted(raw) == Seq::<BoxValue>::empty(),
{
    lemma_are_tags();
    lemma_no_stretch(raw, DET_OPEN@, DET_CLOSE@);
}

/// Text without reference tags behind and around its detection tags is
/// sanitized by taking the tags out: what stands outside stays as it is.
pub proof fn text_around_a_tag_stays(
    before: Seq<char>,
    inside: Seq<char>,
    rest: Seq<char>,
)
    requires
        is_free_of(before, "<|det|>"@),
        is_free_of(inside, "<|/det|>"@),
        is_free_of(rest, "<|det|>"@) || is_free_of(rest, "<|/det|>"@),
        is_free_of(before + rest, "<|ref|>"@) || is_free_of(before + rest, "<|/ref|>"@),
    ensures
        sanitized(before + "<|det|>"@ + inside + "<|/det|>"@ + rest) == trimmed(before + rest),
{
    tags_are_taken_out_one_by_one(before, inside, rest, false);
    tags_are_taken_out_one_by_one(before, inside, before + rest, true);
    assert(before + Seq::<char>::empty() + rest =~= before + rest);
}

} // verus!
