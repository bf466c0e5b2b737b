//! What holds of reading the markup piece by piece, however the text is cut.

use vstd::prelude::*;

use crate::grounding::{
    bbox, held, held_from, is_start_of, lemma_ref_tags, lemma_tags, may_become_tag, parse, rest_of,
    token, ParserValue,
};
use crate::markup::{region_in, region_is_on_scale, without_refs, SCALE};
use crate::models::{BoxValue, EventValue};
use crate::patterns::{tag_spans, DET_CLOSE, DET_OPEN, REF_CLOSE, REF_OPEN};
use crate::processor::{box_at, boxes_from, extracted, inside_of};
use crate::text::{
    first_at, lemma_first_at, lemma_first_at_extends, lemma_first_at_is, lemma_first_at_none,
    lemma_first_at_skip, occurs_at,
};

verus! {

broadcast use vstd::seq::group_seq_axioms;

/// The regions among events.
pub open spec fn boxes_in(events: Seq<EventValue>) -> Seq<EventValue> {
    events.filter(|e: EventValue| e is Bbox)
}

/// The text that events give out.
pub open spec fn text_in(events: Seq<EventValue>) -> Seq<char>
    decreases events.len(),
{
    if events.len() == 0 {
        seq![]
    } else {
        let before = text_in(events.drop_last());
        match events.last() {
            EventValue::Token { text, .. } => before + text,
            _ => before,
        }
    }
}

pub proof fn lemma_boxes_concat(a: Seq<EventValue>, b: Seq<EventValue>)
    ensures
        boxes_in(a + b) == boxes_in(a) + boxes_in(b),
{
    Seq::filter_distributes_over_add(a, b, |e: EventValue| e is Bbox);
}

pub proof fn lemma_text_concat(a: Seq<EventValue>, b: Seq<EventValue>)
    ensures
        text_in(a + b) == text_in(a) + text_in(b),
    decreases b.len(),
{
    if b.len() == 0 {
        assert(a + b =~= a);
        assert(text_in(a) + text_in(b) =~= text_in(a));
    } else {
        lemma_text_concat(a, b.drop_last());
        assert((a + b).drop_last() =~= a + b.drop_last());
        assert(text_in(a + b) =~= text_in(a) + text_in(b));
    }
}

pub proof fn lemma_token(page: usize, id: int, text: Seq<char>)
    ensures
        boxes_in(token(page, id, text)) == Seq::<EventValue>::empty(),
        text_in(token(page, id, text)) == text,
{
    reveal(Seq::filter);
    let events = token(page, id, text);
    let is_box = |e: EventValue| e is Bbox;
    assert(Seq::<EventValue>::empty().filter(is_box) =~= seq![]);
    if text.len() > 0 {
        assert(events.drop_last() =~= seq![]);
        assert(!is_box(events.last()));
        assert(text_in(events.drop_last()) =~= seq![]);
    }
    assert(text_in(events) =~= text);
}

pub proof fn lemma_bbox(page: usize, id: int, inside: Seq<char>)
    ensures
        boxes_in(bbox(page, id, region_in(inside))) == bbox(page, id, region_in(inside)),
        text_in(bbox(page, id, region_in(inside))) == Seq::<char>::empty(),
{
    reveal(Seq::filter);
    let events = bbox(page, id, region_in(inside));
    let is_box = |e: EventValue| e is Bbox;
    assert(Seq::<EventValue>::empty().filter(is_box) =~= seq![]);
    if events.len() > 0 {
        assert(events.drop_last() =~= seq![]);
        assert(is_box(events.last()));
        assert(events.filter(is_box) =~= events);
        assert(text_in(events.drop_last()) =~= seq![]);
    }
}

// ---------------------------------------------------------------------------
// Where the text is cut makes no difference
// ---------------------------------------------------------------------------

pub proof fn lemma_start(t: Seq<char>)
    requires
        may_become_tag(t),
    ensures
        1 <= t.len() <= 7,
        t[0] == '<',
        forall|j: int| 0 < j < t.len() ==> #[trigger] t[j] != '<',
{
    lemma_tags();
    lemma_ref_tags();
    let tag = if is_start_of(t, DET_OPEN@) {
        DET_OPEN@
    } else if is_start_of(t, REF_OPEN@) {
        REF_OPEN@
    } else {
        REF_CLOSE@
    };
    assert forall|j: int| 0 <= j < t.len() implies #[trigger] t[j] == tag[j] by {
        assert(tag.subrange(0, t.len() as int)[j] == tag[j]);
    }
}

/// One end of `s` at most may become a tag, and that is the one that is held
/// back.
pub proof fn lemma_held_is(s: Seq<char>, m: int)
    requires
        1 <= m <= s.len(),
        may_become_tag(s.skip(s.len() - m)),
    ensures
        held(s) == m,
{
    lemma_ref_tags();
    lemma_start(s.skip(s.len() - m));
    lemma_held_down(s, 7, m);
}

proof fn lemma_held_down(s: Seq<char>, n: int, m: int)
    requires
        1 <= m <= n,
        m <= s.len(),
        may_become_tag(s.skip(s.len() - m)),
    ensures
        held_from(s, n) == m,
    decreases n,
{
    if m < n {
        if n <= s.len() && may_become_tag(s.skip(s.len() - n)) {
            let long = s.skip(s.len() - n);
            let short = s.skip(s.len() - m);
            lemma_start(long);
            lemma_start(short);
            assert(long[n - m] == short[0]);
        }
        lemma_held_down(s, n - 1, m);
    }
}

/// What is held back may become a tag.
pub proof fn lemma_held_some(s: Seq<char>)
    ensures
        0 <= held(s) <= s.len(),
        held(s) > 0 ==> may_become_tag(s.skip(s.len() - held(s))),
{
    lemma_held_in(s, REF_CLOSE@.len() - 1);
}

proof fn lemma_held_in(s: Seq<char>, n: int)
    ensures
        0 <= held_from(s, n) <= s.len(),
        held_from(s, n) > 0 ==> may_become_tag(s.skip(s.len() - held_from(s, n))),
    decreases n,
{
    if n >= 1 {
        lemma_held_in(s, n - 1);
    }
}

/// A tag that begins in `x` and ends behind it begins where `x` is held back.
pub proof fn lemma_cut_tag_is_held(x: Seq<char>, b: Seq<char>, tag: Seq<char>, j: int)
    requires
        tag == DET_OPEN@ || tag == REF_OPEN@ || tag == REF_CLOSE@,
        occurs_at(x + b, tag, j),
        j < x.len() < j + tag.len(),
    ensures
        held(x) == x.len() - j,
{
    let m = x.len() - j;
    assert(x.skip(j) =~= (x + b).subrange(j, j + tag.len()).take(m));
    assert(tag.subrange(0, m) =~= x.skip(j));
    lemma_held_is(x, m);
}

/// No opening tag begins in the part of the text that is given out.
pub proof fn lemma_no_tag_in_given(x: Seq<char>, b: Seq<char>, j: int)
    requires
        first_at(x, DET_OPEN@, 0) is None,
        occurs_at(x + b, DET_OPEN@, j),
    ensures
        j >= x.len() - held(x),
{
    lemma_tags();
    lemma_held_some(x);
    lemma_first_at(x, DET_OPEN@, 0);
    let n = DET_OPEN@.len();
    if j + n <= x.len() {
        assert(x.subrange(j, j + n) =~= (x + b).subrange(j, j + n));
        assert(occurs_at(x, DET_OPEN@, j));
        assert(false);
    }
    if j < x.len() {
        lemma_cut_tag_is_held(x, b, DET_OPEN@, j);
    }
}

/// What is held back of a text is held back of the part of it that is left
/// after some of it was given out.
proof fn lemma_held_again(x: Seq<char>, b: Seq<char>)
    ensures
        held(x.skip(x.len() - held(x)) + b) == held(x + b),
{
    lemma_tags();
    lemma_ref_tags();
    lemma_held_some(x);
    let n = x.len() - held(x);
    let whole = x + b;
    let part = x.skip(n) + b;
    assert(part =~= whole.skip(n));
    lemma_held_some(whole);
    lemma_held_some(part);
    if held(whole) > 0 {
        let m = held(whole);
        let end = whole.skip(whole.len() - m);
        if m <= part.len() {
            assert(part.skip(part.len() - m) =~= end);
            lemma_held_is(part, m);
        } else {
            let k = m - b.len();
            let start = x.skip(x.len() - k);
            assert(start =~= end.take(k));
            let tag = if is_start_of(end, DET_OPEN@) {
                DET_OPEN@
            } else if is_start_of(end, REF_OPEN@) {
                REF_OPEN@
            } else {
                REF_CLOSE@
            };
            assert(tag.subrange(0, k) =~= tag.subrange(0, 0 + m).take(k));
            assert(is_start_of(start, tag));
            lemma_held_is(x, k);
            assert(false);
        }
    } else if held(part) > 0 {
        let m = held(part);
        assert(part.skip(part.len() - m) =~= whole.skip(whole.len() - m));
        lemma_held_is(whole, m);
    }
}

/// Text that comes in in two pieces leaves the parser in the state in which it
/// is after the same text in one piece, and gives out the same regions in the
/// same order under the same numbers.
pub proof fn pieces_make_no_difference_to_regions(
    page: usize,
    st: ParserValue,
    a: Seq<char>,
    b: Seq<char>,
)
    ensures
        ({
            let first = parse(page, st.plus(a));
            let second = parse(page, first.1.plus(b));
            let whole = parse(page, st.plus(a + b));
            &&& whole.1 == second.1
            &&& boxes_in(whole.0) == boxes_in(first.0) + boxes_in(second.0)
        }),
{
    assert(st.plus(a + b).pending =~= st.plus(a).pending + b);
    lemma_cut(page, st.plus(a), b);
    assert(st.plus(a).plus(b) =~= st.plus(a + b));
}

proof fn lemma_cut(page: usize, st: ParserValue, b: Seq<char>)
    ensures
        ({
            let first = parse(page, st);
            let second = parse(page, first.1.plus(b));
            let whole = parse(page, st.plus(b));
            &&& whole.1 == second.1
            &&& boxes_in(whole.0) == boxes_in(first.0) + boxes_in(second.0)
        }),
    decreases st.pending.len(),
{
    let x = st.pending;
    let first = parse(page, st);
    let second = parse(page, first.1.plus(b));
    let whole = parse(page, st.plus(b));
    lemma_tags();
    if !st.in_tag {
        lemma_first_at(x, DET_OPEN@, 0);
        match first_at(x, DET_OPEN@, 0) {
            Some(i) => {
                lemma_first_at_extends(x, b, DET_OPEN@);
                let next = ParserValue {
                    pending: x.skip(i + DET_OPEN@.len()),
                    box_id: st.box_id,
                    in_tag: true,
                };
                lemma_step(page, st, b, next, i + DET_OPEN@.len(), i);
                lemma_cut(page, next, b);
                let head = token(page, st.box_id, without_refs(x.take(i)));
                lemma_join(head, parse(page, next).0, second.0, parse(page, next.plus(b)).0);
            },
            None => {
                lemma_cut_outside(page, st, b);
            },
        }
    } else {
        lemma_first_at(x, DET_CLOSE@, 0);
        match first_at(x, DET_CLOSE@, 0) {
            Some(i) => {
                lemma_first_at_extends(x, b, DET_CLOSE@);
                let region = region_in(x.take(i));
                let id = if region is Some {
                    st.box_id + 1
                } else {
                    st.box_id
                };
                let next = ParserValue {
                    pending: x.skip(i + DET_CLOSE@.len()),
                    box_id: id,
                    in_tag: false,
                };
                lemma_step(page, st, b, next, i + DET_CLOSE@.len(), i);
                lemma_cut(page, next, b);
                let head = bbox(page, id, region);
                lemma_join(head, parse(page, next).0, second.0, parse(page, next.plus(b)).0);
            },
            None => {
                assert(first.1.plus(b) == st.plus(b));
                reveal(Seq::filter);
                assert(boxes_in(first.0) =~= seq![]);
                assert(boxes_in(first.0) + boxes_in(second.0) =~= boxes_in(second.0));
            },
        }
    }
}

proof fn lemma_step(
    page: usize,
    st: ParserValue,
    b: Seq<char>,
    next: ParserValue,
    n: int,
    i: int,
)
    requires
        0 <= i <= n <= st.pending.len(),
        next.pending == st.pending.skip(n),
    ensures
        (st.pending + b).take(i) == st.pending.take(i),
        (ParserValue { pending: (st.pending + b).skip(n), ..next }) == next.plus(b),
{
    assert((st.pending + b).take(i) =~= st.pending.take(i));
    assert((st.pending + b).skip(n) =~= st.pending.skip(n) + b);
}

proof fn lemma_join(
    head: Seq<EventValue>,
    a: Seq<EventValue>,
    b: Seq<EventValue>,
    whole: Seq<EventValue>,
)
    ensures
        boxes_in(whole) == boxes_in(a) + boxes_in(b) ==> boxes_in(head + whole) == boxes_in(
            head + a,
        ) + boxes_in(b),
{
    lemma_boxes_concat(head, whole);
    lemma_boxes_concat(head, a);
    assert(boxes_in(head) + (boxes_in(a) + boxes_in(b)) =~= boxes_in(head) + boxes_in(a)
        + boxes_in(b));
}

proof fn lemma_cut_outside(page: usize, st: ParserValue, b: Seq<char>)
    requires
        !st.in_tag,
        first_at(st.pending, DET_OPEN@, 0) is None,
    ensures
        ({
            let first = parse(page, st);
            let second = parse(page, first.1.plus(b));
            let whole = parse(page, st.plus(b));
            &&& whole.1 == second.1
            &&& boxes_in(whole.0) == boxes_in(first.0) + boxes_in(second.0)
        }),
{
    let x = st.pending;
    let y = x + b;
    let first = parse(page, st);
    let second = parse(page, first.1.plus(b));
    let whole = parse(page, st.plus(b));
    let n = x.len() - held(x);
    lemma_tags();
    lemma_held_some(x);
    let z = x.skip(n) + b;
    assert(z =~= y.skip(n));
    assert(first.1.plus(b).pending == z);
    lemma_first_at(y, DET_OPEN@, 0);
    lemma_first_at_skip(y, DET_OPEN@, n, 0);
    // No tag begins before `n`, so that searching from there finds the same.
    assert(first_at(y, DET_OPEN@, 0) == first_at(y, DET_OPEN@, n)) by {
        lemma_first_at(y, DET_OPEN@, n);
        match first_at(y, DET_OPEN@, 0) {
            Some(j) => {
                lemma_no_tag_in_given(x, b, j);
                lemma_first_at_is(y, DET_OPEN@, n, j);
            },
            None => {
                lemma_first_at_none(y, DET_OPEN@, n);
            },
        }
    }
    lemma_token(page, st.box_id, without_refs(x.take(n)));
    match first_at(y, DET_OPEN@, 0) {
        Some(j) => {
            lemma_no_tag_in_given(x, b, j);
            let next = ParserValue {
                pending: y.skip(j + DET_OPEN@.len()),
                box_id: st.box_id,
                in_tag: true,
            };
            assert(z.skip(j - n + DET_OPEN@.len()) =~= next.pending);
            let rest = parse(page, next).0;
            let t_whole = token(page, st.box_id, without_refs(y.take(j)));
            let t_second = token(page, st.box_id, without_refs(z.take(j - n)));
            lemma_token(page, st.box_id, without_refs(y.take(j)));
            lemma_token(page, st.box_id, without_refs(z.take(j - n)));
            lemma_boxes_concat(t_whole, rest);
            lemma_boxes_concat(t_second, rest);
            assert(boxes_in(first.0) + boxes_in(second.0) =~= boxes_in(whole.0));
        },
        None => {
            lemma_held_again(x, b);
            lemma_held_some(y);
            lemma_held_some(z);
            let m = y.len() - held(y);
            assert(z.len() - held(z) == m - n);
            assert(m >= n);
            assert(z.skip(m - n) =~= y.skip(m));
            lemma_token(page, st.box_id, without_refs(y.take(m)));
            lemma_token(page, st.box_id, without_refs(z.take(m - n)));
            assert(boxes_in(first.0) + boxes_in(second.0) =~= boxes_in(whole.0));
        },
    }
}

// ---------------------------------------------------------------------------
// The regions that are given out
// ---------------------------------------------------------------------------

/// `e` gives out a region of the page under the given number, with its corners
/// in order and on the scale.
pub open spec fn is_sound_box(e: EventValue, page: usize, id: int) -> bool {
    match e {
        EventValue::Bbox { page_number, box_id, xmin, ymin, xmax, ymax, .. } => {
            &&& page_number == page
            &&& box_id == id
            &&& xmin <= xmax <= SCALE
            &&& ymin <= ymax <= SCALE
        },
        _ => false,
    }
}

/// The regions are numbered in a row from where the numbering was, their
/// corners are in order and on the scale, and the numbering goes on behind the
/// last of them.
pub proof fn boxes_are_numbered_and_on_scale(page: usize, st: ParserValue)
    ensures
        ({
            let boxes = boxes_in(parse(page, st).0);
            &&& forall|n: int|
                0 <= n < boxes.len() ==> is_sound_box(#[trigger] boxes[n], page, st.box_id + n + 1)
            &&& parse(page, st).1.box_id == st.box_id + boxes.len()
        }),
    decreases st.pending.len(),
{
    let p = st.pending;
    let boxes = boxes_in(parse(page, st).0);
    lemma_tags();
    if !st.in_tag {
        lemma_first_at(p, DET_OPEN@, 0);
        match first_at(p, DET_OPEN@, 0) {
            Some(i) => {
                let next = ParserValue {
                    pending: p.skip(i + DET_OPEN@.len()),
                    box_id: st.box_id,
                    in_tag: true,
                };
                boxes_are_numbered_and_on_scale(page, next);
                let head = token(page, st.box_id, without_refs(p.take(i)));
                lemma_token(page, st.box_id, without_refs(p.take(i)));
                lemma_boxes_concat(head, parse(page, next).0);
                assert(boxes =~= boxes_in(parse(page, next).0));
            },
            None => {
                lemma_token(page, st.box_id, without_refs(p.take(p.len() - held(p))));
            },
        }
    } else {
        lemma_first_at(p, DET_CLOSE@, 0);
        match first_at(p, DET_CLOSE@, 0) {
            Some(i) => {
                let region = region_in(p.take(i));
                let id = if region is Some {
                    st.box_id + 1
                } else {
                    st.box_id
                };
                let next = ParserValue {
                    pending: p.skip(i + DET_CLOSE@.len()),
                    box_id: id,
                    in_tag: false,
                };
                boxes_are_numbered_and_on_scale(page, next);
                lemma_bbox(page, id, p.take(i));
                region_is_on_scale(p.take(i));
                let rest = boxes_in(parse(page, next).0);
                lemma_boxes_concat(bbox(page, id, region), parse(page, next).0);
                assert(boxes =~= bbox(page, id, region) + rest);
                assert forall|n: int| 0 <= n < boxes.len() implies is_sound_box(
                    #[trigger] boxes[n],
                    page,
                    st.box_id + n + 1,
                ) by {
                    if region is Some {
                        if n > 0 {
                            assert(boxes[n] == rest[n - 1]);
                        }
                    } else {
                        assert(boxes[n] == rest[n]);
                    }
                }
            },
            None => {
                reveal(Seq::filter);
            },
        }
    }
}

/// A call of the parser.
pub enum ParserCall {
    Feed { chunk: Seq<char>, page: usize },
    Flush { page: usize },
}

/// What a call gives out, and the state after it.
pub open spec fn called(st: ParserValue, call: ParserCall) -> (Seq<EventValue>, ParserValue) {
    match call {
        ParserCall::Feed { chunk, page } => parse(page, st.plus(chunk)),
        ParserCall::Flush { page } => (
            rest_of(page, st),
            ParserValue { pending: seq![], ..st },
        ),
    }
}

/// What a new parser gives out in the given calls, and its state after them.
pub open spec fn called_all(calls: Seq<ParserCall>) -> (Seq<EventValue>, ParserValue)
    decreases calls.len(),
{
    if calls.len() == 0 {
        (seq![], ParserValue::fresh())
    } else {
        let (before, st) = called_all(calls.drop_last());
        let (more, end) = called(st, calls.last());
        (before + more, end)
    }
}

/// The event at place `i` carries the number of the region that it gives out,
/// or else of the last region before it, where the numbering was at `start`.
pub open spec fn is_numbered(events: Seq<EventValue>, start: int, i: int) -> bool {
    let before = start + boxes_in(events.take(i)).len();
    match events[i] {
        EventValue::Bbox { box_id, .. } => box_id == before + 1,
        EventValue::Token { box_id, .. } => box_id == before,
        _ => false,
    }
}

/// All events carry such numbers.
pub open spec fn are_numbered(events: Seq<EventValue>, start: int) -> bool {
    forall|i: int| 0 <= i < events.len() ==> #[trigger] is_numbered(events, start, i)
}

/// Over all calls of a parser, the regions are numbered from 1 without a gap or
/// a repeat, and text carries the number of regions before it.
pub proof fn events_are_numbered(calls: Seq<ParserCall>)
    ensures
        are_numbered(called_all(calls).0, 0),
        called_all(calls).1.box_id == boxes_in(called_all(calls).0).len(),
    decreases calls.len(),
{
    if calls.len() == 0 {
        reveal(Seq::filter);
        assert(boxes_in(Seq::<EventValue>::empty()) =~= seq![]);
    } else {
        events_are_numbered(calls.drop_last());
        let (before, st) = called_all(calls.drop_last());
        let (more, end) = called(st, calls.last());
        match calls.last() {
            ParserCall::Feed { chunk, page } => {
                lemma_parsed_numbered(page, st.plus(chunk));
                boxes_are_numbered_and_on_scale(page, st.plus(chunk));
            },
            ParserCall::Flush { page } => {
                lemma_token_numbered(page, st.box_id, without_refs(st.pending));
                reveal(Seq::filter);
                assert(boxes_in(Seq::<EventValue>::empty()) =~= seq![]);
            },
        }
        lemma_numbered_concat(before, more, 0);
        lemma_boxes_concat(before, more);
    }
}

proof fn lemma_numbered_concat(a: Seq<EventValue>, b: Seq<EventValue>, start: int)
    requires
        are_numbered(a, start),
        are_numbered(b, start + boxes_in(a).len()),
    ensures
        are_numbered(a + b, start),
{
    assert forall|i: int| 0 <= i < (a + b).len() implies #[trigger] is_numbered(
        a + b,
        start,
        i,
    ) by {
        if i < a.len() {
            assert((a + b).take(i) =~= a.take(i));
            assert(is_numbered(a, start, i));
        } else {
            let k = i - a.len();
            assert((a + b).take(i) =~= a + b.take(k));
            lemma_boxes_concat(a, b.take(k));
            assert(is_numbered(b, start + boxes_in(a).len(), k));
        }
    }
}

proof fn lemma_token_numbered(page: usize, id: int, text: Seq<char>)
    ensures
        are_numbered(token(page, id, text), id),
        boxes_in(token(page, id, text)).len() == 0,
{
    lemma_token(page, id, text);
    let events = token(page, id, text);
    reveal(Seq::filter);
    assert forall|i: int| 0 <= i < events.len() implies #[trigger] is_numbered(events, id, i) by {
        assert(events.take(i) =~= seq![]);
        assert(boxes_in(events.take(i)) =~= seq![]);
    }
}

proof fn lemma_parsed_numbered(page: usize, st: ParserValue)
    ensures
        are_numbered(parse(page, st).0, st.box_id),
    decreases st.pending.len(),
{
    let p = st.pending;
    lemma_tags();
    if !st.in_tag {
        lemma_first_at(p, DET_OPEN@, 0);
        match first_at(p, DET_OPEN@, 0) {
            Some(i) => {
                let next = ParserValue {
                    pending: p.skip(i + DET_OPEN@.len()),
                    box_id: st.box_id,
                    in_tag: true,
                };
                let text = without_refs(p.take(i));
                lemma_parsed_numbered(page, next);
                lemma_token_numbered(page, st.box_id, text);
                lemma_numbered_concat(
                    token(page, st.box_id, text),
                    parse(page, next).0,
                    st.box_id,
                );
            },
            None => {
                lemma_token_numbered(page, st.box_id, without_refs(p.take(p.len() - held(p))));
            },
        }
    } else {
        lemma_first_at(p, DET_CLOSE@, 0);
        if let Some(i) = first_at(p, DET_CLOSE@, 0) {
            let region = region_in(p.take(i));
            let id = if region is Some {
                st.box_id + 1
            } else {
                st.box_id
            };
            let next = ParserValue {
                pending: p.skip(i + DET_CLOSE@.len()),
                box_id: id,
                in_tag: false,
            };
            let head = bbox(page, id, region);
            lemma_parsed_numbered(page, next);
            lemma_bbox(page, id, p.take(i));
            assert forall|k: int| 0 <= k < head.len() implies #[trigger] is_numbered(
                head,
                st.box_id,
                k,
            ) by {
                reveal(Seq::filter);
                assert(head.take(k) =~= seq![]);
                assert(boxes_in(head.take(k)) =~= seq![]);
            }
            lemma_numbered_concat(head, parse(page, next).0, st.box_id);
        }
    }
}

/// `events` give out the regions `boxes` of a page, numbered in a row behind
/// `before`.
pub open spec fn are_events_of(
    events: Seq<EventValue>,
    boxes: Seq<BoxValue>,
    page: usize,
    before: int,
) -> bool {
    &&& events.len() == boxes.len()
    &&& forall|n: int|
        0 <= n < boxes.len() ==> #[trigger] events[n] == (EventValue::Bbox {
            page_number: page,
            box_id: before + n + 1,
            label: boxes[n].label,
            xmin: boxes[n].xmin,
            ymin: boxes[n].ymin,
            xmax: boxes[n].xmax,
            ymax: boxes[n].ymax,
        })
}

proof fn lemma_same_boxes(raw: Seq<char>, page: usize, k: int, before: int, i: int)
    requires
        0 <= k <= raw.len(),
        0 <= i <= tag_spans(raw, DET_OPEN@, DET_CLOSE@, 0).len(),
        tag_spans(raw, DET_OPEN@, DET_CLOSE@, k) == tag_spans(
            raw,
            DET_OPEN@,
            DET_CLOSE@,
            0,
        ).skip(i),
    ensures
        are_events_of(
            boxes_in(
                parse(
                    page,
                    ParserValue { pending: raw.skip(k), box_id: before, in_tag: false },
                ).0,
            ),
            boxes_from(raw, tag_spans(raw, DET_OPEN@, DET_CLOSE@, 0), i),
            page,
            before,
        ),
    decreases raw.len() - k,
{
    let all = tag_spans(raw, DET_OPEN@, DET_CLOSE@, 0);
    let st = ParserValue { pending: raw.skip(k), box_id: before, in_tag: false };
    let events = boxes_in(parse(page, st).0);
    lemma_tags();
    lemma_first_at(raw, DET_OPEN@, k);
    lemma_first_at_skip(raw, DET_OPEN@, k, 0);
    match first_at(raw, DET_OPEN@, k) {
        Some(a) => {
            let open_end = a + DET_OPEN@.len();
            let inner = ParserValue { pending: raw.skip(open_end), box_id: before, in_tag: true };
            assert(st.pending.skip(a - k + DET_OPEN@.len()) =~= inner.pending);
            let head = token(page, before, without_refs(st.pending.take(a - k)));
            lemma_token(page, before, without_refs(st.pending.take(a - k)));
            lemma_boxes_concat(head, parse(page, inner).0);
            assert(events =~= boxes_in(parse(page, inner).0));
            lemma_first_at(raw, DET_CLOSE@, open_end);
            lemma_first_at_skip(raw, DET_CLOSE@, open_end, 0);
            match first_at(raw, DET_CLOSE@, open_end) {
                Some(z) => {
                    let end = z + DET_CLOSE@.len();
                    let rest_spans = tag_spans(raw, DET_OPEN@, DET_CLOSE@, end);
                    assert(all.skip(i) == seq![(a, end)] + rest_spans);
                    assert(i < all.len()) by {
                        assert(all.skip(i).len() == all.len() - i);
                    }
                    assert(all.skip(i)[0] == all[i]);
                    assert(all.skip(i + 1) =~= rest_spans) by {
                        assert(all.skip(i + 1) =~= all.skip(i).skip(1));
                    }
                    let inside = inside_of(raw, all[i]);
                    assert(inner.pending.take(z - open_end) =~= inside);
                    let region = region_in(inside);
                    let id = if region is Some {
                        before + 1
                    } else {
                        before
                    };
                    let next = ParserValue { pending: raw.skip(end), box_id: id, in_tag: false };
                    assert(inner.pending.skip(z - open_end + DET_CLOSE@.len()) =~= next.pending);
                    lemma_same_boxes(raw, page, end, id, i + 1);
                    lemma_bbox(page, id, inside);
                    lemma_boxes_concat(bbox(page, id, region), parse(page, next).0);
                    let rest_events = boxes_in(parse(page, next).0);
                    let rest_boxes = boxes_from(raw, all, i + 1);
                    let boxes = boxes_from(raw, all, i);
                    assert(events =~= bbox(page, id, region) + rest_events);
                    assert(boxes =~= box_at(raw, all, i) + rest_boxes);
                    assert forall|n: int| 0 <= n < boxes.len() implies #[trigger] events[n] == (
                    EventValue::Bbox {
                        page_number: page,
                        box_id: before + n + 1,
                        label: boxes[n].label,
                        xmin: boxes[n].xmin,
                        ymin: boxes[n].ymin,
                        xmax: boxes[n].xmax,
                        ymax: boxes[n].ymax,
                    }) by {
                        if region is Some {
                            if n > 0 {
                                assert(events[n] == rest_events[n - 1]);
                                assert(boxes[n] == rest_boxes[n - 1]);
                            }
                        } else {
                            assert(events[n] == rest_events[n]);
                            assert(boxes[n] == rest_boxes[n]);
                        }
                    }
                },
                None => {
                    assert(all.skip(i).len() == all.len() - i);
                    reveal(Seq::filter);
                },
            }
        },
        None => {
            assert(all.skip(i).len() == all.len() - i);
            lemma_token(
                page,
                before,
                without_refs(st.pending.take(st.pending.len() - held(st.pending))),
            );
        },
    }
}

/// Reading a text piece by piece gives out the boxes that are extracted from
/// the whole text, in the same order, numbered from 1.
pub proof fn streamed_boxes_are_the_extracted_boxes(raw: Seq<char>, page: usize)
    ensures
        are_events_of(
            boxes_in(parse(page, ParserValue::fresh().plus(raw)).0),
            extracted(raw),
            page,
            0,
        ),
{
    assert(raw.skip(0) =~= raw);
    assert(ParserValue::fresh().plus(raw) =~= (ParserValue {
        pending: raw,
        box_id: 0,
        in_tag: false,
    }));
    let all = tag_spans(raw, DET_OPEN@, DET_CLOSE@, 0);
    assert(all.skip(0) =~= all);
    lemma_same_boxes(raw, page, 0, 0, 0);
}

} // verus!
