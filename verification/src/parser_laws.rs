//! What a streaming parser gives out of the text that is pending.

use vstd::prelude::*;

use crate::grounding::{
    bbox, held_from, lemma_ref_tags, lemma_tags, may_become_tag, parse, rest_of, token, ParserValue,
};
use crate::markup::{region_in, without_refs};
use crate::markup_laws::{lemma_are_tags, lemma_first_tag, reference_tags_are_dropped};
use crate::models::EventValue;
use crate::patterns::{DET_CLOSE, DET_OPEN, REF_CLOSE, REF_OPEN};
use crate::text::{begins, first_at, lemma_first_at, lemma_first_at_none, occurs_at};
use crate::text_laws::{is_free_of, lemma_free};

verus! {

broadcast use vstd::seq::group_seq_axioms;

/// What is held back is the beginning of an opening tag or of a closing
/// reference tag, and never all of it.
pub proof fn only_beginnings_of_tags_are_held_back(s: Seq<char>, rest: Seq<char>)
    requires
        s.len() > 0,
        rest.len() > 0,
    ensures
        s + rest == "<|det|>"@ || s + rest == "<|ref|>"@ || s + rest == "<|/ref|>"@
            ==> may_become_tag(s),
        may_become_tag(s) ==> {
            ||| s.len() < 7 && s == "<|det|>"@.take(s.len() as int)
            ||| s.len() < 7 && s == "<|ref|>"@.take(s.len() as int)
            ||| s.len() < 8 && s == "<|/ref|>"@.take(s.len() as int)
        },
{
    lemma_tags();
    lemma_ref_tags();
    let n = s.len() as int;
    if s + rest == DET_OPEN@ || s + rest == REF_OPEN@ || s + rest == REF_CLOSE@ {
        assert((s + rest).subrange(0, n) =~= s);
    }
    if begins(DET_OPEN@, s) {
        assert(DET_OPEN@.subrange(0, n) =~= DET_OPEN@.take(n));
    }
    if begins(REF_OPEN@, s) {
        assert(REF_OPEN@.subrange(0, n) =~= REF_OPEN@.take(n));
    }
    if begins(REF_CLOSE@, s) {
        assert(REF_CLOSE@.subrange(0, n) =~= REF_CLOSE@.take(n));
    }
}

proof fn lemma_nothing_held(p: Seq<char>, n: int)
    requires
        !p.contains('<'),
        0 <= n,
    ensures
        held_from(p, n) == 0,
    decreases n,
{
    if n >= 1 {
        lemma_nothing_held(p, n - 1);
        if n <= p.len() && may_become_tag(p.skip(p.len() - n)) {
            let t = p.skip(p.len() - n);
            only_beginnings_of_tags_are_held_back(t, seq!['<']);
            lemma_tags();
            lemma_ref_tags();
            assert(t[0] == p[p.len() - n]);
            assert(p.contains(t[0]));
            assert(t[0] == '<');
        }
    }
}

/// Text without `<` is given out as it is, in one event, with nothing left
/// pending.
pub proof fn plain_text_is_given_out_at_once(page: usize, id: int, text: Seq<char>)
    requires
        !text.contains('<'),
    ensures
        ({
            let (events, end) = parse(
                page,
                ParserValue { pending: text, box_id: id, in_tag: false },
            );
            &&& end.pending.len() == 0
            &&& end.box_id == id
            &&& !end.in_tag
            &&& text.len() == 0 ==> events.len() == 0
            &&& text.len() > 0 ==> events.len() == 1 && events[0] == (EventValue::Token {
                page_number: page,
                box_id: id,
                text,
            })
        }),
{
    lemma_tags();
    lemma_ref_tags();
    assert forall|tag: Seq<char>, k: int| tag.len() > 0 && tag[0] == '<' implies !#[trigger]
        occurs_at(text, tag, k) by {
        if occurs_at(text, tag, k) {
            assert(text.subrange(k, k + tag.len())[0] == text[k]);
            assert(text.contains(text[k]));
        }
    }
    lemma_first_at_none(text, DET_OPEN@, 0);
    lemma_nothing_held(text, REF_CLOSE@.len() - 1);
    lemma_is_free(text, REF_OPEN@);
    lemma_is_free(text, REF_CLOSE@);
    reference_tags_are_dropped(text, seq![]);
    assert(text.take(text.len() as int) =~= text);
    assert(text.skip(text.len() as int) =~= seq![]);
}

proof fn lemma_is_free(text: Seq<char>, tag: Seq<char>)
    requires
        !text.contains('<'),
        tag.len() > 0,
        tag[0] == '<',
    ensures
        is_free_of(text, tag),
{
    assert forall|j: int| 0 <= j && j + tag.len() <= text.len() implies #[trigger] text.subrange(
        j,
        j + tag.len(),
    ) != tag by {
        assert(text.subrange(j, j + tag.len())[0] == text[j]);
        assert(text.contains(text[j]));
    }
}

/// Where a detection tag opens, the text before it is given out without
/// reference tags, and the parser goes on inside the tag.
pub proof fn text_before_a_tag_is_given_out(
    page: usize,
    id: int,
    before: Seq<char>,
    rest: Seq<char>,
)
    requires
        is_free_of(before, "<|det|>"@),
    ensures
        ({
            let (events, end) = parse(
                page,
                ParserValue { pending: before + "<|det|>"@ + rest, box_id: id, in_tag: false },
            );
            let (more, last) = parse(
                page,
                ParserValue { pending: rest, box_id: id, in_tag: true },
            );
            &&& end == last
            &&& without_refs(before).len() == 0 ==> events == more
            &&& without_refs(before).len() > 0 ==> events == seq![
                EventValue::Token { page_number: page, box_id: id, text: without_refs(before) },
            ] + more
        }),
{
    lemma_are_tags();
    lemma_tags();
    lemma_first_tag(before, DET_OPEN@, rest);
    let p = before + DET_OPEN@ + rest;
    assert(p.take(before.len() as int) =~= before);
    assert(p.skip(before.len() as int + DET_OPEN@.len()) =~= rest);
    let more = parse(page, ParserValue { pending: rest, box_id: id, in_tag: true }).0;
    assert(Seq::<EventValue>::empty() + more =~= more);
}

/// Where a detection tag closes, its region is given out under the next number,
/// and the parser goes on behind it; without a region nothing is given out and
/// the number stays.
pub proof fn region_is_given_out_when_its_tag_closes(
    page: usize,
    id: int,
    inside: Seq<char>,
    rest: Seq<char>,
)
    requires
        is_free_of(inside, "<|/det|>"@),
    ensures
        ({
            let (events, end) = parse(
                page,
                ParserValue { pending: inside + "<|/det|>"@ + rest, box_id: id, in_tag: true },
            );
            match region_in(inside) {
                Some(r) => {
                    let (more, last) = parse(
                        page,
                        ParserValue { pending: rest, box_id: id + 1, in_tag: false },
                    );
                    &&& end == last
                    &&& events == seq![
                        EventValue::Bbox {
                            page_number: page,
                            box_id: id + 1,
                            label: r.label,
                            xmin: r.xmin,
                            ymin: r.ymin,
                            xmax: r.xmax,
                            ymax: r.ymax,
                        },
                    ] + more
                },
                None => (events, end) == parse(
                    page,
                    ParserValue { pending: rest, box_id: id, in_tag: false },
                ),
            }
        }),
{
    lemma_are_tags();
    lemma_tags();
    lemma_first_tag(inside, DET_CLOSE@, rest);
    let p = inside + DET_CLOSE@ + rest;
    assert(p.take(inside.len() as int) =~= inside);
    assert(p.skip(inside.len() as int + DET_CLOSE@.len()) =~= rest);
    let more = parse(page, ParserValue { pending: rest, box_id: id, in_tag: false }).0;
    assert(Seq::<EventValue>::empty() + more =~= more);
}

/// As long as a detection tag does not close, all of it stays pending; and at
/// the end of the text it is dropped, while text outside a tag is given out.
pub proof fn open_tags_wait_for_their_end(page: usize, id: int, p: Seq<char>)
    ensures
        is_free_of(p, "<|/det|>"@) ==> parse(
            page,
            ParserValue { pending: p, box_id: id, in_tag: true },
        ) == (
            Seq::<EventValue>::empty(),
            ParserValue { pending: p, box_id: id, in_tag: true },
        ),
        rest_of(page, ParserValue { pending: p, box_id: id, in_tag: true }).len() == 0,
        ({
            let rest = rest_of(page, ParserValue { pending: p, box_id: id, in_tag: false });
            if without_refs(p).len() == 0 {
                rest.len() == 0
            } else {
                rest.len() == 1 && rest[0] == (EventValue::Token {
                    page_number: page,
                    box_id: id,
                    text: without_refs(p),
                })
            }
        }),
{
    if is_free_of(p, DET_CLOSE@) {
        lemma_free(p, DET_CLOSE@);
        lemma_first_at_none(p, DET_CLOSE@, 0);
    }
}

/// An event gives out text or a region of the given page.
pub open spec fn is_of_page(e: EventValue, page: usize) -> bool {
    ||| e is Token && e->Token_page_number == page
    ||| e is Bbox && e->Bbox_page_number == page
}

/// All that is given out is text or a region of the page that the parser is
/// on.
pub proof fn events_are_of_the_page(page: usize, st: ParserValue)
    ensures
        forall|i: int|
            0 <= i < parse(page, st).0.len() ==> is_of_page(#[trigger] parse(page, st).0[i], page),
    decreases st.pending.len(),
{
    lemma_tags();
    let p = st.pending;
    let events = parse(page, st).0;
    if !st.in_tag {
        lemma_first_at(p, DET_OPEN@, 0);
        if let Some(i) = first_at(p, DET_OPEN@, 0) {
            let next = ParserValue {
                pending: p.skip(i + DET_OPEN@.len()),
                box_id: st.box_id,
                in_tag: true,
            };
            events_are_of_the_page(page, next);
            let head = token(page, st.box_id, without_refs(p.take(i)));
            let rest = parse(page, next).0;
            assert(events == head + rest);
            assert forall|k: int| 0 <= k < events.len() implies is_of_page(
                #[trigger] events[k],
                page,
            ) by {
                if k >= head.len() {
                    assert(events[k] == rest[k - head.len()]);
                }
            }
        }
    } else {
        lemma_first_at(p, DET_CLOSE@, 0);
        if let Some(i) = first_at(p, DET_CLOSE@, 0) {
            let region = region_in(p.take(i));
            let id = if region is Some {
                st.box_id + 1
            } else {
                st.box_id
            };
            let next = ParserValue {
                pending: p.skip(i + DET_CLOSE@.len()),
                box_id: id,
                in_tag: false,
            };
            events_are_of_the_page(page, next);
            let head = bbox(page, id, region);
            let rest = parse(page, next).0;
            assert(events == head + rest);
            assert forall|k: int| 0 <= k < events.len() implies is_of_page(
                #[trigger] events[k],
                page,
            ) by {
                if k >= head.len() {
                    assert(events[k] == rest[k - head.len()]);
                }
            }
        }
    }
}

} // verus!
