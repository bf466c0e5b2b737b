//! Reading the markup of the model piece by piece, as it comes in.

use vstd::prelude::*;

use crate::markup::{
    drop_refs, read_region, region_in, region_is_on_scale, without_refs, RegionValue, SCALE,
};
use crate::models::{events_of, EventValue, OcrStreamEvent};
use crate::patterns::{NumberPattern, DET_CLOSE, DET_OPEN, REF_CLOSE, REF_OPEN};
use crate::text::{begins, chars_of, find_from, first_at, lemma_first_at, stands_at, string_of};

verus! {

broadcast use vstd::seq::group_seq_axioms;

/// Reads text with detection tags in pieces, and gives out the regions and the
/// text between them as soon as they are known.
pub struct StreamingGroundingParser {
    buffer: String,
    current_box_id: usize,
    in_det_tag: bool,
    num_regex: NumberPattern,
}

/// The state of a `StreamingGroundingParser`.
#[verifier::ext_equal]
pub struct ParserValue {
    /// Text that has come in and was not given out yet.
    pub pending: Seq<char>,
    /// The number of regions so far.
    pub box_id: int,
    /// The pending text is inside a detection tag.
    pub in_tag: bool,
}

impl View for StreamingGroundingParser {
    type V = ParserValue;

    closed spec fn view(&self) -> ParserValue {
        ParserValue {
            pending: self.buffer@,
            box_id: self.current_box_id as int,
            in_tag: self.in_det_tag,
        }
    }
}

impl ParserValue {
    /// Before anything has come in.
    pub open spec fn fresh() -> Self {
        ParserValue { pending: seq![], box_id: 0, in_tag: false }
    }

    /// After more text has come in.
    pub open spec fn plus(self, chunk: Seq<char>) -> Self {
        ParserValue { pending: self.pending + chunk, ..self }
    }
}

/// The event that gives out text; none for no text.
pub open spec fn token(page_number: usize, box_id: int, text: Seq<char>) -> Seq<EventValue> {
    if text.len() == 0 {
        seq![]
    } else {
        seq![EventValue::Token { page_number, box_id, text }]
    }
}

/// The event that gives out a region; none for no region.
pub open spec fn bbox(page_number: usize, box_id: int, region: Option<RegionValue>) -> Seq<
    EventValue,
> {
    match region {
        Some(r) => seq![
            EventValue::Bbox {
                page_number,
                box_id,
                label: r.label,
                xmin: r.xmin,
                ymin: r.ymin,
                xmax: r.xmax,
                ymax: r.ymax,
            },
        ],
        None => seq![],
    }
}

/// `s` is the beginning of `tag`, but not all of it.
pub open spec fn is_start_of(s: Seq<char>, tag: Seq<char>) -> bool {
    0 < s.len() < tag.len() && begins(tag, s)
}

/// `s` may become a tag when more text comes in.
pub open spec fn may_become_tag(s: Seq<char>) -> bool {
    is_start_of(s, DET_OPEN@) || is_start_of(s, REF_OPEN@) || is_start_of(s, REF_CLOSE@)
}

/// The length of the longest end of `s`, of `n` characters at most, that may
/// become a tag.
pub open spec fn held_from(s: Seq<char>, n: int) -> int
    decreases n,
{
    if n < 1 {
        0
    } else if n <= s.len() && may_become_tag(s.skip(s.len() - n)) {
        n
    } else {
        held_from(s, n - 1)
    }
}

/// The length of the longest end of `s` that may become a tag.
pub open spec fn held(s: Seq<char>) -> int {
    held_from(s, REF_CLOSE@.len() - 1)
}

/// What is given out of the pending text, and the state after that.
///
/// Outside a tag, the text before the next opening tag is given out; where
/// there is none, all text is but the end that may become a tag.
/// Inside a tag, the region is given out once the closing tag has come in.
pub open spec fn parse(page: usize, st: ParserValue) -> (Seq<EventValue>, ParserValue)
    decreases st.pending.len(),
{
    let p = st.pending;
    if !st.in_tag {
        match first_at(p, DET_OPEN@, 0) {
            Some(i) => {
                proof {
                    lemma_tags();
                    lemma_first_at(p, DET_OPEN@, 0);
                }
                let (rest, end) = parse(
                    page,
                    ParserValue {
                        pending: p.skip(i + DET_OPEN@.len()),
                        box_id: st.box_id,
                        in_tag: true,
                    },
                );
                (token(page, st.box_id, without_refs(p.take(i))) + rest, end)
            },
            None => {
                let n = p.len() - held(p);
                (
                    token(page, st.box_id, without_refs(p.take(n))),
                    ParserValue { pending: p.skip(n), ..st },
                )
            },
        }
    } else {
        match first_at(p, DET_CLOSE@, 0) {
            Some(i) => {
                proof {
                    lemma_tags();
                    lemma_first_at(p, DET_CLOSE@, 0);
                }
                let region = region_in(p.take(i));
                let id = if region is Some {
                    st.box_id + 1
                } else {
                    st.box_id
                };
                let (rest, end) = parse(
                    page,
                    ParserValue {
                        pending: p.skip(i + DET_CLOSE@.len()),
                        box_id: id,
                        in_tag: false,
                    },
                );
                (bbox(page, id, region) + rest, end)
            },
            None => (seq![], st),
        }
    }
}

/// What is given out at the end of the text.
pub open spec fn rest_of(page: usize, st: ParserValue) -> Seq<EventValue> {
    if st.in_tag {
        seq![]
    } else {
        token(page, st.box_id, without_refs(st.pending))
    }
}

/// `e` gives out a region of the page, with a label and with its corners in
/// order and on the scale, or text of the page.
pub open spec fn is_sound_event(e: EventValue, page: usize) -> bool {
    match e {
        EventValue::Bbox { page_number, label, xmin, ymin, xmax, ymax, .. } => {
            &&& page_number == page
            &&& label.len() > 0
            &&& xmin <= xmax <= SCALE
            &&& ymin <= ymax <= SCALE
        },
        EventValue::Token { page_number, text, .. } => page_number == page && text.len() > 0,
        _ => false,
    }
}

/// Each of the events gives out a region or text of the page.
pub open spec fn are_sound_events(events: Seq<EventValue>, page: usize) -> bool {
    forall|i: int| 0 <= i < events.len() ==> is_sound_event(#[trigger] events[i], page)
}

pub proof fn lemma_tags()
    ensures
        DET_OPEN@ =~= seq!['<', '|', 'd', 'e', 't', '|', '>'],
        DET_CLOSE@ =~= seq!['<', '|', '/', 'd', 'e', 't', '|', '>'],
{
    reveal_strlit("<|det|>");
    reveal_strlit("<|/det|>");
}

pub proof fn lemma_ref_tags()
    ensures
        REF_OPEN@ =~= seq!['<', '|', 'r', 'e', 'f', '|', '>'],
        REF_CLOSE@ =~= seq!['<', '|', '/', 'r', 'e', 'f', '|', '>'],
{
    reveal_strlit("<|ref|>");
    reveal_strlit("<|/ref|>");
}

proof fn lemma_held(s: Seq<char>, n: int)
    ensures
        0 <= held_from(s, n) <= s.len(),
    decreases n,
{
    if n >= 1 {
        lemma_held(s, n - 1);
    }
}

fn starts_tag(start: &Vec<char>, tag: &str) -> (r: bool)
    ensures
        r == is_start_of(start@, tag@),
{
    let chars = chars_of(tag);
    start.len() > 0 && start.len() < chars.len() && stands_at(&chars, start, 0)
}

fn held_back(chars: &Vec<char>) -> (r: usize)
    ensures
        r == held(chars@),
        r <= chars@.len(),
{
    let mut n: usize = 7;
    proof {
        lemma_ref_tags();
        lemma_held(chars@, 7);
    }
    while n > 0
        invariant
            n <= 7,
            held(chars@) == held_from(chars@, n as int),
            0 <= held(chars@) <= chars@.len(),
        decreases n,
    {
        if n <= chars.len() {
            let end = chars_of(&string_of(chars, chars.len() - n, chars.len()));
            proof {
                assert(end@ =~= chars@.skip(chars@.len() - n));
            }
            if starts_tag(&end, DET_OPEN) || starts_tag(&end, REF_OPEN) || starts_tag(
                &end,
                REF_CLOSE,
            ) {
                return n;
            }
        }
        n -= 1;
    }
    0
}

fn push_token(events: &mut Vec<OcrStreamEvent>, page_number: usize, box_id: usize, text: String)
    ensures
        events_of(final(events)@) == events_of(old(events)@) + token(
            page_number,
            box_id as int,
            text@,
        ),
        are_sound_events(events_of(old(events)@), page_number) ==> are_sound_events(
            events_of(final(events)@),
            page_number,
        ),
{
    if text.as_str().is_empty() {
        proof {
            assert(events_of(events@) + seq![] =~= events_of(events@));
        }
    } else {
        let ghost before = events@;
        events.push(OcrStreamEvent::Token { page_number, box_id, text });
        proof {
            assert(events_of(events@) =~= events_of(before).push(events@.last()@));
        }
    }
}

impl StreamingGroundingParser {
    /// A parser to which nothing has come in yet.
    pub fn new() -> (r: Self)
        ensures
            r@ == ParserValue::fresh(),
    {
        let r = StreamingGroundingParser {
            buffer: String::new(),
            current_box_id: 0,
            in_det_tag: false,
            num_regex: NumberPattern::new().unwrap(),
        };
        proof {
            assert(r@ =~= ParserValue::fresh());
        }
        r
    }

    /// Whether a piece of text can be taken: the regions in it can be numbered.
    pub fn has_room(&self, chunk: &str) -> (r: bool)
        ensures
            r == (self@.box_id + self@.pending.len() + chunk@.len() <= usize::MAX),
    {
        let held: usize = chars_of(&self.buffer).len();
        let coming: usize = chars_of(chunk).len();
        match held.checked_add(coming) {
            Some(n) => self.current_box_id <= usize::MAX - n,
            None => false,
        }
    }

    /// Takes the next piece of text, and gives out what is known with it.
    pub fn feed(&mut self, chunk: &str, page_number: usize) -> (r: Vec<OcrStreamEvent>)
        requires
            old(self)@.box_id + old(self)@.pending.len() + chunk@.len() <= usize::MAX,
        ensures
            events_of(r@) == parse(page_number, old(self)@.plus(chunk@)).0,
            final(self)@ == parse(page_number, old(self)@.plus(chunk@)).1,
            are_sound_events(events_of(r@), page_number),
    {
        self.buffer.append(chunk);
        let mut events: Vec<OcrStreamEvent> = Vec::new();
        let ghost whole = parse(page_number, old(self)@.plus(chunk@));
        proof {
            assert(self@ =~= old(self)@.plus(chunk@));
            assert(events_of(events@) + whole.0 =~= whole.0);
        }
        loop
            invariant_except_break
                self@.box_id + self@.pending.len() <= usize::MAX,
                events_of(events@) + parse(page_number, self@).0 == whole.0,
                parse(page_number, self@).1 == whole.1,
                are_sound_events(events_of(events@), page_number),
            ensures
                are_sound_events(events_of(events@), page_number),
                events_of(events@) == whole.0,
                self@ == whole.1,
            decreases self@.pending.len(),
        {
            let ghost st = self@;
            let ghost before = events_of(events@);
            let chars = chars_of(&self.buffer);
            proof {
                lemma_tags();
            }
            if !self.in_det_tag {
                proof {
                    lemma_first_at(st.pending, DET_OPEN@, 0);
                }
                match find_from(&chars, &chars_of(DET_OPEN), 0) {
                    Some(i) => {
                        let text = drop_refs(&string_of(&chars, 0, i));
                        proof {
                            assert(chars@.subrange(0, i as int) =~= st.pending.take(i as int));
                        }
                        push_token(&mut events, page_number, self.current_box_id, text);
                        self.buffer = string_of(&chars, i + 7, chars.len());
                        self.in_det_tag = true;
                        proof {
                            assert(self@ =~= (ParserValue {
                                pending: st.pending.skip(i + 7),
                                box_id: st.box_id,
                                in_tag: true,
                            }));
                            assert(before + (token(page_number, st.box_id, text@) + parse(
                                page_number,
                                self@,
                            ).0) =~= events_of(events@) + parse(page_number, self@).0);
                        }
                    },
                    None => {
                        let keep = held_back(&chars);
                        let n: usize = chars.len() - keep;
                        let text = drop_refs(&string_of(&chars, 0, n));
                        proof {
                            assert(chars@.subrange(0, n as int) =~= st.pending.take(n as int));
                        }
                        push_token(&mut events, page_number, self.current_box_id, text);
                        self.buffer = string_of(&chars, n, chars.len());
                        proof {
                            assert(self@ =~= (ParserValue {
                                pending: st.pending.skip(n as int),
                                ..st
                            }));
                        }
                        break;
                    },
                }
            } else {
                proof {
                    lemma_first_at(st.pending, DET_CLOSE@, 0);
                }
                match find_from(&chars, &chars_of(DET_CLOSE), 0) {
                    Some(i) => {
                        let inside = string_of(&chars, 0, i);
                        proof {
                            assert(inside@ =~= st.pending.take(i as int));
                        }
                        let found = read_region(&self.num_regex, &inside);
                        let ghost region = region_in(inside@);
                        if let Some(region) = found {
                            self.current_box_id = self.current_box_id + 1;
                            events.push(
                                OcrStreamEvent::Bbox {
                                    page_number,
                                    box_id: self.current_box_id,
                                    label: region.label,
                                    xmin: region.xmin,
                                    ymin: region.ymin,
                                    xmax: region.xmax,
                                    ymax: region.ymax,
                                },
                            );
                        }
                        self.buffer = string_of(&chars, i + 8, chars.len());
                        self.in_det_tag = false;
                        proof {
                            let id = self@.box_id;
                            assert(self@ =~= (ParserValue {
                                pending: st.pending.skip(i + 8),
                                box_id: id,
                                in_tag: false,
                            }));
                            assert(events_of(events@) =~= before + bbox(page_number, id, region));
                            region_is_on_scale(inside@);
                            assert(are_sound_events(events_of(events@), page_number)) by {
                                if let Some(r) = region {
                                    assert(is_sound_event(
                                        bbox(page_number, id, region)[0],
                                        page_number,
                                    ));
                                }
                            }
                            assert(before + (bbox(page_number, id, region) + parse(
                                page_number,
                                self@,
                            ).0) =~= events_of(events@) + parse(page_number, self@).0);
                        }
                    },
                    None => {
                        proof {
                            assert(events_of(events@) + seq![] =~= events_of(events@));
                        }
                        break;
                    },
                }
            }
        }
        events
    }

    /// Ends the text: gives out what is pending, but nothing of a tag that was
    /// not closed.
    pub fn flush(&mut self, page_number: usize) -> (r: Vec<OcrStreamEvent>)
        ensures
            events_of(r@) == rest_of(page_number, old(self)@),
            are_sound_events(events_of(r@), page_number),
            final(self)@ == (ParserValue { pending: seq![], ..old(self)@ }),
    {
        let mut events: Vec<OcrStreamEvent> = Vec::new();
        if !self.in_det_tag {
            let text = drop_refs(&self.buffer);
            push_token(&mut events, page_number, self.current_box_id, text);
        }
        self.buffer = String::new();
        proof {
            assert(events_of(events@) =~= rest_of(page_number, old(self)@));
            assert(self@ =~= (ParserValue { pending: seq![], ..old(self)@ }));
        }
        events
    }
}

} // verus!
