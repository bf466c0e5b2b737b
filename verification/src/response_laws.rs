//! What holds of the batches of a document, of its response, and of what is
//! sent while it is read.

use vstd::prelude::*;

use crate::batches::{
    all_boxes, all_pages, all_texts, batch_size_for, batched, batches_for, batches_of,
    concurrency_for, lemma_batches, outcomes_of, page_boxes, page_uris, pages_in, pdf_response_of,
    BatchOutcome, BatchPlan, OutcomeValue,
};
use crate::encoding::data_uri_of;
use crate::errors::GatewayError;
use crate::grounding::{parse, rest_of, ParserValue};
use crate::markup::Region;
use crate::models::{
    events_of, BoundingBox, BoxValue, ErrorResponse, EventValue, OcrStreamEvent, PageResult,
    PageValue, PartValue, ProcessResponse, VllmChatRequest, VllmContentPart,
};
use crate::processor::{extracted, image_response_of, sanitized, Document, PdfJob};
use crate::stream::{
    farewell, goes_on, page_starts, refusal_text, starts_with_events, step, InputValue, Phase,
    Source, StreamInput, StreamStart, StreamValue,
};
use crate::stream_laws::text_in;
use crate::text::{decimal, joined};

verus! {

broadcast use vstd::seq::group_seq_axioms;

// ---------------------------------------------------------------------------
// Messages and their values
// ---------------------------------------------------------------------------

/// The value of a region or a page holds what its fields hold.
pub proof fn values_hold_the_fields(b: BoundingBox, p: PageResult, k: int)
    ensures
        b@.label == b.label@,
        b@.xmin == b.xmin && b@.ymin == b.ymin,
        b@.xmax == b.xmax && b@.ymax == b.ymax,
        b@.text == b.text@,
        p@.page_number == p.page_number,
        p.image_data_uri matches Some(uri) ==> p@.image_data_uri == Some(uri@),
        p.image_data_uri is None ==> p@.image_data_uri is None,
        p@.markdown == p.markdown@,
        p@.raw_text == p.raw_text@,
        p@.bboxes.len() == p.bboxes@.len(),
        0 <= k < p.bboxes@.len() ==> p@.bboxes[k] == p.bboxes@[k]@,
{
}

/// The value of a response holds what its fields hold.
pub proof fn response_value_holds_the_fields(r: ProcessResponse, k: int)
    ensures
        r@.markdown == r.markdown@,
        r@.total_pages == r.total_pages,
        r@.batches_processed == r.batches_processed,
        r@.latency_ms == r.latency_ms,
        r@.document_type == r.document_type@,
        r@.pages.len() == r.pages@.len(),
        0 <= k < r.pages@.len() ==> r@.pages[k] == r.pages@[k]@,
        r@.bboxes.len() == r.bboxes@.len(),
        0 <= k < r.bboxes@.len() ==> r@.bboxes[k] == r.bboxes@[k]@,
{
}

/// The value of a prompt holds what its fields hold.
pub proof fn prompt_value_holds_the_fields(r: VllmChatRequest, k: int, i: int)
    requires
        0 <= k < r.messages@.len(),
        0 <= i < r.messages@[k].content@.len(),
    ensures
        r@.model == r.model@,
        r@.max_tokens == r.max_tokens,
        r@.stream == r.stream,
        r@.skip_special_tokens == r.skip_special_tokens,
        r@.ngram_size == r.vllm_xargs.ngram_size,
        r@.window_size == r.vllm_xargs.window_size,
        r@.messages.len() == r.messages@.len(),
        r@.messages[k].role == r.messages@[k].role@,
        r@.messages[k].content.len() == r.messages@[k].content@.len(),
        r.messages@[k].content@[i] matches VllmContentPart::Text { text }
            ==> r@.messages[k].content[i] == PartValue::Text(text@),
        r.messages@[k].content@[i] matches VllmContentPart::ImageUrl { image_url }
            ==> r@.messages[k].content[i] == PartValue::Image(image_url.url@),
{
}

/// The value of an event holds what its fields hold.
pub proof fn event_value_holds_the_fields(e: OcrStreamEvent)
    ensures
        match e {
            OcrStreamEvent::PageStart { page_number: n, total_pages: t, image_data_uri: u } => {
                &&& e@ is PageStart
                &&& e@->PageStart_page_number == n
                &&& e@->PageStart_total_pages == t
                &&& u is None ==> e@->image_data_uri is None
                &&& u is Some ==> e@->image_data_uri == Some(u->0@)
            },
            OcrStreamEvent::Bbox { page_number: n, box_id, label, xmin, ymin, xmax, ymax } => {
                &&& e@ is Bbox
                &&& e@->Bbox_page_number == n
                &&& e@->Bbox_box_id == box_id
                &&& e@->label == label@
                &&& e@->xmin == xmin && e@->ymin == ymin
                &&& e@->xmax == xmax && e@->ymax == ymax
            },
            OcrStreamEvent::Token { page_number: n, box_id, text } => {
                &&& e@ is Token
                &&& e@->Token_page_number == n
                &&& e@->Token_box_id == box_id
                &&& e@->text == text@
            },
            OcrStreamEvent::PageDone { page_number: n, markdown } => {
                &&& e@ is PageDone
                &&& e@->PageDone_page_number == n
                &&& e@->markdown == markdown@
            },
            OcrStreamEvent::Done { status, total_pages: t, latency_ms } => {
                &&& e@ is Done
                &&& e@->status == status@
                &&& e@->Done_total_pages == t
                &&& e@->latency_ms == latency_ms
            },
            OcrStreamEvent::Error { error } => e@ is Error && e@->error == error@,
        },
{
}

/// The values of events are those of each of them, in order.
pub proof fn event_values_are_listed_in_order(list: Seq<OcrStreamEvent>, k: int)
    requires
        0 <= k < list.len(),
    ensures
        events_of(list).len() == list.len(),
        events_of(list)[k] == list[k]@,
{
}

/// The value of a region and that of a refusal hold what their fields hold.
pub proof fn other_values_hold_the_fields(region: Region, reply: ErrorResponse)
    ensures
        region@.label == region.label@,
        region@.xmin == region.xmin && region@.ymin == region.ymin,
        region@.xmax == region.xmax && region@.ymax == region.ymax,
        reply@.error == reply.error@,
        reply.details is None ==> reply@.details is None,
        reply.details is Some ==> reply@.details == Some(reply.details->0@),
{
}

/// The value of what happens to a prompt holds all the text that came in, or
/// all that is known of what went wrong.
pub proof fn input_values_hold_the_text(input: StreamInput)
    ensures
        input matches StreamInput::Text(t) ==> input@ == InputValue::Text(t@),
        input matches StreamInput::Broken(t) ==> input@ == InputValue::Broken(t@),
        input matches StreamInput::Unanswered(e) ==> input@ == InputValue::Unanswered(
            e.full_text(),
        ),
        input is End <==> input@ is End,
{
}

// ---------------------------------------------------------------------------
// The plan
// ---------------------------------------------------------------------------

/// The request says how many pages a prompt holds, the default where it does
/// not: a number from 1 to 10 as it is, 1 for 0, and 10 for every greater one.
pub proof fn batch_size_is_what_is_asked_for(n: usize, default: usize)
    ensures
        1 <= n <= 10 ==> batch_size_for(Some(n), default) == n && batch_size_for(None, n) == n,
        n == 0 ==> batch_size_for(Some(n), default) == 1 && batch_size_for(None, n) == 1,
        n > 10 ==> batch_size_for(Some(n), default) == 10 && batch_size_for(None, n) == 10,
{
}

/// The batches are as few as can hold all pages.
pub proof fn batches_are_as_few_as_can_be(total: int, size: int, n: int)
    requires
        0 <= total,
        0 < size,
    ensures
        n * size >= total && n >= 0 ==> batches_for(total, size) <= n,
        batches_for(total, size) * size >= total,
{
    lemma_batches(total, size);
    let b = batches_for(total, size);
    if n * size >= total && n >= 0 && total > 0 {
        assert(b <= n) by (nonlinear_arith)
            requires
                (b - 1) * size < total,
                n * size >= total,
                0 < size,
        ;
    }
}

/// The request says how many prompts are in flight: one where it does not, or
/// where one prompt holds all pages; else a number from 1 to 8 as it is where
/// there are as many batches, 1 for 0, and otherwise the lesser of 8 and the
/// number of batches.
pub proof fn concurrency_is_what_is_asked_for(total: int, size: int, n: usize)
    requires
        0 < size,
        0 < total,
    ensures
        concurrency_for(total, size, None) == 1,
        size >= total ==> concurrency_for(total, size, Some(n)) == 1,
        size < total && 1 <= n <= 8 && n <= batches_for(total, size) ==> concurrency_for(
            total,
            size,
            Some(n),
        ) == n,
        concurrency_for(total, size, Some(0)) == 1,
        size < total && n >= 8 && batches_for(total, size) >= 8 ==> concurrency_for(
            total,
            size,
            Some(n),
        ) == 8,
        size < total && n >= batches_for(total, size) && batches_for(total, size) <= 8
            ==> concurrency_for(total, size, Some(n)) == batches_for(total, size),
{
    lemma_batches(total, size);
    assert(batches_for(total, size) >= 1) by (nonlinear_arith)
        requires
            batches_for(total, size) * size >= total,
            0 < total,
            0 < size,
    ;
}

/// A plan is for all pages, with the batch size, the number of batches and the
/// concurrency that belong together.
pub proof fn plans_belong_together(
    plan: BatchPlan,
    total: int,
    default: usize,
    size: Option<usize>,
    concurrency: Option<usize>,
)
    requires
        plan.fits(total, default, size, concurrency),
        0 < total,
    ensures
        plan.total_pages == total,
        1 <= plan.batch_size <= 10,
        plan.batch_size == batch_size_for(size, default),
        plan.num_batches * plan.batch_size >= total,
        (plan.num_batches - 1) * plan.batch_size < total,
        plan.concurrency == concurrency_for(total, plan.batch_size as int, concurrency),
{
    lemma_batches(total, plan.batch_size as int);
}

/// Every batch but the last is full and the last holds the rest. The first page
/// of a batch follows the last page of the one before, and its images are those
/// of its pages.
pub proof fn batches_are_full_but_for_the_last(uris: Seq<Seq<char>>, size: int, k: int)
    requires
        0 < size,
        0 <= k < batched(uris, size).len(),
    ensures
        ({
            let b = batched(uris, size)[k];
            let n = batched(uris, size).len() as int;
            &&& n == batches_for(uris.len() as int, size)
            &&& b.first_page == k * size + 1
            &&& k < n - 1 ==> b.uris.len() == size
            &&& k == n - 1 ==> b.uris.len() == uris.len() - k * size
            &&& 0 < b.uris.len() <= size
            &&& forall|i: int|
                0 <= i < b.uris.len() ==> #[trigger] b.uris[i] == uris[b.first_page - 1 + i]
        }),
{
    let total = uris.len() as int;
    let n = batches_for(total, size);
    lemma_batches(total, size);
    assert((k + 1) * size == k * size + size) by (nonlinear_arith);
    assert(0 <= k * size) by (nonlinear_arith)
        requires
            0 <= k,
            0 < size,
    ;
    assert(k * size < total) by (nonlinear_arith)
        requires
            k <= n - 1,
            (n - 1) * size < total,
            0 < size,
    ;
    if k < n - 1 {
        assert((k + 1) * size < total) by (nonlinear_arith)
            requires
                k + 1 <= n - 1,
                (n - 1) * size < total,
                0 < size,
        ;
    }
}

/// Every page image becomes the data URI of a PNG image with all its bytes.
pub proof fn page_images_become_data_uris(images: Seq<Vec<u8>>, k: int)
    requires
        0 <= k < images.len(),
    ensures
        page_uris(images).len() == images.len(),
        page_uris(images)[k] == data_uri_of("image/png"@, images[k]@),
{
}

// ---------------------------------------------------------------------------
// The response
// ---------------------------------------------------------------------------

/// What was read is what was read in each of the batches, in order.
pub proof fn outcomes_are_those_of_all_batches(
    list: Seq<Result<BatchOutcome, GatewayError>>,
    k: int,
)
    requires
        0 <= k < list.len(),
    ensures
        outcomes_of(list).len() == list.len(),
        list[k] matches Ok(o) ==> outcomes_of(list)[k] == o@,
{
}

/// The texts that are joined are the sanitized texts of all batches, in order,
/// but for the empty ones: no other is left out and none is put in.
pub proof fn response_joins_the_texts_of_all_batches(
    list: Seq<OutcomeValue>,
    total_pages: usize,
    latency_ms: u128,
)
    ensures
        ({
            let texts = list.map_values(|o: OutcomeValue| sanitized(o.raw)).filter(
                |t: Seq<char>| t.len() > 0,
            );
            &&& all_texts(list) == texts
            &&& pdf_response_of(list, total_pages, latency_ms).markdown == joined(
                texts,
                "\n\n---\n\n"@,
            )
        }),
    decreases list.len(),
{
    let all = list.map_values(|o: OutcomeValue| sanitized(o.raw));
    let full = |t: Seq<char>| t.len() > 0;
    reveal(Seq::filter);
    if list.len() > 0 {
        let before = list.drop_last();
        response_joins_the_texts_of_all_batches(before, total_pages, latency_ms);
        assert(before.map_values(|o: OutcomeValue| sanitized(o.raw)) =~= all.drop_last());
        assert(all.last() == sanitized(list.last().raw));
        assert(full(all.last()) == (all.last().len() > 0));
    }
}

/// A batch with text adds its text to the response, whatever stands before and
/// behind it, and a batch without text adds nothing.
pub proof fn every_batch_adds_its_text(
    a: Seq<OutcomeValue>,
    o: OutcomeValue,
    b: Seq<OutcomeValue>,
)
    ensures
        all_texts(a + seq![o] + b) == if sanitized(o.raw).len() > 0 {
            all_texts(a) + seq![sanitized(o.raw)] + all_texts(b)
        } else {
            all_texts(a) + all_texts(b)
        },
    decreases b.len(),
{
    let s = a + seq![o] + b;
    if b.len() == 0 {
        assert(s.drop_last() =~= a);
        assert(s.last() == o);
        assert(all_texts(b) =~= seq![]);
        assert(all_texts(a) + seq![] =~= all_texts(a));
        assert(all_texts(a).push(sanitized(o.raw)) =~= all_texts(a) + seq![sanitized(o.raw)]
            + seq![]);
    } else {
        every_batch_adds_its_text(a, o, b.drop_last());
        assert(s.drop_last() =~= a + seq![o] + b.drop_last());
        assert(s.last() == b.last());
        let t = sanitized(b.last().raw);
        let rest = all_texts(b.drop_last());
        assert((all_texts(a) + rest).push(t) =~= all_texts(a) + rest.push(t));
        assert((all_texts(a) + seq![sanitized(o.raw)] + rest).push(t) =~= all_texts(a)
            + seq![sanitized(o.raw)] + rest.push(t));
    }
}

/// The response for a PDF tells how many pages and batches were read and how
/// long it took.
pub proof fn response_tells_what_was_read(
    list: Seq<OutcomeValue>,
    total_pages: usize,
    latency_ms: u128,
)
    requires
        list.len() <= usize::MAX,
    ensures
        ({
            let r = pdf_response_of(list, total_pages, latency_ms);
            &&& r.total_pages == total_pages
            &&& r.batches_processed == list.len()
            &&& r.latency_ms == latency_ms
            &&& r.document_type == "application/pdf"@
            &&& r.pages == all_pages(list)
            &&& r.bboxes == all_boxes(list)
        }),
{
}

/// Every page of a batch has its number, its image and the text of the batch;
/// the first one lists the boxes.
pub proof fn pages_of_a_batch_hold_its_text(o: OutcomeValue, k: int)
    requires
        0 <= k < o.batch.uris.len(),
        0 <= o.batch.first_page,
        o.batch.first_page + k <= usize::MAX,
    ensures
        pages_in(o).len() == o.batch.uris.len(),
        pages_in(o)[k].page_number == o.batch.first_page + k,
        pages_in(o)[k].image_data_uri == Some(o.batch.uris[k]),
        pages_in(o)[k].markdown == sanitized(o.raw),
        pages_in(o)[k].raw_text == o.raw,
        k == 0 ==> pages_in(o)[k].bboxes == extracted(o.raw),
        k > 0 ==> pages_in(o)[k].bboxes == Seq::<BoxValue>::empty(),
{
}

/// The pages and the boxes of the batches stand one behind the other, and none
/// is left out.
pub proof fn batches_follow_each_other(a: Seq<OutcomeValue>, o: OutcomeValue, b: Seq<OutcomeValue>)
    ensures
        all_pages(a + seq![o] + b) == all_pages(a) + pages_in(o) + all_pages(b),
        all_boxes(a + seq![o] + b) == all_boxes(a) + extracted(o.raw) + all_boxes(b),
        all_pages(Seq::<OutcomeValue>::empty()) == Seq::<PageValue>::empty(),
        all_boxes(Seq::<OutcomeValue>::empty()) == Seq::<BoxValue>::empty(),
    decreases b.len(),
{
    let s = a + seq![o] + b;
    if b.len() == 0 {
        assert(s.drop_last() =~= a);
        assert(s.last() == o);
        assert(all_pages(b) =~= seq![]);
        assert(all_boxes(b) =~= seq![]);
        assert(all_pages(s) =~= all_pages(a) + pages_in(o) + all_pages(b));
        assert(all_boxes(s) =~= all_boxes(a) + extracted(o.raw) + all_boxes(b));
    } else {
        batches_follow_each_other(a, o, b.drop_last());
        assert(s.drop_last() =~= a + seq![o] + b.drop_last());
        assert(s.last() == b.last());
        assert(all_pages(s) =~= all_pages(a) + pages_in(o) + all_pages(b));
        assert(all_boxes(s) =~= all_boxes(a) + extracted(o.raw) + all_boxes(b));
    }
}

/// The boxes of pages stand one page behind the other.
pub proof fn boxes_of_pages_follow_each_other(a: Seq<PageValue>, p: PageValue)
    ensures
        page_boxes(a.push(p)) == page_boxes(a) + p.bboxes,
        page_boxes(Seq::<PageValue>::empty()) == Seq::<BoxValue>::empty(),
{
    assert(a.push(p).drop_last() =~= a);
}

/// The response for an image is that of one page, with the text and the boxes
/// of all that the model wrote.
pub proof fn image_response_is_one_page(
    mime: Seq<char>,
    uri: Seq<char>,
    raw: Seq<char>,
    latency_ms: u128,
)
    ensures
        ({
            let r = image_response_of(mime, uri, raw, latency_ms);
            &&& r.markdown == sanitized(raw)
            &&& r.total_pages == 1
            &&& r.batches_processed == 1
            &&& r.latency_ms == latency_ms
            &&& r.document_type == mime
            &&& r.bboxes == extracted(raw)
            &&& r.pages.len() == 1
            &&& r.pages[0].page_number == 1
            &&& r.pages[0].image_data_uri == Some(uri)
            &&& r.pages[0].markdown == r.markdown
            &&& r.pages[0].raw_text == raw
            &&& r.pages[0].bboxes == r.bboxes
        }),
{
}

// ---------------------------------------------------------------------------
// What is sent
// ---------------------------------------------------------------------------

/// Every page of a PDF is announced once, in order, with its number, the number
/// of pages, and its image.
pub proof fn every_page_is_announced(uris: Seq<Seq<char>>, k: int)
    requires
        uris.len() <= usize::MAX,
        0 <= k < uris.len(),
    ensures
        page_starts(uris).len() == uris.len(),
        page_starts(uris)[k] is PageStart,
        page_starts(uris)[k]->PageStart_page_number == k + 1,
        page_starts(uris)[k]->PageStart_total_pages == uris.len(),
        page_starts(uris)[k]->image_data_uri == Some(uris[k]),
{
}

/// A reply that breaks off is told of in one event, which names the cause, and
/// for a PDF the page. Nothing else changes but that an image is given up.
pub proof fn broken_reply_is_told_of(st: StreamValue, why: Seq<char>)
    requires
        st.phase == Phase::Reading,
    ensures
        ({
            let (events, end) = step(st, InputValue::Broken(why));
            &&& events.len() == 1
            &&& events[0] is Error
            &&& st.source == Source::Image ==> events[0]->error
                == "vLLM stream error: Byte stream error: "@ + why && end.phase == Phase::Failed
            &&& st.source == Source::Pdf ==> events[0]->error == "vLLM stream error on page "@
                + decimal(st.page as nat) + ": Byte stream error: "@ + why && end.phase
                == Phase::Reading
            &&& end.parser == st.parser
            &&& end.markdown == st.markdown
            &&& end.page == st.page
            &&& end.source == st.source
        }),
{
    reveal_strlit("vLLM stream error: ");
    reveal_strlit("Byte stream error: ");
    reveal_strlit("vLLM stream error: Byte stream error: ");
    reveal_strlit(": ");
    reveal_strlit(": Byte stream error: ");
    let error = step(st, InputValue::Broken(why)).0[0]->error;
    if st.source == Source::Image {
        assert(error =~= "vLLM stream error: Byte stream error: "@ + why);
    } else {
        assert(error =~= "vLLM stream error on page "@ + decimal(st.page as nat)
            + ": Byte stream error: "@ + why);
    }
}

/// A prompt without a reply is told of in one event, which names the cause, and
/// for a PDF the page; its reading is over.
pub proof fn missing_reply_is_told_of(st: StreamValue, why: Seq<char>)
    requires
        st.phase == Phase::Reading,
    ensures
        ({
            let (events, end) = step(st, InputValue::Unanswered(why));
            &&& events.len() == 1
            &&& events[0] is Error
            &&& st.source == Source::Image ==> events[0]->error == "Failed to connect to vLLM: "@
                + why
            &&& st.source == Source::Pdf ==> events[0]->error
                == "vLLM connection failed on page "@ + decimal(st.page as nat) + ": "@ + why
            &&& end.phase == Phase::Failed
        }),
{
}

/// The text that events give out is that of their tokens, one behind the
/// other.
pub proof fn text_of_events_is_that_of_their_tokens(events: Seq<EventValue>, e: EventValue)
    ensures
        e is Token ==> text_in(events.push(e)) == text_in(events) + e->text,
        !(e is Token) ==> text_in(events.push(e)) == text_in(events),
        text_in(Seq::<EventValue>::empty()).len() == 0,
{
    assert(events.push(e).drop_last() =~= events);
}

/// A piece of a reply goes to the parser behind what is pending there: what
/// the parser gives out is sent, and its text is kept.
pub proof fn pieces_go_to_the_parser(st: StreamValue, t: Seq<char>)
    requires
        st.phase == Phase::Reading,
    ensures
        ({
            let (events, end) = step(st, InputValue::Text(t));
            let (given, left) = parse(
                st.page,
                ParserValue {
                    pending: st.parser.pending + t,
                    box_id: st.parser.box_id,
                    in_tag: st.parser.in_tag,
                },
            );
            &&& events == given
            &&& end.parser == left
            &&& end.markdown == st.markdown + text_in(given)
            &&& end.page == st.page
            &&& end.source == st.source
            &&& end.phase == Phase::Reading
        }),
{
}

/// At the end of a reply the rest of the text is sent, then one event that says
/// which page is done and holds all its text; the reading is over.
pub proof fn end_of_a_reply_is_sent(st: StreamValue)
    requires
        st.phase == Phase::Reading,
    ensures
        ({
            let (events, end) = step(st, InputValue::End);
            let rest = rest_of(st.page, st.parser);
            &&& events.len() == rest.len() + 1
            &&& events.take(rest.len() as int) == rest
            &&& events.last() is PageDone
            &&& events.last()->PageDone_page_number == st.page
            &&& events.last()->markdown == st.markdown + text_in(rest)
            &&& end.phase == Phase::Finished
        }),
{
    let rest = rest_of(st.page, st.parser);
    assert(step(st, InputValue::End).0.take(rest.len() as int) =~= rest);
}

/// Text can be taken as long as it fits, and everything else always.
pub proof fn there_is_room_for_what_fits(st: StreamValue, t: Seq<char>, why: Seq<char>)
    ensures
        st.parser.box_id + st.parser.pending.len() + t.len() <= usize::MAX ==> st.has_room(
            InputValue::Text(t),
        ),
        st.has_room(InputValue::Broken(why)),
        st.has_room(InputValue::Unanswered(why)),
        st.has_room(InputValue::End),
{
}

/// A reading begins with nothing pending, nothing given out and no region.
pub proof fn reading_begins_with_nothing(source: Source, page: usize)
    ensures
        ({
            let st = StreamValue::opened(source, page);
            &&& st.parser.pending.len() == 0
            &&& st.parser.box_id == 0
            &&& !st.parser.in_tag
            &&& st.markdown.len() == 0
            &&& st.page == page
            &&& st.source == source
            &&& st.phase == Phase::Reading
        }),
{
}

/// An image is announced as the one page that it is, and read on as the same
/// data URI; a PDF is read on with all its bytes; and of a document that does
/// not open its client is told why.
pub proof fn documents_start_as_what_they_are(
    opened: Result<Document, GatewayError>,
    events: Seq<EventValue>,
    start: StreamStart,
)
    requires
        starts_with_events(opened, events, start),
    ensures
        opened matches Ok(Document::Image { mime, bytes }) ==> {
            &&& events.len() == 1
            &&& events[0] is PageStart
            &&& events[0]->PageStart_page_number == 1
            &&& events[0]->PageStart_total_pages == 1
            &&& events[0]->image_data_uri == Some(data_uri_of(mime@, bytes@))
            &&& start is Image
            &&& start->data_uri@ == data_uri_of(mime@, bytes@)
        },
        opened matches Ok(Document::Pdf { bytes }) ==> {
            &&& events.len() == 0
            &&& start is Pdf
            &&& start->bytes@ == bytes@
        },
        opened matches Err(e) ==> {
            &&& events.len() == 1
            &&& events[0] is Error
            &&& events[0]->error == refusal_text(e)
            &&& start is Refused
        },
{
}

/// Of a document that is no Base64 a client is told what the decoder says, and
/// of every other one what the error says.
pub proof fn refusals_say_why(e: GatewayError)
    ensures
        e matches GatewayError::Base64 { detail } ==> refusal_text(e)
            == "Failed to decode base64: Failed to decode Base64 string: "@ + detail@,
        !(e is Base64) ==> refusal_text(e) == e.text(),
{
    reveal_strlit("Failed to decode base64: ");
    reveal_strlit("Failed to decode Base64 string: ");
    reveal_strlit("Failed to decode base64: Failed to decode Base64 string: ");
    if let GatewayError::Base64 { detail } = e {
        assert(refusal_text(e)
            =~= "Failed to decode base64: Failed to decode Base64 string: "@ + detail@);
    }
}

/// A PDF with page images is read on in a job that holds all of them, after
/// all of them are announced; without page images its client is told so.
pub proof fn pdf_goes_on_with_all_its_pages(
    images: Result<Vec<Vec<u8>>, GatewayError>,
    default: usize,
    size: Option<usize>,
    concurrency: Option<usize>,
    events: Seq<EventValue>,
    job: Option<PdfJob>,
)
    requires
        goes_on(images, default, size, concurrency, events, job),
    ensures
        images matches Ok(list) ==> list@.len() > 0 ==> {
            &&& events == page_starts(page_uris(list@))
            &&& job is Some
            &&& job->0.reads(page_uris(list@), default, size, concurrency)
        },
        images matches Ok(list) ==> list@.len() == 0 ==> {
            &&& events.len() == 1
            &&& events[0] is Error
            &&& events[0]->error == "PDF contains no pages"@
            &&& job is None
        },
        images matches Err(e) ==> {
            &&& events.len() == 1
            &&& events[0] is Error
            &&& events[0]->error == "PDF rasterization failed: "@ + e.full_text()
            &&& job is None
        },
{
}

/// The job for a PDF has the plan that the request asks for and the batches of
/// that plan.
pub proof fn jobs_hold_all_batches(
    job: PdfJob,
    uris: Seq<Seq<char>>,
    default: usize,
    size: Option<usize>,
    concurrency: Option<usize>,
    k: int,
)
    requires
        job.reads(uris, default, size, concurrency),
    ensures
        job.plan.fits(uris.len() as int, default, size, concurrency),
        job.batches@.len() == job.plan.num_batches,
        0 <= k < job.batches@.len() ==> job.batches@[k]@ == batched(
            uris,
            batch_size_for(size, default) as int,
        )[k],
{
    lemma_batches(uris.len() as int, batch_size_for(size, default) as int);
    let values = batches_of(job.batches@);
    assert(values.len() == job.batches@.len());
    if 0 <= k < job.batches@.len() {
        assert(values[k] == job.batches@[k]@);
    }
}

/// The reading ends with one event, which says that it is complete.
pub proof fn reading_ends_with_done(total_pages: usize, latency_ms: u128)
    ensures
        farewell(total_pages, latency_ms).len() == 1,
        farewell(total_pages, latency_ms)[0] is Done,
        farewell(total_pages, latency_ms)[0]->status == "complete"@,
        farewell(total_pages, latency_ms)[0]->Done_total_pages == total_pages,
        farewell(total_pages, latency_ms)[0]->latency_ms == latency_ms,
{
}

} // verus!
