//! Reading a document while its client listens: which events are sent, and
//! when.

use vstd::prelude::*;

use crate::batches::{
    batch_at, batch_end, batched, batches_for, batches_of, lemma_batches, page_uris, PageBatch,
};
use crate::encoding::{data_uri, data_uri_of};
use crate::errors::GatewayError;
use crate::grounding::{
    bbox, lemma_tags, parse, rest_of, token, ParserValue, StreamingGroundingParser,
};
use crate::markup::{region_in, without_refs};
use crate::models::{events_of, EventValue, OcrStreamEvent};
use crate::patterns::{DET_CLOSE, DET_OPEN};
use crate::processor::{is_opened, open_document, Document, DocumentProcessor, PdfJob};
use crate::stream_laws::{lemma_text_concat, text_in};
use crate::text::{concat, decimal, decimal_text, first_at, lemma_first_at, texts};

verus! {

broadcast use vstd::seq::group_seq_axioms;

// ---------------------------------------------------------------------------
// One prompt
// ---------------------------------------------------------------------------

/// What the pages of a prompt come from.
#[derive(Debug, Clone, Copy, PartialEq, Eq, Structural)]
pub enum Source {
    Image,
    Pdf,
}

/// How far the reading of a prompt's reply is.
#[derive(Debug, Clone, Copy, PartialEq, Eq, Structural)]
pub enum Phase {
    /// The reply is coming in.
    Reading,
    /// The reply was given up.
    Failed,
    /// The reply was read to its end.
    Finished,
}

/// What happens to a prompt.
#[derive(Debug)]
pub enum StreamInput {
    /// The next piece of the reply has come in.
    Text(String),
    /// The reply broke off; the text says why.
    Broken(String),
    /// There is no reply.
    Unanswered(GatewayError),
    /// The reply is at its end.
    End,
}

/// The value of a `StreamInput`.
#[verifier::ext_equal]
pub enum InputValue {
    Text(Seq<char>),
    Broken(Seq<char>),
    Unanswered(Seq<char>),
    End,
}

impl View for StreamInput {
    type V = InputValue;

    open spec fn view(&self) -> InputValue {
        match *self {
            StreamInput::Text(t) => InputValue::Text(t@),
            StreamInput::Broken(t) => InputValue::Broken(t@),
            StreamInput::Unanswered(e) => InputValue::Unanswered(e.full_text()),
            StreamInput::End => InputValue::End,
        }
    }
}

/// The reading of a prompt's reply.
pub struct BatchStream {
    parser: StreamingGroundingParser,
    page_markdown: String,
    page_number: usize,
    source: Source,
    phase: Phase,
}

/// The state of a `BatchStream`.
#[verifier::ext_equal]
pub struct StreamValue {
    pub parser: ParserValue,
    /// The text that was given out.
    pub markdown: Seq<char>,
    /// The first page of the prompt.
    pub page: usize,
    pub source: Source,
    pub phase: Phase,
}

impl View for BatchStream {
    type V = StreamValue;

    closed spec fn view(&self) -> StreamValue {
        StreamValue {
            parser: self.parser@,
            markdown: self.page_markdown@,
            page: self.page_number,
            source: self.source,
            phase: self.phase,
        }
    }
}

impl StreamValue {
    /// Before anything has happened to the prompt.
    pub open spec fn opened(source: Source, page: usize) -> Self {
        StreamValue {
            parser: ParserValue::fresh(),
            markdown: seq![],
            page,
            source,
            phase: Phase::Reading,
        }
    }

    /// The next piece of the reply can be taken.
    pub open spec fn has_room(self, input: InputValue) -> bool {
        input matches InputValue::Text(t) ==> self.parser.box_id + self.parser.pending.len()
            + t.len() <= usize::MAX
    }
}

/// What a client is told of a reply that broke off.
pub open spec fn broken_text(source: Source, page: usize, why: Seq<char>) -> Seq<char> {
    match source {
        Source::Image => "vLLM stream error: "@ + ("Byte stream error: "@ + why),
        Source::Pdf => "vLLM stream error on page "@ + decimal(page as nat) + ": "@ + (
        "Byte stream error: "@ + why),
    }
}

/// What a client is told of a prompt without a reply.
pub open spec fn unanswered_text(source: Source, page: usize, why: Seq<char>) -> Seq<char> {
    match source {
        Source::Image => "Failed to connect to vLLM: "@ + why,
        Source::Pdf => "vLLM connection failed on page "@ + decimal(page as nat) + ": "@ + why,
    }
}

/// What is sent when something happens to a prompt, and the state after that.
///
/// An image is given up when its reply breaks off. The pages of a PDF are not:
/// what has come in of them is sent. Once the reading is over, nothing is sent.
pub open spec fn step(st: StreamValue, input: InputValue) -> (Seq<EventValue>, StreamValue) {
    if st.phase != Phase::Reading {
        (seq![], st)
    } else {
        match input {
            InputValue::Text(t) => {
                let (events, parser) = parse(st.page, st.parser.plus(t));
                (events, StreamValue { parser, markdown: st.markdown + text_in(events), ..st })
            },
            InputValue::Broken(why) => (
                seq![EventValue::Error { error: broken_text(st.source, st.page, why) }],
                StreamValue {
                    phase: match st.source {
                        Source::Image => Phase::Failed,
                        Source::Pdf => Phase::Reading,
                    },
                    ..st
                },
            ),
            InputValue::Unanswered(why) => (
                seq![EventValue::Error { error: unanswered_text(st.source, st.page, why) }],
                StreamValue { phase: Phase::Failed, ..st },
            ),
            InputValue::End => {
                let events = rest_of(st.page, st.parser);
                let markdown = st.markdown + text_in(events);
                (
                    events.push(EventValue::PageDone { page_number: st.page, markdown }),
                    StreamValue {
                        parser: ParserValue { pending: seq![], ..st.parser },
                        markdown,
                        phase: Phase::Finished,
                        ..st
                    },
                )
            },
        }
    }
}

/// Puts the text that events give out behind `text`.
fn append_tokens(text: &mut String, events: &Vec<OcrStreamEvent>)
    ensures
        final(text)@ == old(text)@ + text_in(events_of(events@)),
{
    let ghost before = text@;
    let ghost all = events_of(events@);
    let mut i: usize = 0;
    proof {
        assert(all.take(0) =~= seq![]);
        assert(before + text_in(all.take(0)) =~= before);
    }
    while i < events.len()
        invariant
            i <= events@.len(),
            all == events_of(events@),
            text@ == before + text_in(all.take(i as int)),
        decreases events@.len() - i,
    {
        proof {
            assert(all.take(i + 1).drop_last() =~= all.take(i as int));
            assert(all.take(i + 1).last() == events@[i as int]@);
        }
        if let OcrStreamEvent::Token { text: piece, .. } = &events[i] {
            text.append(piece);
            proof {
                assert(text@ =~= before + text_in(all.take(i + 1)));
            }
        }
        i += 1;
    }
    proof {
        assert(all.take(all.len() as int) =~= all);
    }
}

/// The list of one event that says what went wrong.
fn one_error(error: String) -> (r: Vec<OcrStreamEvent>)
    ensures
        events_of(r@) == seq![EventValue::Error { error: error@ }],
{
    let mut r: Vec<OcrStreamEvent> = Vec::new();
    r.push(OcrStreamEvent::Error { error });
    proof {
        assert(events_of(r@) =~= seq![EventValue::Error { error: error@ }]);
    }
    r
}

/// `head`, then the page, then `why`.
fn on_page(head: &str, page: usize, why: &str) -> (r: String)
    ensures
        r@ == head@ + decimal(page as nat) + ": "@ + why@,
{
    let mut r = concat(head, &decimal_text(page));
    r.append(": ");
    r.append(why);
    r
}

impl BatchStream {
    /// The reading of the reply for an image.
    pub fn for_image() -> (r: Self)
        ensures
            r@ == StreamValue::opened(Source::Image, 1),
    {
        Self::open(Source::Image, 1)
    }

    /// The reading of the reply for pages of a PDF.
    pub fn for_batch(batch: &PageBatch) -> (r: Self)
        ensures
            r@ == StreamValue::opened(Source::Pdf, batch@.first_page as usize),
    {
        Self::open(Source::Pdf, batch.first_page())
    }

    fn open(source: Source, page_number: usize) -> (r: Self)
        ensures
            r@ == StreamValue::opened(source, page_number),
    {
        let r = BatchStream {
            parser: StreamingGroundingParser::new(),
            page_markdown: String::new(),
            page_number,
            source,
            phase: Phase::Reading,
        };
        proof {
            assert(r@ =~= StreamValue::opened(source, page_number));
        }
        r
    }

    /// How far the reading is.
    pub fn phase(&self) -> (r: Phase)
        ensures
            r == self@.phase,
    {
        self.phase
    }

    /// Whether something that happens to the prompt can be taken.
    pub fn has_room(&self, input: &StreamInput) -> (r: bool)
        ensures
            r == self@.has_room(input@),
    {
        match input {
            StreamInput::Text(t) => self.parser.has_room(t),
            _ => true,
        }
    }

    /// Takes what happens to the prompt, and gives out what is sent.
    pub fn step(&mut self, input: StreamInput) -> (r: Vec<OcrStreamEvent>)
        requires
            old(self)@.has_room(input@),
        ensures
            events_of(r@) == step(old(self)@, input@).0,
            final(self)@ == step(old(self)@, input@).1,
    {
        let ghost st = self@;
        let mut events: Vec<OcrStreamEvent> = Vec::new();
        if self.phase == Phase::Reading {
            match input {
                StreamInput::Text(t) => {
                    events = self.parser.feed(&t, self.page_number);
                    append_tokens(&mut self.page_markdown, &events);
                },
                StreamInput::Broken(cause) => {
                    let why = concat("Byte stream error: ", &cause);
                    let error = match self.source {
                        Source::Image => concat("vLLM stream error: ", &why),
                        Source::Pdf => on_page(
                            "vLLM stream error on page ",
                            self.page_number,
                            &why,
                        ),
                    };
                    events = one_error(error);
                    if self.source == Source::Image {
                        self.phase = Phase::Failed;
                    }
                },
                StreamInput::Unanswered(e) => {
                    let why = e.full_message();
                    let error = match self.source {
                        Source::Image => concat("Failed to connect to vLLM: ", &why),
                        Source::Pdf => on_page(
                            "vLLM connection failed on page ",
                            self.page_number,
                            &why,
                        ),
                    };
                    events = one_error(error);
                    self.phase = Phase::Failed;
                },
                StreamInput::End => {
                    events = self.parser.flush(self.page_number);
                    append_tokens(&mut self.page_markdown, &events);
                    let ghost rest = events@;
                    events.push(
                        OcrStreamEvent::PageDone {
                            page_number: self.page_number,
                            markdown: self.page_markdown.clone(),
                        },
                    );
                    self.phase = Phase::Finished;
                    proof {
                        assert(events_of(events@) =~= events_of(rest).push(events@.last()@));
                    }
                },
            }
        }
        proof {
            assert(events_of(events@) =~= step(st, input@).0);
            assert(self@ =~= step(st, input@).1);
        }
        events
    }
}

// ---------------------------------------------------------------------------
// The whole document
// ---------------------------------------------------------------------------

/// What a client is told whose document cannot be opened.
pub open spec fn refusal_text(e: GatewayError) -> Seq<char> {
    if e is Base64 {
        "Failed to decode base64: "@ + e.reason()
    } else {
        e.text()
    }
}

/// How the reading of a document goes on.
#[derive(Debug)]
pub enum StreamStart {
    /// It does not.
    Refused,
    /// With a prompt for the image.
    Image { data_uri: String },
    /// With the images of the pages.
    Pdf { bytes: Vec<u8> },
}

/// `events` are sent, and the reading goes on with `start`, where opening the
/// document gave `opened`.
pub open spec fn starts_with_events(
    opened: Result<Document, GatewayError>,
    events: Seq<EventValue>,
    start: StreamStart,
) -> bool {
    match opened {
        Ok(Document::Image { mime, bytes }) => {
            let uri = data_uri_of(mime@, bytes@);
            &&& events == seq![
                EventValue::PageStart {
                    page_number: 1,
                    total_pages: 1,
                    image_data_uri: Some(uri),
                },
            ]
            &&& start matches StreamStart::Image { data_uri } && data_uri@ == uri
        },
        Ok(Document::Pdf { bytes }) => {
            &&& events == Seq::<EventValue>::empty()
            &&& start matches StreamStart::Pdf { bytes: b } && b@ == bytes@
        },
        Err(e) => {
            &&& events == seq![EventValue::Error { error: refusal_text(e) }]
            &&& start is Refused
        },
    }
}

/// Starts to read a document, given what opening it gave.
pub fn start_reading(opened: Result<Document, GatewayError>) -> (r: (
    Vec<OcrStreamEvent>,
    StreamStart,
))
    ensures
        starts_with_events(opened, events_of(r.0@), r.1),
{
    match opened {
        Ok(Document::Image { mime, bytes }) => {
            let uri = data_uri(&mime, &bytes);
            let mut events: Vec<OcrStreamEvent> = Vec::new();
            events.push(
                OcrStreamEvent::PageStart {
                    page_number: 1,
                    total_pages: 1,
                    image_data_uri: Some(uri.clone()),
                },
            );
            proof {
                assert(events_of(events@) =~= seq![events@[0]@]);
            }
            (events, StreamStart::Image { data_uri: uri })
        },
        Ok(Document::Pdf { bytes }) => {
            let events: Vec<OcrStreamEvent> = Vec::new();
            proof {
                assert(events_of(events@) =~= seq![]);
            }
            (events, StreamStart::Pdf { bytes })
        },
        Err(e) => {
            let error = match &e {
                GatewayError::Base64 { detail } => concat(
                    "Failed to decode base64: ",
                    &concat("Failed to decode Base64 string: ", detail),
                ),
                _ => e.message(),
            };
            (one_error(error), StreamStart::Refused)
        },
    }
}

/// Starts to read the document in the text of a client.
pub fn start_stream(raw_b64_file: &str) -> (r: (Vec<OcrStreamEvent>, StreamStart))
    ensures
        exists|opened: Result<Document, GatewayError>| #[trigger]
            is_opened(raw_b64_file@, opened) && starts_with_events(
                opened,
                events_of(r.0@),
                r.1,
            ),
{
    let opened = open_document(raw_b64_file);
    start_reading(opened)
}

/// The events that say which pages there are.
pub open spec fn page_starts(uris: Seq<Seq<char>>) -> Seq<EventValue> {
    Seq::new(
        uris.len(),
        |i: int|
            EventValue::PageStart {
                page_number: (i + 1) as usize,
                total_pages: uris.len() as usize,
                image_data_uri: Some(uris[i]),
            },
    )
}

/// The images of the pages of a PDF came out as `images`: `events` are sent,
/// and the reading goes on with `job`, where there is one.
pub open spec fn goes_on(
    images: Result<Vec<Vec<u8>>, GatewayError>,
    default_batch_size: usize,
    requested_batch_size: Option<usize>,
    requested_concurrency: Option<usize>,
    events: Seq<EventValue>,
    job: Option<PdfJob>,
) -> bool {
    match images {
        Ok(images) if images@.len() > 0 => {
            let uris = page_uris(images@);
            &&& events == page_starts(uris)
            &&& job matches Some(j) && j.reads(
                uris,
                default_batch_size,
                requested_batch_size,
                requested_concurrency,
            )
        },
        Ok(_) => {
            &&& events == seq![EventValue::Error { error: "PDF contains no pages"@ }]
            &&& job is None
        },
        Err(e) => {
            &&& events == seq![
                EventValue::Error { error: "PDF rasterization failed: "@ + e.full_text() },
            ]
            &&& job is None
        },
    }
}

/// The events that say which pages there are, by the batches that hold them.
fn announce(
    batches: &Vec<PageBatch>,
    total_pages: usize,
    size: usize,
    Ghost(uris): Ghost<Seq<Seq<char>>>,
) -> (r: Vec<OcrStreamEvent>)
    requires
        0 < size,
        uris.len() == total_pages,
        batches_of(batches@) == batched(uris, size as int),
    ensures
        events_of(r@) == page_starts(uris),
{
    let ghost all = page_starts(uris);
    let ghost list = batched(uris, size as int);
    let mut r: Vec<OcrStreamEvent> = Vec::new();
    let mut k: usize = 0;
    proof {
        lemma_batches(total_pages as int, size as int);
        assert(list.len() == batches@.len());
        assert(events_of(r@) =~= all.take(0));
        assert(0 * size == 0) by (nonlinear_arith);
    }
    while k < batches.len()
        invariant
            0 < size,
            uris.len() == total_pages,
            all == page_starts(uris),
            list == batched(uris, size as int),
            batches_of(batches@) == list,
            list.len() == batches@.len() == batches_for(total_pages as int, size as int),
            k <= batches@.len(),
            k < batches@.len() ==> events_of(r@) == all.take(k * size),
            k == batches@.len() ==> events_of(r@) == all,
        decreases batches@.len() - k,
    {
        let batch = &batches[k];
        let first = batch.first_page();
        let pages = batch.data_uris();
        let mut i: usize = 0;
        proof {
            lemma_batches(total_pages as int, size as int);
            assert(batches_of(batches@)[k as int] == batches@[k as int]@);
            assert(batch@ == batch_at(uris, size as int, k as int));
            assert((k + 1) * size == k * size + size) by (nonlinear_arith);
            assert(k * size >= 0) by (nonlinear_arith)
                requires
                    k >= 0,
                    size > 0,
            ;
            assert(k * size < total_pages) by (nonlinear_arith)
                requires
                    k <= batches_for(total_pages as int, size as int) - 1,
                    (batches_for(total_pages as int, size as int) - 1) * size < total_pages,
                    size > 0,
            ;
            assert(texts(pages@).len() == pages@.len());
        }
        let ghost start = k * size;
        let ghost end = batch_end(k as int, size as int, total_pages as int);
        while i < pages.len()
            invariant
                uris.len() == total_pages,
                all == page_starts(uris),
                0 <= start <= end <= total_pages,
                first == start + 1,
                texts(pages@) == uris.subrange(start, end),
                pages@.len() == end - start,
                i <= pages@.len(),
                events_of(r@) == all.take(start + i),
            decreases pages@.len() - i,
        {
            let ghost before = r@;
            proof {
                assert(texts(pages@)[i as int] == pages@[i as int]@);
                assert(uris.subrange(start, end)[i as int] == uris[start + i]);
            }
            r.push(
                OcrStreamEvent::PageStart {
                    page_number: first + i,
                    total_pages,
                    image_data_uri: Some(pages[i].clone()),
                },
            );
            proof {
                assert(r@.last()@ == all[start + i]);
                assert(events_of(r@) =~= events_of(before).push(r@.last()@));
                assert(all.take(start + i + 1) =~= all.take(start + i).push(all[start + i]));
            }
            i += 1;
        }
        k += 1;
        proof {
            if k == batches@.len() {
                assert(end == total_pages);
                assert(all.take(total_pages as int) =~= all);
            } else {
                assert(k * size <= total_pages) by (nonlinear_arith)
                    requires
                        k <= batches_for(total_pages as int, size as int) - 1,
                        (batches_for(total_pages as int, size as int) - 1) * size < total_pages,
                        size > 0,
                ;
            }
        }
    }
    r
}

impl DocumentProcessor {
    /// Goes on to read a PDF, given the images of its pages.
    pub fn plan_pdf_stream(
        &self,
        images: Result<Vec<Vec<u8>>, GatewayError>,
        requested_batch_size: Option<usize>,
        requested_concurrency: Option<usize>,
    ) -> (r: (Vec<OcrStreamEvent>, Option<PdfJob>))
        ensures
            goes_on(
                images,
                self.settings().default_batch_size,
                requested_batch_size,
                requested_concurrency,
                events_of(r.0@),
                r.1,
            ),
    {
        let list = match images {
            Ok(list) => list,
            Err(e) => return (
                one_error(concat("PDF rasterization failed: ", &e.full_message())),
                None,
            ),
        };
        match self.plan_pdf(&list, requested_batch_size, requested_concurrency) {
            Ok(job) => {
                let events = announce(
                    &job.batches,
                    job.plan.total_pages,
                    job.plan.batch_size,
                    Ghost(page_uris(list@)),
                );
                (events, Some(job))
            },
            Err(_) => (one_error("PDF contains no pages".to_string()), None),
        }
    }
}

/// What is sent at the end.
pub open spec fn farewell(total_pages: usize, latency_ms: u128) -> Seq<EventValue> {
    seq![EventValue::Done { status: "complete"@, total_pages, latency_ms }]
}

/// Ends the reading of an image: an end is sent only where the reply was read
/// to its own.
pub fn finish_image(stream: &BatchStream, latency_ms: u128) -> (r: Vec<OcrStreamEvent>)
    ensures
        events_of(r@) == if stream@.phase == Phase::Finished {
            farewell(1, latency_ms)
        } else {
            Seq::<EventValue>::empty()
        },
{
    let mut r: Vec<OcrStreamEvent> = Vec::new();
    if stream.phase() == Phase::Finished {
        r.push(OcrStreamEvent::Done { status: "complete".to_string(), total_pages: 1, latency_ms });
        proof {
            assert(events_of(r@) =~= farewell(1, latency_ms));
        }
    } else {
        proof {
            assert(events_of(r@) =~= seq![]);
        }
    }
    r
}

/// Ends the reading of a PDF, whatever became of its prompts.
pub fn finish_pdf(job: &PdfJob, latency_ms: u128) -> (r: Vec<OcrStreamEvent>)
    ensures
        events_of(r@) == farewell(job.plan.total_pages, latency_ms),
{
    let mut r: Vec<OcrStreamEvent> = Vec::new();
    r.push(
        OcrStreamEvent::Done {
            status: "complete".to_string(),
            total_pages: job.plan.total_pages,
            latency_ms,
        },
    );
    proof {
        assert(events_of(r@) =~= farewell(job.plan.total_pages, latency_ms));
    }
    r
}

// ---------------------------------------------------------------------------
// Laws
// ---------------------------------------------------------------------------

/// What is sent while the given things happen to a prompt, and the state after
/// that.
pub open spec fn run(st: StreamValue, inputs: Seq<InputValue>) -> (Seq<EventValue>, StreamValue)
    decreases inputs.len(),
{
    if inputs.len() == 0 {
        (seq![], st)
    } else {
        let (before, mid) = run(st, inputs.drop_last());
        let (events, end) = step(mid, inputs.last());
        (before + events, end)
    }
}

/// An event says that the pages of a prompt are read.
pub open spec fn is_page_done(e: EventValue) -> bool {
    e is PageDone
}

/// Whatever happens to a prompt: once its pages are read, the last event says
/// so, no event before does, and the text in it is all the text that was given
/// out; until then no event says so.
pub proof fn page_done_holds_the_tokens(source: Source, page: usize, inputs: Seq<InputValue>)
    ensures
        ({
            let (events, end) = run(StreamValue::opened(source, page), inputs);
            let n = events.len() - 1;
            if end.phase == Phase::Finished {
                &&& n >= 0
                &&& events[n] == (EventValue::PageDone {
                    page_number: page,
                    markdown: text_in(events),
                })
                &&& forall|i: int| 0 <= i < n ==> !is_page_done(#[trigger] events[i])
            } else {
                forall|i: int| 0 <= i <= n ==> !is_page_done(#[trigger] events[i])
            }
        }),
{
    lemma_run(source, page, inputs);
}

proof fn lemma_run(source: Source, page: usize, inputs: Seq<InputValue>)
    ensures
        ({
            let (events, end) = run(StreamValue::opened(source, page), inputs);
            let n = events.len() - 1;
            &&& end.page == page
            &&& end.source == source
            &&& end.markdown == text_in(events)
            &&& if end.phase == Phase::Finished {
                &&& n >= 0
                &&& events[n] == (EventValue::PageDone {
                    page_number: page,
                    markdown: text_in(events),
                })
                &&& forall|i: int| 0 <= i < n ==> !is_page_done(#[trigger] events[i])
            } else {
                forall|i: int| 0 <= i <= n ==> !is_page_done(#[trigger] events[i])
            }
        }),
    decreases inputs.len(),
{
    let st = StreamValue::opened(source, page);
    if inputs.len() > 0 {
        lemma_run(source, page, inputs.drop_last());
        let (before, mid) = run(st, inputs.drop_last());
        let (events, end) = step(mid, inputs.last());
        let all = before + events;
        lemma_text_concat(before, events);
        if mid.phase == Phase::Reading {
            match inputs.last() {
                InputValue::Text(t) => {
                    lemma_no_page_done(page, mid.parser.plus(t));
                    assert forall|i: int| 0 <= i < all.len() implies !is_page_done(
                        #[trigger] all[i],
                    ) by {
                        if i < before.len() {
                            assert(all[i] == before[i]);
                        } else {
                            assert(all[i] == events[i - before.len()]);
                        }
                    }
                },
                InputValue::End => {
                    let rest = rest_of(page, mid.parser);
                    assert(events.drop_last() =~= rest);
                    assert(all.last() == events.last());
                    assert forall|i: int| 0 <= i < all.len() - 1 implies !is_page_done(
                        #[trigger] all[i],
                    ) by {
                        if i < before.len() {
                            assert(all[i] == before[i]);
                        } else {
                            assert(all[i] == rest[i - before.len()]);
                        }
                    }
                },
                _ => {
                    assert(events.drop_last() =~= seq![]);
                    assert(text_in(events.drop_last()) =~= seq![]);
                    assert(text_in(before) + seq![] =~= text_in(before));
                    assert forall|i: int| 0 <= i < all.len() implies !is_page_done(
                        #[trigger] all[i],
                    ) by {
                        if i < before.len() {
                            assert(all[i] == before[i]);
                        }
                    }
                },
            }
        } else {
            assert(all =~= before);
        }
    }
}

/// What the parser gives out says nowhere that the pages are read.
proof fn lemma_no_page_done(page: usize, st: ParserValue)
    ensures
        forall|i: int|
            0 <= i < parse(page, st).0.len() ==> !is_page_done(#[trigger] parse(page, st).0[i]),
    decreases st.pending.len(),
{
    lemma_tags();
    let p = st.pending;
    let events = parse(page, st).0;
    if !st.in_tag {
        lemma_first_at(p, DET_OPEN@, 0);
        if let Some(i) = first_at(p, DET_OPEN@, 0) {
            let next = ParserValue {
                pending: p.skip(i + DET_OPEN@.len()),
                box_id: st.box_id,
                in_tag: true,
            };
            lemma_no_page_done(page, next);
            let head = token(page, st.box_id, without_refs(p.take(i)));
            let rest = parse(page, next).0;
            assert(events == head + rest);
            assert forall|k: int| 0 <= k < events.len() implies !is_page_done(
                #[trigger] events[k],
            ) by {
                if k >= head.len() {
                    assert(events[k] == rest[k - head.len()]);
                }
            }
        }
    } else {
        lemma_first_at(p, DET_CLOSE@, 0);
        if let Some(i) = first_at(p, DET_CLOSE@, 0) {
            let region = region_in(p.take(i));
            let id = if region is Some {
                st.box_id + 1
            } else {
                st.box_id
            };
            let next = ParserValue {
                pending: p.skip(i + DET_CLOSE@.len()),
                box_id: id,
                in_tag: false,
            };
            lemma_no_page_done(page, next);
            let head = bbox(page, id, region);
            let rest = parse(page, next).0;
            assert(events == head + rest);
            assert forall|k: int| 0 <= k < events.len() implies !is_page_done(
                #[trigger] events[k],
            ) by {
                if k >= head.len() {
                    assert(events[k] == rest[k - head.len()]);
                }
            }
        }
    }
}

/// Once the reading of a reply is over, nothing more is sent.
pub proof fn nothing_follows_the_end(st: StreamValue, inputs: Seq<InputValue>)
    requires
        st.phase != Phase::Reading,
    ensures
        run(st, inputs) == (Seq::<EventValue>::empty(), st),
    decreases inputs.len(),
{
    if inputs.len() > 0 {
        nothing_follows_the_end(st, inputs.drop_last());
        assert(seq![] + seq![] =~= Seq::<EventValue>::empty());
    }
}

/// A reply that breaks off ends the reading of an image, and no other. Of the
/// pages of a PDF that were asked for, what came in is sent.
pub proof fn pdf_is_read_on_after_an_error(page: usize, inputs: Seq<InputValue>)
    requires
        inputs.len() > 0,
        forall|i: int| 0 <= i < inputs.len() ==> !(#[trigger] inputs[i] is Unanswered),
        inputs.last() is End,
    ensures
        run(StreamValue::opened(Source::Pdf, page), inputs).1.phase == Phase::Finished,
{
    lemma_pdf_is_not_failed(page, inputs.drop_last());
}

proof fn lemma_pdf_is_not_failed(page: usize, inputs: Seq<InputValue>)
    requires
        forall|i: int| 0 <= i < inputs.len() ==> !(#[trigger] inputs[i] is Unanswered),
    ensures
        run(StreamValue::opened(Source::Pdf, page), inputs).1.phase != Phase::Failed,
        run(StreamValue::opened(Source::Pdf, page), inputs).1.source == Source::Pdf,
    decreases inputs.len(),
{
    if inputs.len() > 0 {
        lemma_pdf_is_not_failed(page, inputs.drop_last());
        assert(inputs.last() == inputs[inputs.len() - 1]);
        assert forall|i: int| 0 <= i < inputs.drop_last().len() implies !(
        #[trigger] inputs.drop_last()[i] is Unanswered) by {
            assert(inputs.drop_last()[i] == inputs[i]);
        }
    }
}

} // verus!
