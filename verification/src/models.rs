//! The messages that the gateway exchanges with its clients and with the
//! inference server, each with the mathematical value that it stands for.

use vstd::prelude::*;

use crate::text::text_opt;

verus! {

/// What a client posts to have a document read.
#[derive(Debug)]
pub struct ProcessRequest {
    /// The document (PDF or image) in Base64, or as a data URI.
    pub file: String,
    /// Pages per prompt for a PDF.
    pub batch_size: Option<usize>,
    /// Prompts in flight at a time for a PDF.
    pub concurrency: Option<usize>,
}

/// A region of the page layout, with the text that belongs to it.
#[derive(Debug)]
pub struct BoundingBox {
    /// The kind of region, such as "title" or "table".
    pub label: String,
    /// Coordinates on a scale of 0 to 1000.
    pub xmin: u32,
    pub ymin: u32,
    pub xmax: u32,
    pub ymax: u32,
    /// The text of the region.
    pub text: String,
}

/// What was read on one page.
#[derive(Debug)]
pub struct PageResult {
    /// Counted from 1.
    pub page_number: usize,
    /// The image of the page as a data URI.
    pub image_data_uri: Option<String>,
    /// The text without grounding tags.
    pub markdown: String,
    /// The text as the model wrote it.
    pub raw_text: String,
    /// The regions of the page. Where pages were read in one prompt, the first
    /// of them lists the regions of all, each once: the model does not say on
    /// which page a region lies.
    pub bboxes: Vec<BoundingBox>,
}

/// The reply to a `ProcessRequest`.
#[derive(Debug)]
pub struct ProcessResponse {
    /// The text of the whole document without grounding tags.
    pub markdown: String,
    /// 1 for an image.
    pub total_pages: usize,
    /// Prompts sent to the inference server.
    pub batches_processed: usize,
    /// Milliseconds from request to reply.
    pub latency_ms: u128,
    /// The media type of the document.
    pub document_type: String,
    /// The pages in order.
    pub pages: Vec<PageResult>,
    /// The regions of all pages, one page behind the other.
    pub bboxes: Vec<BoundingBox>,
}

/// What is sent to a client while its document is being read.
#[derive(Debug)]
pub enum OcrStreamEvent {
    /// The image of a page is known.
    PageStart { page_number: usize, total_pages: usize, image_data_uri: Option<String> },
    /// A region was found.
    Bbox {
        page_number: usize,
        box_id: usize,
        label: String,
        xmin: u32,
        ymin: u32,
        xmax: u32,
        ymax: u32,
    },
    /// Text of the region `box_id` was read; 0 stands for no region.
    Token { page_number: usize, box_id: usize, text: String },
    /// A page, or a batch of pages, is read.
    PageDone { page_number: usize, markdown: String },
    /// The document is read.
    Done { status: String, total_pages: usize, latency_ms: u128 },
    /// Something failed.
    Error { error: String },
}

/// The body of a reply that refuses a request.
#[derive(Debug)]
pub struct ErrorResponse {
    pub error: String,
    pub details: Option<String>,
}

/// The reply to a health probe.
#[derive(Debug)]
pub struct HealthResponse {
    pub status: String,
    pub model: String,
    pub vllm_endpoint: String,
    pub pdf_max_size: usize,
}

/// A prompt for the inference server. Its sampling temperature is zero in
/// every prompt and is added where the prompt is written out.
#[derive(Debug)]
pub struct VllmChatRequest {
    pub model: String,
    pub messages: Vec<VllmChatMessage>,
    pub max_tokens: usize,
    pub stream: bool,
    pub skip_special_tokens: bool,
    pub vllm_xargs: VllmXargs,
}

/// Decoding options of the inference server.
#[derive(Debug)]
pub struct VllmXargs {
    pub ngram_size: usize,
    pub window_size: usize,
}

/// One message of a prompt.
#[derive(Debug)]
pub struct VllmChatMessage {
    pub role: String,
    pub content: Vec<VllmContentPart>,
}

/// One part of a message.
#[derive(Debug)]
pub enum VllmContentPart {
    Text { text: String },
    ImageUrl { image_url: VllmImageUrl },
}

/// An image of a message.
#[derive(Debug)]
pub struct VllmImageUrl {
    pub url: String,
}

/// The reply of the inference server.
#[derive(Debug)]
pub struct VllmChatResponse {
    pub id: Option<String>,
    pub choices: Vec<VllmChoice>,
}

/// One completion of a reply.
#[derive(Debug)]
pub struct VllmChoice {
    pub index: Option<usize>,
    pub message: VllmResponseMessage,
}

/// The text of a completion.
#[derive(Debug)]
pub struct VllmResponseMessage {
    pub role: Option<String>,
    pub content: String,
}

// ---------------------------------------------------------------------------
// The values that the messages stand for
// ---------------------------------------------------------------------------

/// The value of a `BoundingBox`.
#[verifier::ext_equal]
pub struct BoxValue {
    pub label: Seq<char>,
    pub xmin: u32,
    pub ymin: u32,
    pub xmax: u32,
    pub ymax: u32,
    pub text: Seq<char>,
}

impl View for BoundingBox {
    type V = BoxValue;

    open spec fn view(&self) -> BoxValue {
        BoxValue {
            label: self.label@,
            xmin: self.xmin,
            ymin: self.ymin,
            xmax: self.xmax,
            ymax: self.ymax,
            text: self.text@,
        }
    }
}

/// The values of a list of regions.
pub open spec fn boxes_of(list: Seq<BoundingBox>) -> Seq<BoxValue> {
    list.map_values(|b: BoundingBox| b@)
}

/// The value of a `PageResult`.
#[verifier::ext_equal]
pub struct PageValue {
    pub page_number: usize,
    pub image_data_uri: Option<Seq<char>>,
    pub markdown: Seq<char>,
    pub raw_text: Seq<char>,
    pub bboxes: Seq<BoxValue>,
}

impl View for PageResult {
    type V = PageValue;

    open spec fn view(&self) -> PageValue {
        PageValue {
            page_number: self.page_number,
            image_data_uri: text_opt(self.image_data_uri),
            markdown: self.markdown@,
            raw_text: self.raw_text@,
            bboxes: boxes_of(self.bboxes@),
        }
    }
}

/// The values of a list of pages.
pub open spec fn pages_of(list: Seq<PageResult>) -> Seq<PageValue> {
    list.map_values(|p: PageResult| p@)
}

/// The value of a `ProcessResponse`.
#[verifier::ext_equal]
pub struct ResponseValue {
    pub markdown: Seq<char>,
    pub total_pages: usize,
    pub batches_processed: usize,
    pub latency_ms: u128,
    pub document_type: Seq<char>,
    pub pages: Seq<PageValue>,
    pub bboxes: Seq<BoxValue>,
}

impl View for ProcessResponse {
    type V = ResponseValue;

    open spec fn view(&self) -> ResponseValue {
        ResponseValue {
            markdown: self.markdown@,
            total_pages: self.total_pages,
            batches_processed: self.batches_processed,
            latency_ms: self.latency_ms,
            document_type: self.document_type@,
            pages: pages_of(self.pages@),
            bboxes: boxes_of(self.bboxes@),
        }
    }
}

/// The value of an `OcrStreamEvent`.
#[verifier::ext_equal]
pub enum EventValue {
    PageStart { page_number: usize, total_pages: usize, image_data_uri: Option<Seq<char>> },
    Bbox {
        page_number: usize,
        box_id: int,
        label: Seq<char>,
        xmin: u32,
        ymin: u32,
        xmax: u32,
        ymax: u32,
    },
    Token { page_number: usize, box_id: int, text: Seq<char> },
    PageDone { page_number: usize, markdown: Seq<char> },
    Done { status: Seq<char>, total_pages: usize, latency_ms: u128 },
    Error { error: Seq<char> },
}

impl View for OcrStreamEvent {
    type V = EventValue;

    open spec fn view(&self) -> EventValue {
        match *self {
            OcrStreamEvent::PageStart { page_number, total_pages, image_data_uri } =>
                EventValue::PageStart {
                page_number,
                total_pages,
                image_data_uri: text_opt(image_data_uri),
            },
            OcrStreamEvent::Bbox { page_number, box_id, label, xmin, ymin, xmax, ymax } =>
                EventValue::Bbox {
                page_number,
                box_id: box_id as int,
                label: label@,
                xmin,
                ymin,
                xmax,
                ymax,
            },
            OcrStreamEvent::Token { page_number, box_id, text } => EventValue::Token {
                page_number,
                box_id: box_id as int,
                text: text@,
            },
            OcrStreamEvent::PageDone { page_number, markdown } => EventValue::PageDone {
                page_number,
                markdown: markdown@,
            },
            OcrStreamEvent::Done { status, total_pages, latency_ms } => EventValue::Done {
                status: status@,
                total_pages,
                latency_ms,
            },
            OcrStreamEvent::Error { error } => EventValue::Error { error: error@ },
        }
    }
}

/// The values of a list of events.
pub open spec fn events_of(list: Seq<OcrStreamEvent>) -> Seq<EventValue> {
    list.map_values(|e: OcrStreamEvent| e@)
}

/// The value of an `ErrorResponse`.
#[verifier::ext_equal]
pub struct ErrorValue {
    pub error: Seq<char>,
    pub details: Option<Seq<char>>,
}

impl View for ErrorResponse {
    type V = ErrorValue;

    open spec fn view(&self) -> ErrorValue {
        ErrorValue { error: self.error@, details: text_opt(self.details) }
    }
}

/// The value of a `VllmContentPart`.
#[verifier::ext_equal]
pub enum PartValue {
    Text(Seq<char>),
    Image(Seq<char>),
}

impl View for VllmContentPart {
    type V = PartValue;

    open spec fn view(&self) -> PartValue {
        match *self {
            VllmContentPart::Text { text } => PartValue::Text(text@),
            VllmContentPart::ImageUrl { image_url } => PartValue::Image(image_url.url@),
        }
    }
}

/// The values of a list of parts.
pub open spec fn parts_of(list: Seq<VllmContentPart>) -> Seq<PartValue> {
    list.map_values(|p: VllmContentPart| p@)
}

/// The value of a `VllmChatMessage`.
#[verifier::ext_equal]
pub struct MessageValue {
    pub role: Seq<char>,
    pub content: Seq<PartValue>,
}

impl View for VllmChatMessage {
    type V = MessageValue;

    open spec fn view(&self) -> MessageValue {
        MessageValue { role: self.role@, content: parts_of(self.content@) }
    }
}

/// The value of a `VllmChatRequest`.
#[verifier::ext_equal]
pub struct PromptValue {
    pub model: Seq<char>,
    pub messages: Seq<MessageValue>,
    pub max_tokens: usize,
    pub stream: bool,
    pub skip_special_tokens: bool,
    pub ngram_size: usize,
    pub window_size: usize,
}

impl View for VllmChatRequest {
    type V = PromptValue;

    open spec fn view(&self) -> PromptValue {
        PromptValue {
            model: self.model@,
            messages: self.messages@.map_values(|m: VllmChatMessage| m@),
            max_tokens: self.max_tokens,
            stream: self.stream,
            skip_special_tokens: self.skip_special_tokens,
            ngram_size: self.vllm_xargs.ngram_size,
            window_size: self.vllm_xargs.window_size,
        }
    }
}

// ---------------------------------------------------------------------------
// Copies
// ---------------------------------------------------------------------------

impl Clone for BoundingBox {
    fn clone(&self) -> (r: Self)
        ensures
            r == *self,
    {
        BoundingBox {
            label: self.label.clone(),
            xmin: self.xmin,
            ymin: self.ymin,
            xmax: self.xmax,
            ymax: self.ymax,
            text: self.text.clone(),
        }
    }
}

/// A copy of a list of regions.
pub fn copy_boxes(list: &Vec<BoundingBox>) -> (r: Vec<BoundingBox>)
    ensures
        r@ == list@,
{
    let mut r: Vec<BoundingBox> = Vec::new();
    let mut i: usize = 0;
    while i < list.len()
        invariant
            i <= list@.len(),
            r@ == list@.take(i as int),
        decreases list@.len() - i,
    {
        r.push(list[i].clone());
        proof {
            assert(list@.take(i + 1) =~= list@.take(i as int).push(list@[i as int]));
        }
        i += 1;
    }
    proof {
        assert(list@.take(list@.len() as int) =~= list@);
    }
    r
}

impl Clone for PageResult {
    fn clone(&self) -> (r: Self)
        ensures
            r@ == self@,
    {
        PageResult {
            page_number: self.page_number,
            image_data_uri: self.image_data_uri.clone(),
            markdown: self.markdown.clone(),
            raw_text: self.raw_text.clone(),
            bboxes: copy_boxes(&self.bboxes),
        }
    }
}

impl Clone for OcrStreamEvent {
    fn clone(&self) -> (r: Self)
        ensures
            r@ == self@,
    {
        match self {
            OcrStreamEvent::PageStart { page_number, total_pages, image_data_uri } =>
                OcrStreamEvent::PageStart {
                page_number: *page_number,
                total_pages: *total_pages,
                image_data_uri: image_data_uri.clone(),
            },
            OcrStreamEvent::Bbox { page_number, box_id, label, xmin, ymin, xmax, ymax } =>
                OcrStreamEvent::Bbox {
                page_number: *page_number,
                box_id: *box_id,
                label: label.clone(),
                xmin: *xmin,
                ymin: *ymin,
                xmax: *xmax,
                ymax: *ymax,
            },
            OcrStreamEvent::Token { page_number, box_id, text } => OcrStreamEvent::Token {
                page_number: *page_number,
                box_id: *box_id,
                text: text.clone(),
            },
            OcrStreamEvent::PageDone { page_number, markdown } => OcrStreamEvent::PageDone {
                page_number: *page_number,
                markdown: markdown.clone(),
            },
            OcrStreamEvent::Done { status, total_pages, latency_ms } => OcrStreamEvent::Done {
                status: status.clone(),
                total_pages: *total_pages,
                latency_ms: *latency_ms,
            },
            OcrStreamEvent::Error { error } => OcrStreamEvent::Error { error: error.clone() },
        }
    }
}

impl OcrStreamEvent {
    /// The name under which the event is sent.
    pub fn name(&self) -> (r: &'static str)
        ensures
            r@ == match self@ {
                EventValue::PageStart { .. } => "page_start"@,
                EventValue::Bbox { .. } => "bbox"@,
                EventValue::Token { .. } => "token"@,
                EventValue::PageDone { .. } => "page_done"@,
                EventValue::Done { .. } => "done"@,
                EventValue::Error { .. } => "error"@,
            },
    {
        match self {
            OcrStreamEvent::PageStart { .. } => "page_start",
            OcrStreamEvent::Bbox { .. } => "bbox",
            OcrStreamEvent::Token { .. } => "token",
            OcrStreamEvent::PageDone { .. } => "page_done",
            OcrStreamEvent::Done { .. } => "done",
            OcrStreamEvent::Error { .. } => "error",
        }
    }
}

} // verus!
