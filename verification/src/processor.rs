//! Reading a document: from the text of a client to the prompts for the
//! inference server, and from its replies to the response.

use vstd::prelude::*;

use crate::batches::{
    batched, batches_of, make_batches, page_boxes, page_uris, plan_batches, BatchPlan, PageBatch,
};
use crate::config::AppConfig;
use crate::encoding::{
    clean_and_decode_base64, compact, decodes, decoding_is_unique, payload, url_safe_complaint,
};
use crate::errors::GatewayError;
use crate::grounding::lemma_tags;
use crate::markup::{drop_refs, read_region, region_in, region_is_on_scale, without_refs, SCALE};
use crate::models::{
    boxes_of, copy_boxes, pages_of, BoundingBox, BoxValue, PageResult, PageValue, ProcessResponse,
    ResponseValue,
};
use crate::patterns::{
    are_offsets, lemma_tag_spans_within, slice, tag_spans, untagged, DetPattern, NumberPattern,
    RefPattern, DET_CLOSE, DET_OPEN, REF_CLOSE, REF_OPEN,
};
use crate::pdf::{detect_document_type, format_of, DocumentType, TypeValue};
use crate::text::{includes, lemma_first_at_none, trim, trimmed};

verus! {

broadcast use vstd::seq::group_seq_axioms;

// ---------------------------------------------------------------------------
// The text of the model
// ---------------------------------------------------------------------------

/// The text of the model without detection tags, with what stands between
/// reference tags, and without white space at its ends.
pub open spec fn sanitized(raw: Seq<char>) -> Seq<char> {
    trimmed(
        untagged(
            untagged(raw, DET_OPEN@, DET_CLOSE@, false, 0),
            REF_OPEN@,
            REF_CLOSE@,
            true,
            0,
        ),
    )
}

/// What stands between the tags of a stretch.
pub open spec fn inside_of(raw: Seq<char>, span: (int, int)) -> Seq<char> {
    raw.subrange(span.0 + DET_OPEN@.len(), span.1 - DET_CLOSE@.len())
}

/// The text that belongs to the stretch at place `i`: all up to the next one.
pub open spec fn text_behind(raw: Seq<char>, spans: Seq<(int, int)>, i: int) -> Seq<char> {
    raw.subrange(
        spans[i].1,
        if i + 1 < spans.len() {
            spans[i + 1].0
        } else {
            raw.len() as int
        },
    )
}

/// The box that the stretch at place `i` gives; none where it holds no region.
pub open spec fn box_at(raw: Seq<char>, spans: Seq<(int, int)>, i: int) -> Seq<BoxValue> {
    match region_in(inside_of(raw, spans[i])) {
        Some(r) => seq![
            BoxValue {
                label: r.label,
                xmin: r.xmin,
                ymin: r.ymin,
                xmax: r.xmax,
                ymax: r.ymax,
                text: trimmed(without_refs(text_behind(raw, spans, i))),
            },
        ],
        None => seq![],
    }
}

/// The boxes that the stretches from place `i` on give.
pub open spec fn boxes_from(raw: Seq<char>, spans: Seq<(int, int)>, i: int) -> Seq<BoxValue>
    decreases spans.len() - i,
{
    if i < 0 || i >= spans.len() {
        seq![]
    } else {
        box_at(raw, spans, i) + boxes_from(raw, spans, i + 1)
    }
}

/// The boxes in the text of the model.
pub open spec fn extracted(raw: Seq<char>) -> Seq<BoxValue> {
    boxes_from(raw, tag_spans(raw, DET_OPEN@, DET_CLOSE@, 0), 0)
}

/// Reads documents.
pub struct DocumentProcessor {
    config: AppConfig,
    det_regex: DetPattern,
    ref_regex: RefPattern,
    num_regex: NumberPattern,
}

impl DocumentProcessor {
    /// The settings.
    pub closed spec fn settings(self) -> AppConfig {
        self.config
    }

    /// A processor with the given settings.
    pub fn new(config: AppConfig) -> (r: Result<Self, GatewayError>)
        ensures
            r matches Ok(p) && p.settings() == config,
    {
        let det_regex = match DetPattern::new() {
            Ok(p) => p,
            Err(_) => return Err(GatewayError::Pattern { name: "det_regex".to_string() }),
        };
        let ref_regex = match RefPattern::new() {
            Ok(p) => p,
            Err(_) => return Err(GatewayError::Pattern { name: "ref_regex".to_string() }),
        };
        let num_regex = match NumberPattern::new() {
            Ok(p) => p,
            Err(_) => return Err(GatewayError::Pattern { name: "num_regex".to_string() }),
        };
        Ok(DocumentProcessor { config, det_regex, ref_regex, num_regex })
    }

    /// The settings.
    pub fn config(&self) -> (r: &AppConfig)
        ensures
            *r == self.settings(),
    {
        &self.config
    }

    /// Takes the detection tags out of the text of the model, and unwraps its
    /// reference tags.
    pub fn sanitize_ocr_markdown(&self, raw: &str) -> (r: String)
        ensures
            r@ == sanitized(raw@),
    {
        let stripped = self.det_regex.strip(raw);
        let unwrapped = self.ref_regex.unwrap_tags(&stripped);
        trim(&unwrapped)
    }

    /// Reads the boxes in the text of the model.
    pub fn extract_bboxes(&self, raw: &str) -> (r: Vec<BoundingBox>)
        ensures
            boxes_of(r@) == extracted(raw@),
            forall|i: int| 0 <= i < r@.len() ==> (#[trigger] r@[i]).label@.len() > 0,
    {
        let offsets = self.det_regex.spans(raw);
        let ghost spans = tag_spans(raw@, DET_OPEN@, DET_CLOSE@, 0);
        let mut r: Vec<BoundingBox> = Vec::new();
        let mut i: usize = 0;
        proof {
            assert(boxes_of(r@) + extracted(raw@) =~= extracted(raw@));
        }
        while i < offsets.len()
            invariant
                i <= offsets@.len(),
                spans == tag_spans(raw@, DET_OPEN@, DET_CLOSE@, 0),
                are_offsets(offsets@, raw@, spans),
                boxes_of(r@) + boxes_from(raw@, spans, i as int) == extracted(raw@),
                forall|k: int| 0 <= k < r@.len() ==> (#[trigger] r@[k]).label@.len() > 0,
            decreases offsets@.len() - i,
        {
            let ghost before = boxes_of(r@);
            let ghost found = box_at(raw@, spans, i as int);
            let ghost rest = boxes_from(raw@, spans, i + 1);
            if let Some(b) = self.read_box(raw, &offsets, i) {
                r.push(b);
            }
            proof {
                assert(boxes_of(r@) =~= before + found);
                assert(before + (found + rest) =~= before + found + rest);
            }
            i += 1;
        }
        proof {
            assert(boxes_of(r@) + seq![] =~= boxes_of(r@));
        }
        r
    }

    /// Reads the box of one stretch, given the bytes that all of them cover.
    fn read_box(&self, raw: &str, offsets: &Vec<(usize, usize)>, i: usize) -> (r: Option<
        BoundingBox,
    >)
        requires
            i < offsets@.len(),
            are_offsets(offsets@, raw@, tag_spans(raw@, DET_OPEN@, DET_CLOSE@, 0)),
        ensures
            match r {
                Some(b) => box_at(raw@, tag_spans(raw@, DET_OPEN@, DET_CLOSE@, 0), i as int)
                    == seq![b@] && b.label@.len() > 0,
                None => box_at(raw@, tag_spans(raw@, DET_OPEN@, DET_CLOSE@, 0), i as int)
                    == Seq::<BoxValue>::empty(),
            },
    {
        let ghost spans = tag_spans(raw@, DET_OPEN@, DET_CLOSE@, 0);
        let ghost span = spans[i as int];
        proof {
            lemma_tags();
            lemma_tag_spans_within(raw@, DET_OPEN@, DET_CLOSE@, 0);
        }
        let full = slice(raw, offsets[i].0, offsets[i].1, Ghost(span.0), Ghost(span.1));
        let inside = between_tags(full);
        proof {
            assert(inside@ =~= inside_of(raw@, span));
        }
        match read_region(&self.num_regex, &inside) {
            Some(region) => {
                let text = trim(&drop_refs(text_after(raw, offsets, i)));
                Some(
                    BoundingBox {
                        label: region.label,
                        xmin: region.xmin,
                        ymin: region.ymin,
                        xmax: region.xmax,
                        ymax: region.ymax,
                        text,
                    },
                )
            },
            None => None,
        }
    }
}

/// The text behind a stretch, up to the next one.
fn text_after<'a>(raw: &'a str, offsets: &Vec<(usize, usize)>, i: usize) -> (r: &'a str)
    requires
        i < offsets@.len(),
        are_offsets(offsets@, raw@, tag_spans(raw@, DET_OPEN@, DET_CLOSE@, 0)),
    ensures
        r@ == text_behind(raw@, tag_spans(raw@, DET_OPEN@, DET_CLOSE@, 0), i as int),
{
    let ghost spans = tag_spans(raw@, DET_OPEN@, DET_CLOSE@, 0);
    proof {
        lemma_tags();
        lemma_tag_spans_within(raw@, DET_OPEN@, DET_CLOSE@, 0);
    }
    if i < offsets.len() - 1 {
        proof {
            assert(spans[i as int].1 <= spans[i + 1].0);
        }
        slice(
            raw,
            offsets[i].1,
            offsets[i + 1].0,
            Ghost(spans[i as int].1),
            Ghost(spans[i + 1].0),
        )
    } else {
        proof {
            assert(raw@.take(raw@.len() as int) =~= raw@);
        }
        slice(
            raw,
            offsets[i].1,
            raw.as_bytes().len(),
            Ghost(spans[i as int].1),
            Ghost(raw@.len() as int),
        )
    }
}

/// What stands between the opening and the closing tag of a stretch.
fn between_tags(full: &str) -> (r: String)
    requires
        full@.len() >= DET_OPEN@.len() + DET_CLOSE@.len(),
    ensures
        r@ == full@.subrange(DET_OPEN@.len() as int, full@.len() - DET_CLOSE@.len()),
{
    proof {
        lemma_tags();
    }
    let chars = crate::text::chars_of(full);
    crate::text::string_of(&chars, 7, chars.len() - 8)
}

// ---------------------------------------------------------------------------
// The document
// ---------------------------------------------------------------------------

/// A document that can be read.
#[derive(Debug)]
pub enum Document {
    Image { mime: String, bytes: Vec<u8> },
    Pdf { bytes: Vec<u8> },
}

/// `r` is what opening the document in the text of a client gives: the document
/// where the text is the Base64 of a PDF or of an image, and why it is none
/// where it is not.
pub open spec fn is_opened(raw: Seq<char>, r: Result<Document, GatewayError>) -> bool {
    let text = compact(payload(raw));
    match r {
        Ok(Document::Image { mime, bytes }) => {
            &&& decodes(text, bytes@)
            &&& format_of(bytes@) == TypeValue::Image(mime@)
        },
        Ok(Document::Pdf { bytes }) => decodes(text, bytes@) && format_of(bytes@) is Pdf,
        Err(GatewayError::Base64 { detail }) => {
            &&& forall|b: Seq<u8>| !#[trigger] decodes(text, b)
            &&& detail@ == url_safe_complaint(text)
        },
        Err(GatewayError::UnsupportedFormat) => exists|b: Seq<u8>| #[trigger]
            decodes(text, b) && format_of(b) is Unknown,
        Err(_) => false,
    }
}

/// Opens the document in the text of a client.
pub fn open_document(raw_b64_file: &str) -> (r: Result<Document, GatewayError>)
    ensures
        is_opened(raw_b64_file@, r),
{
    let bytes = match clean_and_decode_base64(raw_b64_file) {
        Ok(b) => b,
        Err(e) => return Err(GatewayError::Base64 { detail: e.detail }),
    };
    match detect_document_type(&bytes) {
        DocumentType::Image(mime) => Ok(Document::Image { mime, bytes }),
        DocumentType::Pdf => Ok(Document::Pdf { bytes }),
        DocumentType::Unknown => Err(GatewayError::UnsupportedFormat),
    }
}

/// The response for an image.
pub open spec fn image_response_of(
    mime: Seq<char>,
    uri: Seq<char>,
    raw: Seq<char>,
    latency_ms: u128,
) -> ResponseValue {
    ResponseValue {
        markdown: sanitized(raw),
        total_pages: 1,
        batches_processed: 1,
        latency_ms,
        document_type: mime,
        pages: seq![
            PageValue {
                page_number: 1,
                image_data_uri: Some(uri),
                markdown: sanitized(raw),
                raw_text: raw,
                bboxes: extracted(raw),
            },
        ],
        bboxes: extracted(raw),
    }
}

/// How a PDF is read: the plan, and the batches of its pages.
#[derive(Debug)]
pub struct PdfJob {
    pub plan: BatchPlan,
    pub batches: Vec<PageBatch>,
}

impl PdfJob {
    /// The job reads the pages with the given images as a request asks for.
    pub open spec fn reads(
        self,
        uris: Seq<Seq<char>>,
        default_batch_size: usize,
        requested_batch_size: Option<usize>,
        requested_concurrency: Option<usize>,
    ) -> bool {
        &&& self.plan.fits(
            uris.len() as int,
            default_batch_size,
            requested_batch_size,
            requested_concurrency,
        )
        &&& batches_of(self.batches@) == batched(uris, self.plan.batch_size as int)
    }
}

impl DocumentProcessor {
    /// Makes the response for an image of what the model wrote.
    pub fn image_response(
        &self,
        mime: String,
        data_uri: String,
        raw: String,
        latency_ms: u128,
    ) -> (r: ProcessResponse)
        ensures
            r@ == image_response_of(mime@, data_uri@, raw@, latency_ms),
            r@.bboxes == page_boxes(r@.pages),
    {
        let markdown = self.sanitize_ocr_markdown(&raw);
        let bboxes = self.extract_bboxes(&raw);
        let page = PageResult {
            page_number: 1,
            image_data_uri: Some(data_uri),
            markdown: markdown.clone(),
            raw_text: raw,
            bboxes: copy_boxes(&bboxes),
        };
        let mut pages: Vec<PageResult> = Vec::new();
        pages.push(page);
        proof {
            assert(pages_of(pages@) =~= seq![page@]);
            assert(seq![page@].drop_last() =~= seq![]);
            assert(page_boxes(seq![page@].drop_last()) =~= seq![]);
            assert(page_boxes(seq![page@]) =~= page@.bboxes);
        }
        ProcessResponse {
            markdown,
            total_pages: 1,
            batches_processed: 1,
            latency_ms,
            document_type: mime,
            pages,
            bboxes,
        }
    }

    /// Plans how the pages of a PDF are read, given their images.
    pub fn plan_pdf(
        &self,
        images: &Vec<Vec<u8>>,
        requested_batch_size: Option<usize>,
        requested_concurrency: Option<usize>,
    ) -> (r: Result<PdfJob, GatewayError>)
        ensures
            match r {
                Ok(job) => images@.len() > 0 && job.reads(
                    page_uris(images@),
                    self.settings().default_batch_size,
                    requested_batch_size,
                    requested_concurrency,
                ),
                Err(e) => images@.len() == 0 && e is NoPageImages,
            },
    {
        if images.len() == 0 {
            return Err(GatewayError::NoPageImages);
        }
        let plan = plan_batches(
            images.len(),
            self.config.default_batch_size,
            requested_batch_size,
            requested_concurrency,
        );
        let batches = make_batches(images, plan.batch_size);
        Ok(PdfJob { plan, batches })
    }
}

// ---------------------------------------------------------------------------
// Laws
// ---------------------------------------------------------------------------

/// Every text opens in one way only: as the one document that it is the Base64
/// of, or with the one reason why it is none.
pub proof fn opening_is_unique(
    raw: Seq<char>,
    a: Result<Document, GatewayError>,
    b: Result<Document, GatewayError>,
)
    requires
        is_opened(raw, a),
        is_opened(raw, b),
    ensures
        match (a, b) {
            (Ok(Document::Image { mime: m, bytes: x }), Ok(Document::Image { mime: n, bytes: y }),)
            => m@ == n@ && x@ == y@,
            (Ok(Document::Pdf { bytes: x }), Ok(Document::Pdf { bytes: y })) => x@ == y@,
            (
                Err(GatewayError::Base64 { detail: x }),
                Err(GatewayError::Base64 { detail: y }),
            ) => x@ == y@,
            (Err(GatewayError::UnsupportedFormat), Err(GatewayError::UnsupportedFormat)) => true,
            _ => false,
        },
{
    let text = compact(payload(raw));
    assert forall|x: Seq<u8>, y: Seq<u8>| #[trigger]
        decodes(text, x) && #[trigger] decodes(text, y) implies x == y by {
        decoding_is_unique(text, x, y);
    }
}

/// Text without tags is sanitized by trimming it.
pub proof fn plain_text_is_only_trimmed(raw: Seq<char>)
    requires
        !includes(raw, DET_OPEN@),
        !includes(raw, REF_OPEN@),
    ensures
        sanitized(raw) == trimmed(raw),
        extracted(raw) == Seq::<BoxValue>::empty(),
{
    lemma_first_at_none(raw, DET_OPEN@, 0);
    lemma_first_at_none(raw, REF_OPEN@, 0);
    assert(raw.skip(0) =~= raw);
}

/// The corners of every box are in order and on the scale.
pub proof fn extracted_boxes_are_on_scale(raw: Seq<char>)
    ensures
        forall|n: int|
            0 <= n < extracted(raw).len() ==> {
                let b = #[trigger] extracted(raw)[n];
                b.xmin <= b.xmax <= SCALE && b.ymin <= b.ymax <= SCALE
            },
{
    lemma_boxes_on_scale(raw, tag_spans(raw, DET_OPEN@, DET_CLOSE@, 0), 0);
}

proof fn lemma_boxes_on_scale(raw: Seq<char>, spans: Seq<(int, int)>, i: int)
    requires
        0 <= i <= spans.len(),
    ensures
        forall|n: int|
            0 <= n < boxes_from(raw, spans, i).len() ==> {
                let b = #[trigger] boxes_from(raw, spans, i)[n];
                b.xmin <= b.xmax <= SCALE && b.ymin <= b.ymax <= SCALE
            },
    decreases spans.len() - i,
{
    if i < spans.len() {
        lemma_boxes_on_scale(raw, spans, i + 1);
        region_is_on_scale(inside_of(raw, spans[i]));
        let rest = boxes_from(raw, spans, i + 1);
        let first = box_at(raw, spans, i);
        let boxes = boxes_from(raw, spans, i);
        assert(boxes =~= first + rest);
        assert forall|n: int| 0 <= n < boxes.len() implies {
            let b = #[trigger] boxes[n];
            b.xmin <= b.xmax <= SCALE && b.ymin <= b.ymax <= SCALE
        } by {
            if n >= first.len() {
                assert(boxes[n] == rest[n - first.len()]);
            }
        }
    }
}

} // verus!
