//! The pages of a PDF in batches: how many pages a prompt holds, how many
//! prompts are in flight, and how the replies make up the response.

use vstd::prelude::*;

use crate::encoding::{data_uri, data_uri_of};
use crate::errors::GatewayError;
use crate::models::{
    boxes_of, copy_boxes, pages_of, BoundingBox, BoxValue, PageResult, PageValue, ProcessResponse,
    ResponseValue,
};
use crate::processor::{extracted, sanitized, DocumentProcessor};
use crate::text::{join, joined, texts};

verus! {

broadcast use vstd::seq::group_seq_axioms;

// ---------------------------------------------------------------------------
// The plan
// ---------------------------------------------------------------------------

/// `n`, but `low` at least and `high` at most.
pub open spec fn clamped(n: usize, low: usize, high: usize) -> usize {
    if n < low {
        low
    } else if n > high {
        high
    } else {
        n
    }
}

/// Pages per prompt: what the request says or else the default, 1 at least and
/// 10 at most.
pub open spec fn batch_size_for(requested: Option<usize>, default: usize) -> usize {
    match requested {
        Some(n) => clamped(n, 1, 10),
        None => clamped(default, 1, 10),
    }
}

/// The number of batches of `size` pages that it takes for `total` pages.
pub open spec fn batches_for(total: int, size: int) -> int {
    (total + size - 1) / size
}

/// Prompts in flight at a time: what the request says or else 1, 1 at least
/// and 8 at most, no more than there are batches, and 1 where all pages are in
/// one batch.
pub open spec fn concurrency_for(total: int, size: int, requested: Option<usize>) -> int {
    if size >= total {
        1
    } else {
        let wanted = match requested {
            Some(n) => clamped(n, 1, 8),
            None => 1,
        };
        if wanted <= batches_for(total, size) {
            wanted as int
        } else {
            batches_for(total, size)
        }
    }
}

/// How the pages of a PDF are read.
#[derive(Debug)]
pub struct BatchPlan {
    pub total_pages: usize,
    pub batch_size: usize,
    pub num_batches: usize,
    pub concurrency: usize,
}

impl BatchPlan {
    /// The plan is the one for what the request asks for.
    pub open spec fn fits(
        self,
        total_pages: int,
        default_batch_size: usize,
        requested_batch_size: Option<usize>,
        requested_concurrency: Option<usize>,
    ) -> bool {
        let size = batch_size_for(requested_batch_size, default_batch_size);
        &&& self.total_pages == total_pages
        &&& self.batch_size == size
        &&& self.num_batches == batches_for(total_pages, size as int)
        &&& self.concurrency == concurrency_for(total_pages, size as int, requested_concurrency)
    }
}

fn clamp(n: usize, low: usize, high: usize) -> (r: usize)
    ensures
        r == clamped(n, low, high),
{
    if n < low {
        low
    } else if n > high {
        high
    } else {
        n
    }
}

/// Plans how the pages of a PDF are read.
pub fn plan_batches(
    total_pages: usize,
    default_batch_size: usize,
    requested_batch_size: Option<usize>,
    requested_concurrency: Option<usize>,
) -> (r: BatchPlan)
    ensures
        r.fits(total_pages as int, default_batch_size, requested_batch_size, requested_concurrency),
{
    let batch_size: usize = match requested_batch_size {
        Some(n) => clamp(n, 1, 10),
        None => clamp(default_batch_size, 1, 10),
    };
    proof {
        lemma_batches(total_pages as int, batch_size as int);
    }
    let full: usize = total_pages / batch_size;
    let num_batches: usize = if total_pages % batch_size == 0 {
        full
    } else {
        full + 1
    };
    let concurrency: usize = if batch_size >= total_pages {
        1
    } else {
        let wanted: usize = match requested_concurrency {
            Some(n) => clamp(n, 1, 8),
            None => 1,
        };
        if wanted <= num_batches {
            wanted
        } else {
            num_batches
        }
    };
    BatchPlan { total_pages, batch_size, num_batches, concurrency }
}

/// The batches are full but for the last one, which holds the rest.
pub proof fn lemma_batches(total: int, size: int)
    requires
        0 <= total,
        0 < size,
    ensures
        batches_for(total, size) == total / size + if total % size == 0 {
            0int
        } else {
            1int
        },
        0 <= batches_for(total, size) <= total,
        total / size < total || total % size == 0,
        batches_for(total, size) * size >= total,
        total > 0 ==> (batches_for(total, size) - 1) * size < total,
{
    let q = total / size;
    let r = total % size;
    assert(total == q * size + r && 0 <= r < size && 0 <= q) by (nonlinear_arith)
        requires
            q == total / size,
            r == total % size,
            0 <= total,
            0 < size,
    ;
    if r == 0 {
        assert((total + size - 1) / size == q) by (nonlinear_arith)
            requires
                total == q * size,
                0 < size,
        ;
        assert(q <= q * size) by (nonlinear_arith)
            requires
                0 <= q,
                0 < size,
        ;
        assert((q - 1) * size == q * size - size) by (nonlinear_arith);
    } else {
        assert((total + size - 1) / size == q + 1) by (nonlinear_arith)
            requires
                total == q * size + r,
                0 < r < size,
        ;
        assert(q <= q * size) by (nonlinear_arith)
            requires
                0 <= q,
                0 < size,
        ;
        assert((q + 1) * size == q * size + size) by (nonlinear_arith);
    }
}

/// The greatest length of a reply, in tokens, to a prompt with `pages` pages.
pub open spec fn max_tokens_for(pages: int) -> usize {
    if pages > 1 {
        16384
    } else {
        8192
    }
}

/// The window in which the model may not repeat itself: short for an image,
/// long for the pages of a PDF.
pub const IMAGE_WINDOW: usize = 128;

pub const PDF_WINDOW: usize = 1024;

// ---------------------------------------------------------------------------
// The batches
// ---------------------------------------------------------------------------

/// Pages that go into one prompt.
#[derive(Debug)]
pub struct PageBatch {
    first_page: usize,
    data_uris: Vec<String>,
}

/// The value of a `PageBatch`.
#[verifier::ext_equal]
pub struct BatchValue {
    /// The number of the first page.
    pub first_page: int,
    /// The images of the pages as data URIs.
    pub uris: Seq<Seq<char>>,
}

impl View for PageBatch {
    type V = BatchValue;

    closed spec fn view(&self) -> BatchValue {
        BatchValue { first_page: self.first_page as int, uris: texts(self.data_uris@) }
    }
}

impl PageBatch {
    #[verifier::type_invariant]
    spec fn wf(self) -> bool {
        &&& 1 <= self.first_page
        &&& self.first_page + self.data_uris@.len() <= usize::MAX + 1
        &&& self.data_uris@.len() > 0
    }

    /// The number of the first page.
    pub fn first_page(&self) -> (r: usize)
        ensures
            r == self@.first_page,
    {
        self.first_page
    }

    /// The images of the pages as data URIs.
    pub fn data_uris(&self) -> (r: &Vec<String>)
        ensures
            texts(r@) == self@.uris,
    {
        &self.data_uris
    }

    /// The greatest length of the reply, in tokens.
    pub fn max_tokens(&self) -> (r: usize)
        ensures
            r == max_tokens_for(self@.uris.len() as int),
    {
        if self.data_uris.len() > 1 {
            16384
        } else {
            8192
        }
    }
}

/// The page images as data URIs.
pub open spec fn page_uris(images: Seq<Vec<u8>>) -> Seq<Seq<char>> {
    images.map_values(|image: Vec<u8>| data_uri_of("image/png"@, image@))
}

/// The end of the batch at place `k`.
pub open spec fn batch_end(k: int, size: int, total: int) -> int {
    if (k + 1) * size <= total {
        (k + 1) * size
    } else {
        total
    }
}

/// The batch at place `k` of pages with the given images.
pub open spec fn batch_at(uris: Seq<Seq<char>>, size: int, k: int) -> BatchValue {
    BatchValue {
        first_page: k * size + 1,
        uris: uris.subrange(k * size, batch_end(k, size, uris.len() as int)),
    }
}

/// The values of a list of batches.
pub open spec fn batches_of(list: Seq<PageBatch>) -> Seq<BatchValue> {
    list.map_values(|b: PageBatch| b@)
}

/// The pages with the given images, in batches.
pub open spec fn batched(uris: Seq<Seq<char>>, size: int) -> Seq<BatchValue> {
    Seq::new(
        batches_for(uris.len() as int, size) as nat,
        |k: int| batch_at(uris, size, k),
    )
}

fn encode_pages(images: &Vec<Vec<u8>>, from: usize, to: usize) -> (r: Vec<String>)
    requires
        from <= to <= images@.len(),
    ensures
        texts(r@) == page_uris(images@).subrange(from as int, to as int),
{
    let mut r: Vec<String> = Vec::new();
    let mut i: usize = from;
    let ghost all = page_uris(images@);
    proof {
        assert(texts(r@) =~= all.subrange(from as int, from as int));
    }
    while i < to
        invariant
            all == page_uris(images@),
            from <= i <= to <= images@.len(),
            texts(r@) == all.subrange(from as int, i as int),
        decreases to - i,
    {
        let ghost before = r@;
        r.push(data_uri("image/png", &images[i]));
        proof {
            assert(texts(r@) =~= texts(before).push(all[i as int]));
            assert(all.subrange(from as int, i + 1) =~= all.subrange(from as int, i as int).push(
                all[i as int],
            ));
        }
        i += 1;
    }
    r
}

/// Puts the page images into batches of `size` pages, in order.
pub fn make_batches(images: &Vec<Vec<u8>>, size: usize) -> (r: Vec<PageBatch>)
    requires
        0 < size,
    ensures
        batches_of(r@) == batched(page_uris(images@), size as int),
{
    let mut r: Vec<PageBatch> = Vec::new();
    let mut at: usize = 0;
    let ghost total = images.len() as int;
    let ghost uris = page_uris(images@);
    proof {
        lemma_batches(total, size as int);
        assert(0 * size == 0) by (nonlinear_arith);
    }
    while at < images.len()
        invariant
            0 < size,
            total == images@.len() <= usize::MAX,
            uris == page_uris(images@),
            at <= total,
            r@.len() <= batches_for(total, size as int),
            at == total ==> r@.len() == batches_for(total, size as int),
            at < total ==> at == r@.len() * size,
            batches_of(r@) =~= Seq::new(r@.len(), |k: int| batch_at(uris, size as int, k)),
        decreases total - at,
    {
        let ghost k = r@.len() as int;
        let ghost before = r@;
        let end: usize = if images.len() - at <= size {
            images.len()
        } else {
            at + size
        };
        proof {
            lemma_batches(total, size as int);
            assert((k + 1) * size == k * size + size) by (nonlinear_arith);
            assert(end == batch_end(k, size as int, total));
            if end == total {
                assert(k + 1 == batches_for(total, size as int)) by (nonlinear_arith)
                    requires
                        k * size < total,
                        total <= (k + 1) * size,
                        0 < size,
                        (batches_for(total, size as int) - 1) * size < total,
                        batches_for(total, size as int) * size >= total,
                ;
            } else {
                assert(k + 1 < batches_for(total, size as int)) by (nonlinear_arith)
                    requires
                        (k + 1) * size < total,
                        0 < size,
                        batches_for(total, size as int) * size >= total,
                ;
            }
        }
        let data_uris = encode_pages(images, at, end);
        proof {
            assert(data_uris@.len() == texts(data_uris@).len());
        }
        r.push(PageBatch { first_page: at + 1, data_uris });
        proof {
            assert(r@.last()@ =~= batch_at(uris, size as int, k));
            assert(batches_of(r@) =~= batches_of(before).push(r@.last()@));
        }
        at = end;
    }
    r
}

// ---------------------------------------------------------------------------
// The replies
// ---------------------------------------------------------------------------

/// What was read in a batch.
#[derive(Debug)]
pub struct BatchOutcome {
    batch: PageBatch,
    raw: String,
    markdown: String,
    bboxes: Vec<BoundingBox>,
}

/// The value of a `BatchOutcome`.
#[verifier::ext_equal]
pub struct OutcomeValue {
    pub batch: BatchValue,
    /// What the model wrote.
    pub raw: Seq<char>,
}

impl View for BatchOutcome {
    type V = OutcomeValue;

    closed spec fn view(&self) -> OutcomeValue {
        OutcomeValue { batch: self.batch@, raw: self.raw@ }
    }
}

impl BatchOutcome {
    #[verifier::type_invariant]
    spec fn wf(self) -> bool {
        &&& self.markdown@ == sanitized(self.raw@)
        &&& boxes_of(self.bboxes@) == extracted(self.raw@)
    }

    /// What the model wrote for a batch of pages.
    pub fn new(processor: &DocumentProcessor, batch: PageBatch, raw: String) -> (r: Self)
        ensures
            r@ == (OutcomeValue { batch: batch@, raw: raw@ }),
    {
        let markdown = processor.sanitize_ocr_markdown(&raw);
        let bboxes = processor.extract_bboxes(&raw);
        BatchOutcome { batch, raw, markdown, bboxes }
    }
}

/// The pages of a batch. The model writes one text for all of them, which does
/// not say on which of them a box lies: the first page lists the boxes, so that
/// each is listed once.
pub open spec fn pages_in(o: OutcomeValue) -> Seq<PageValue> {
    Seq::new(
        o.batch.uris.len(),
        |k: int|
            PageValue {
                page_number: (o.batch.first_page + k) as usize,
                image_data_uri: Some(o.batch.uris[k]),
                markdown: sanitized(o.raw),
                raw_text: o.raw,
                bboxes: if k == 0 {
                    extracted(o.raw)
                } else {
                    seq![]
                },
            },
    )
}

/// The pages of all batches in order.
pub open spec fn all_pages(list: Seq<OutcomeValue>) -> Seq<PageValue>
    decreases list.len(),
{
    if list.len() == 0 {
        seq![]
    } else {
        all_pages(list.drop_last()) + pages_in(list.last())
    }
}

/// The boxes that the pages list, one page behind the other.
pub open spec fn page_boxes(pages: Seq<PageValue>) -> Seq<BoxValue>
    decreases pages.len(),
{
    if pages.len() == 0 {
        seq![]
    } else {
        page_boxes(pages.drop_last()) + pages.last().bboxes
    }
}

/// The boxes of all batches in order.
pub open spec fn all_boxes(list: Seq<OutcomeValue>) -> Seq<BoxValue>
    decreases list.len(),
{
    if list.len() == 0 {
        seq![]
    } else {
        all_boxes(list.drop_last()) + extracted(list.last().raw)
    }
}

/// The texts of the batches in order, but for those that are empty.
pub open spec fn all_texts(list: Seq<OutcomeValue>) -> Seq<Seq<char>>
    decreases list.len(),
{
    if list.len() == 0 {
        seq![]
    } else {
        let before = all_texts(list.drop_last());
        let text = sanitized(list.last().raw);
        if text.len() == 0 {
            before
        } else {
            before.push(text)
        }
    }
}

/// Stands between the texts of two batches.
pub const BATCH_SEPARATOR: &'static str = "\n\n---\n\n";

/// The response for a PDF, of what was read in its batches.
pub open spec fn pdf_response_of(
    list: Seq<OutcomeValue>,
    total_pages: usize,
    latency_ms: u128,
) -> ResponseValue {
    ResponseValue {
        markdown: joined(all_texts(list), BATCH_SEPARATOR@),
        total_pages,
        batches_processed: list.len() as usize,
        latency_ms,
        document_type: "application/pdf"@,
        pages: all_pages(list),
        bboxes: all_boxes(list),
    }
}

/// What was read where every batch was.
pub open spec fn outcomes_of(list: Seq<Result<BatchOutcome, GatewayError>>) -> Seq<OutcomeValue> {
    list.map_values(|r: Result<BatchOutcome, GatewayError>| r->Ok_0@)
}

fn push_pages(pages: &mut Vec<PageResult>, outcome: &BatchOutcome)
    ensures
        pages_of(final(pages)@) == pages_of(old(pages)@) + pages_in(outcome@),
{
    proof {
        use_type_invariant(outcome);
        use_type_invariant(&outcome.batch);
        assert(texts(outcome.batch.data_uris@).len() == outcome.batch.data_uris@.len());
    }
    let ghost start = pages_of(pages@);
    let ghost all = pages_in(outcome@);
    let mut k: usize = 0;
    proof {
        assert(start + all.take(0) =~= start);
    }
    while k < outcome.batch.data_uris.len()
        invariant
            k <= outcome.batch.data_uris@.len(),
            1 <= outcome.batch.first_page,
            outcome.batch.first_page + outcome.batch.data_uris@.len() <= usize::MAX + 1,
            outcome.markdown@ == sanitized(outcome.raw@),
            boxes_of(outcome.bboxes@) == extracted(outcome.raw@),
            all == pages_in(outcome@),
            pages_of(pages@) == start + all.take(k as int),
        decreases outcome.batch.data_uris@.len() - k,
    {
        let ghost before = pages@;
        let bboxes = if k == 0 {
            copy_boxes(&outcome.bboxes)
        } else {
            Vec::new()
        };
        pages.push(
            PageResult {
                page_number: outcome.batch.first_page + k,
                image_data_uri: Some(outcome.batch.data_uris[k].clone()),
                markdown: outcome.markdown.clone(),
                raw_text: outcome.raw.clone(),
                bboxes,
            },
        );
        proof {
            assert(boxes_of(bboxes@) =~= all[k as int].bboxes);
            assert(pages@.last()@ =~= all[k as int]);
            assert(pages_of(pages@) =~= pages_of(before).push(pages@.last()@));
            assert(start + all.take(k + 1) =~= (start + all.take(k as int)).push(all[k as int]));
        }
        k += 1;
    }
    proof {
        assert(all.take(all.len() as int) =~= all);
    }
}

fn push_boxes(boxes: &mut Vec<BoundingBox>, more: &Vec<BoundingBox>)
    ensures
        boxes_of(final(boxes)@) == boxes_of(old(boxes)@) + boxes_of(more@),
{
    let ghost start = boxes@;
    let mut k: usize = 0;
    proof {
        assert(start + more@.take(0) =~= start);
    }
    while k < more.len()
        invariant
            k <= more@.len(),
            boxes@ == start + more@.take(k as int),
        decreases more@.len() - k,
    {
        boxes.push(more[k].clone());
        proof {
            assert(start + more@.take(k + 1) =~= (start + more@.take(k as int)).push(
                more@[k as int],
            ));
        }
        k += 1;
    }
    proof {
        assert(more@.take(more@.len() as int) =~= more@);
        assert(boxes_of(start + more@) =~= boxes_of(start) + boxes_of(more@));
    }
}

/// Makes the response for a PDF of what was read in its batches; where a batch
/// failed, the first one that did makes the response fail.
pub fn pdf_response(
    outcomes: Vec<Result<BatchOutcome, GatewayError>>,
    total_pages: usize,
    latency_ms: u128,
) -> (r: Result<ProcessResponse, GatewayError>)
    ensures
        match r {
            Ok(response) => {
                &&& forall|i: int| 0 <= i < outcomes@.len() ==> #[trigger] outcomes@[i] is Ok
                &&& response@ == pdf_response_of(outcomes_of(outcomes@), total_pages, latency_ms)
                &&& response@.bboxes == page_boxes(response@.pages)
            },
            Err(e) => exists|i: int|
                {
                    &&& 0 <= i < outcomes@.len()
                    &&& #[trigger] outcomes@[i] == Err::<BatchOutcome, GatewayError>(e)
                    &&& forall|j: int| 0 <= j < i ==> #[trigger] outcomes@[j] is Ok
                },
        },
{
    let mut pages: Vec<PageResult> = Vec::new();
    let mut markdowns: Vec<String> = Vec::new();
    let mut bboxes: Vec<BoundingBox> = Vec::new();
    let batches_processed: usize = outcomes.len();
    let ghost all = outcomes@;
    let ghost values = outcomes_of(all);
    proof {
        assert(values.take(0) =~= seq![]);
        assert(pages_of(pages@) =~= seq![]);
        assert(texts(markdowns@) =~= seq![]);
        assert(boxes_of(bboxes@) =~= seq![]);
    }
    for outcome in it: outcomes
        invariant
            it.seq() == all,
            values == outcomes_of(all),
            forall|i: int| 0 <= i < it.index() ==> #[trigger] all[i] is Ok,
            pages_of(pages@) == all_pages(values.take(it.index() as int)),
            texts(markdowns@) == all_texts(values.take(it.index() as int)),
            boxes_of(bboxes@) == all_boxes(values.take(it.index() as int)),
            forall|i: int|
                0 <= i < it.index() ==> (#[trigger] values[i]).batch.uris.len() > 0,
    {
        let ghost n = it.index() as int;
        match outcome {
            Ok(o) => {
                proof {
                    use_type_invariant(&o);
                    use_type_invariant(&o.batch);
                    assert(texts(o.batch.data_uris@).len() == o.batch.data_uris@.len());
                    assert(all[n] == Ok::<BatchOutcome, GatewayError>(o));
                    assert(values[n] == o@);
                    assert(values.take(n + 1).drop_last() =~= values.take(n));
                    assert(values.take(n + 1).last() == o@);
                }
                let ghost before = markdowns@;
                if !o.markdown.as_str().is_empty() {
                    markdowns.push(o.markdown.clone());
                    proof {
                        assert(texts(markdowns@) =~= texts(before).push(o.markdown@));
                    }
                }
                push_pages(&mut pages, &o);
                push_boxes(&mut bboxes, &o.bboxes);
            },
            Err(e) => {
                proof {
                    assert(all[n] == Err::<BatchOutcome, GatewayError>(e));
                }
                return Err(e);
            },
        }
    }
    proof {
        assert(values.take(values.len() as int) =~= values);
        response_lists_every_box_once(values);
    }
    let markdown = join(&markdowns, BATCH_SEPARATOR);
    Ok(
        ProcessResponse {
            markdown,
            total_pages,
            batches_processed,
            latency_ms,
            document_type: "application/pdf".to_string(),
            pages,
            bboxes,
        },
    )
}

// ---------------------------------------------------------------------------
// Laws
// ---------------------------------------------------------------------------

/// The batches hold every page once, in order.
pub proof fn batches_hold_every_page_in_order(uris: Seq<Seq<char>>, size: int)
    requires
        0 < size,
    ensures
        batched(uris, size).map_values(|b: BatchValue| b.uris).flatten() == uris,
{
    let n = batches_for(uris.len() as int, size);
    lemma_batches(uris.len() as int, size);
    lemma_batches_hold(uris, size, n);
    assert(batched(uris, size).take(n) =~= batched(uris, size));
    assert(uris.take(uris.len() as int) =~= uris);
}

/// The boxes of the response for a PDF are the boxes of its pages, one page
/// behind the other: each box is listed once, on a page of its batch.
pub proof fn response_lists_every_box_once(list: Seq<OutcomeValue>)
    requires
        forall|i: int| 0 <= i < list.len() ==> (#[trigger] list[i]).batch.uris.len() > 0,
    ensures
        page_boxes(all_pages(list)) == all_boxes(list),
    decreases list.len(),
{
    if list.len() > 0 {
        let before = list.drop_last();
        assert forall|i: int| 0 <= i < before.len() implies (
        #[trigger] before[i]).batch.uris.len() > 0 by {
            assert(before[i] == list[i]);
        }
        response_lists_every_box_once(before);
        let last = list.last();
        let pages = pages_in(last);
        lemma_page_boxes_concat(all_pages(before), pages);
        lemma_batch_boxes(last, pages.len() as int);
        assert(pages.take(pages.len() as int) =~= pages);
    }
}

proof fn lemma_page_boxes_concat(a: Seq<PageValue>, b: Seq<PageValue>)
    ensures
        page_boxes(a + b) == page_boxes(a) + page_boxes(b),
    decreases b.len(),
{
    if b.len() == 0 {
        assert(a + b =~= a);
        assert(page_boxes(a) + page_boxes(b) =~= page_boxes(a));
    } else {
        lemma_page_boxes_concat(a, b.drop_last());
        assert((a + b).drop_last() =~= a + b.drop_last());
        assert(page_boxes(a + b) =~= page_boxes(a) + page_boxes(b));
    }
}

proof fn lemma_batch_boxes(o: OutcomeValue, n: int)
    requires
        0 < n <= o.batch.uris.len(),
    ensures
        page_boxes(pages_in(o).take(n)) == extracted(o.raw),
    decreases n,
{
    let pages = pages_in(o).take(n);
    assert(pages.drop_last() =~= pages_in(o).take(n - 1));
    assert(pages.last() == pages_in(o)[n - 1]);
    if n == 1 {
        assert(pages.drop_last() =~= seq![]);
        assert(page_boxes(pages.drop_last()) =~= seq![]);
        assert(page_boxes(pages) =~= extracted(o.raw));
    } else {
        lemma_batch_boxes(o, n - 1);
        assert(page_boxes(pages) =~= extracted(o.raw));
    }
}

/// A prompt holds 1 to 10 pages.
pub proof fn batch_size_is_in_bounds(requested: Option<usize>, default: usize)
    ensures
        1 <= batch_size_for(requested, default) <= 10,
{
}

/// The prompts in flight are 1 to 8, and no more than there are batches.
pub proof fn concurrency_is_in_bounds(total: int, size: int, requested: Option<usize>)
    requires
        0 < total,
        0 < size,
    ensures
        1 <= concurrency_for(total, size, requested) <= 8,
        concurrency_for(total, size, requested) <= batches_for(total, size),
{
    lemma_batches(total, size);
    assert(batches_for(total, size) >= 1) by (nonlinear_arith)
        requires
            batches_for(total, size) * size >= total,
            0 < total,
            0 < size,
    ;
}

proof fn lemma_batches_hold(uris: Seq<Seq<char>>, size: int, n: int)
    requires
        0 < size,
        0 <= n <= batches_for(uris.len() as int, size),
    ensures
        batched(uris, size).take(n).map_values(|b: BatchValue| b.uris).flatten() == uris.take(
            if n * size <= uris.len() {
                n * size
            } else {
                uris.len() as int
            },
        ),
    decreases n,
{
    let parts = batched(uris, size).take(n).map_values(|b: BatchValue| b.uris);
    let total = uris.len() as int;
    if n == 0 {
        assert(0 * size == 0) by (nonlinear_arith);
        assert(parts.flatten() =~= uris.take(0));
    } else {
        lemma_batches_hold(uris, size, n - 1);
        lemma_batches(total, size);
        let before = batched(uris, size).take(n - 1).map_values(|b: BatchValue| b.uris);
        assert(parts.drop_last() =~= before);
        assert(parts =~= before.push(batch_at(uris, size, n - 1).uris));
        parts.lemma_flatten_and_flatten_alt_are_equivalent();
        before.lemma_flatten_and_flatten_alt_are_equivalent();
        assert((n - 1) * size <= total) by (nonlinear_arith)
            requires
                n <= batches_for(total, size),
                0 < size,
                total > 0 ==> (batches_for(total, size) - 1) * size < total,
                batches_for(total, size) <= total,
                1 <= n,
        ;
        assert(n * size == (n - 1) * size + size) by (nonlinear_arith);
        assert(parts.flatten() == before.flatten() + parts.last());
        assert(uris.take((n - 1) * size) + uris.subrange(
            (n - 1) * size,
            batch_end(n - 1, size, total),
        ) =~= uris.take(batch_end(n - 1, size, total)));
    }
}

/// A page of the response: numbered from 1 in the order of the document, with
/// its own image and the text of its batch.
pub open spec fn is_page_of(
    page: PageValue,
    uris: Seq<Seq<char>>,
    size: int,
    list: Seq<OutcomeValue>,
    i: int,
) -> bool {
    &&& page.page_number == i + 1
    &&& page.image_data_uri == Some(uris[i])
    &&& page.raw_text == list[i / size].raw
}

/// The response for a PDF holds every page once, in order.
pub proof fn response_holds_every_page_in_order(
    uris: Seq<Seq<char>>,
    size: int,
    list: Seq<OutcomeValue>,
)
    requires
        0 < size,
        uris.len() <= usize::MAX,
        list.map_values(|o: OutcomeValue| o.batch) == batched(uris, size),
    ensures
        all_pages(list).len() == uris.len(),
        forall|i: int|
            0 <= i < uris.len() ==> is_page_of(#[trigger] all_pages(list)[i], uris, size, list, i),
{
    lemma_batches(uris.len() as int, size);
    let of = list.map_values(|o: OutcomeValue| o.batch);
    assert(list.len() == of.len());
    assert forall|k: int| 0 <= k < list.len() implies (#[trigger] list[k]).batch == batch_at(
        uris,
        size,
        k,
    ) by {
        assert(of[k] == list[k].batch);
    }
    lemma_pages(uris, size, list, list.len() as int);
    assert(list.take(list.len() as int) =~= list);
}

proof fn lemma_pages(uris: Seq<Seq<char>>, size: int, list: Seq<OutcomeValue>, n: int)
    requires
        0 < size,
        uris.len() <= usize::MAX,
        list.len() == batches_for(uris.len() as int, size),
        forall|k: int|
            0 <= k < list.len() ==> (#[trigger] list[k]).batch == batch_at(uris, size, k),
        0 <= n <= list.len(),
    ensures
        all_pages(list.take(n)).len() == if n * size <= uris.len() {
            n * size
        } else {
            uris.len() as int
        },
        forall|i: int|
            0 <= i < all_pages(list.take(n)).len() ==> is_page_of(
                #[trigger] all_pages(list.take(n))[i],
                uris,
                size,
                list,
                i,
            ),
    decreases n,
{
    let total = uris.len() as int;
    if n == 0 {
        assert(0 * size == 0) by (nonlinear_arith);
    } else {
        lemma_pages(uris, size, list, n - 1);
        lemma_batches(total, size);
        assert(list.take(n).drop_last() =~= list.take(n - 1));
        assert(list.take(n).last() == list[n - 1]);
        assert((n - 1) * size <= total) by (nonlinear_arith)
            requires
                n <= batches_for(total, size),
                0 < size,
                total > 0 ==> (batches_for(total, size) - 1) * size < total,
                batches_for(total, size) <= total,
                1 <= n,
        ;
        assert(n * size == (n - 1) * size + size) by (nonlinear_arith);
        let start = (n - 1) * size;
        let before = all_pages(list.take(n - 1));
        let last = pages_in(list[n - 1]);
        let pages = all_pages(list.take(n));
        assert(pages =~= before + last);
        assert(last.len() == batch_end(n - 1, size, total) - start);
        assert forall|i: int| 0 <= i < pages.len() implies is_page_of(
            #[trigger] pages[i],
            uris,
            size,
            list,
            i,
        ) by {
            if i < start {
                assert(pages[i] == before[i]);
            } else {
                assert(pages[i] == last[i - start]);
                assert(i / size == n - 1) by (nonlinear_arith)
                    requires
                        (n - 1) * size <= i,
                        i < (n - 1) * size + size,
                        0 < size,
                ;
            }
        }
    }
}

} // verus!
