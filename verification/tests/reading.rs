use ocr_gateway::batches::{make_batches, pdf_response, plan_batches, BatchOutcome};
use ocr_gateway::config::{AppConfig, Environment};
use ocr_gateway::errors::GatewayError;
use ocr_gateway::models::{
    OcrStreamEvent, VllmChatResponse, VllmChoice, VllmContentPart, VllmResponseMessage,
};
use ocr_gateway::processor::{DocumentProcessor, PdfJob};
use ocr_gateway::stream::{
    finish_image, finish_pdf, start_reading, start_stream, BatchStream, Phase, StreamInput,
    StreamStart,
};
use ocr_gateway::vllm::{
    completion_text, delta_content, endpoint, prompt, succeeded, EventLines,
};

fn processor() -> DocumentProcessor {
    DocumentProcessor::new(AppConfig::from_env(&Environment {
        port: None,
        vllm_base_url: Some("http://gpu:8000/".to_string()),
        model_id: None,
        pdf_max_size: None,
        default_batch_size: None,
        request_timeout_secs: None,
    }))
    .unwrap()
}

fn show(events: &[OcrStreamEvent]) -> Vec<String> {
    events
        .iter()
        .map(|e| match e {
            OcrStreamEvent::PageStart { page_number, total_pages, image_data_uri } => {
                format!("{} {}/{} {:?}", e.name(), page_number, total_pages, image_data_uri)
            }
            OcrStreamEvent::Bbox { page_number, box_id, label, xmin, ymin, xmax, ymax } => format!(
                "{} {}:{} {} {} {} {} {}",
                e.name(), page_number, box_id, label, xmin, ymin, xmax, ymax
            ),
            OcrStreamEvent::Token { page_number, box_id, text } => {
                format!("{} {}:{} {:?}", e.name(), page_number, box_id, text)
            }
            OcrStreamEvent::PageDone { page_number, markdown } => {
                format!("{} {} {:?}", e.name(), page_number, markdown)
            }
            OcrStreamEvent::Done { status, total_pages, latency_ms } => {
                format!("{} {} {} {}", e.name(), status, total_pages, latency_ms)
            }
            OcrStreamEvent::Error { error } => format!("{} {}", e.name(), error),
        })
        .collect()
}

fn pages(n: usize) -> Vec<Vec<u8>> {
    (0..n).map(|i| vec![b'a' + i as u8]).collect()
}

fn job(p: &DocumentProcessor, n: usize, size: Option<usize>, concurrency: Option<usize>) -> PdfJob {
    p.plan_pdf(&pages(n), size, concurrency).unwrap()
}

fn text(s: &str) -> StreamInput {
    StreamInput::Text(s.to_string())
}

fn unanswered() -> StreamInput {
    StreamInput::Unanswered(GatewayError::Connect {
        endpoint: "http://gpu".to_string(),
        cause: "timed out".to_string(),
    })
}

// Planning

#[test]
fn pages_are_planned_as_the_request_says() {
    let plan = |total, size, concurrency| {
        let p = plan_batches(total, 4, size, concurrency);
        assert_eq!(p.total_pages, total);
        (p.batch_size, p.num_batches, p.concurrency)
    };
    assert_eq!(plan(10, None, None), (4, 3, 1));
    assert_eq!(plan(10, Some(3), Some(2)), (3, 4, 2));
    assert_eq!(plan(10, Some(0), Some(0)), (1, 10, 1));
    assert_eq!(plan(40, Some(99), Some(99)), (10, 4, 4));
    assert_eq!(plan(40, Some(1), Some(99)), (1, 40, 8));
    assert_eq!(plan(4, None, Some(8)), (4, 1, 1));
    assert_eq!(plan(3, Some(4), Some(8)), (4, 1, 1));
    assert_eq!(plan(8, None, Some(8)), (4, 2, 2));
    assert_eq!(plan_batches(5, 0, None, None).batch_size, 1);
    assert_eq!(plan_batches(5, 11, None, None).batch_size, 10);
}

#[test]
fn batches_hold_every_page_in_order() {
    for total in 0..12 {
        for size in 1..6 {
            let batches = make_batches(&pages(total), size);
            let mut page = 1;
            for b in &batches {
                assert_eq!(b.first_page(), page);
                assert!(!b.data_uris().is_empty() && b.data_uris().len() <= size);
                let max = if b.data_uris().len() > 1 { 16384 } else { 8192 };
                assert_eq!(b.max_tokens(), max);
                page += b.data_uris().len();
            }
            assert_eq!(page, total + 1);
            assert_eq!(batches.len(), (total + size - 1) / size);
        }
    }
    let batches = make_batches(&pages(3), 2);
    assert_eq!(
        *batches[0].data_uris(),
        ["data:image/png;base64,YQ==", "data:image/png;base64,Yg=="]
    );
    assert_eq!(*batches[1].data_uris(), ["data:image/png;base64,Yw=="]);
}

#[test]
fn a_pdf_without_page_images_is_refused() {
    let e = processor().plan_pdf(&vec![], None, None).unwrap_err();
    assert_eq!(e.message(), "PDF contained no rasterizable pages");
}

// Prompts and replies

#[test]
fn prompts_hold_the_instruction_and_the_images() {
    let p = processor();
    assert_eq!(endpoint(p.config()), "http://gpu:8000/v1/chat/completions");
    let uris = vec!["u1".to_string(), "u2".to_string()];
    let request = prompt(p.config(), &uris, 7, 9, true);
    assert_eq!(request.model, "baidu/Unlimited-OCR");
    assert_eq!(request.max_tokens, 9);
    assert!(request.stream);
    assert!(!request.skip_special_tokens);
    assert_eq!(request.vllm_xargs.ngram_size, 35);
    assert_eq!(request.vllm_xargs.window_size, 7);
    assert_eq!(request.messages.len(), 1);
    assert_eq!(request.messages[0].role, "user");
    let parts: Vec<String> = request.messages[0]
        .content
        .iter()
        .map(|part| match part {
            VllmContentPart::Text { text } => text.clone(),
            VllmContentPart::ImageUrl { image_url } => format!("image {}", image_url.url),
        })
        .collect();
    assert_eq!(parts, ["<image>document parsing.", "image u1", "image u2"]);
}

#[test]
fn windows_are_short_for_images_and_long_for_pdfs() {
    let p = processor();
    let request = p.image_prompt("u".to_string(), false);
    assert!(!request.stream);
    assert_eq!((request.vllm_xargs.window_size, request.max_tokens), (128, 8192));
    assert_eq!(request.messages[0].content.len(), 2);
    let job = job(&p, 3, Some(2), None);
    let request = p.batch_prompt(&job.batches[0], true);
    assert!(request.stream);
    assert_eq!((request.vllm_xargs.window_size, request.max_tokens), (1024, 16384));
    assert_eq!(request.messages[0].content.len(), 3);
    let request = p.batch_prompt(&job.batches[1], false);
    assert_eq!((request.vllm_xargs.window_size, request.max_tokens), (1024, 8192));
}

fn choice(content: &str) -> VllmChoice {
    VllmChoice {
        index: None,
        message: VllmResponseMessage { role: None, content: content.to_string() },
    }
}

#[test]
fn the_first_completion_is_the_reply() {
    let reply = VllmChatResponse { id: None, choices: vec![choice("one"), choice("two")] };
    assert_eq!(completion_text(&reply), "one");
    assert_eq!(completion_text(&VllmChatResponse { id: None, choices: vec![] }), "");
}

#[test]
fn statuses_of_success_are_told_apart() {
    assert!(succeeded(200) && succeeded(299));
    assert!(!succeeded(199) && !succeeded(300) && !succeeded(503));
}

#[test]
fn deltas_are_found_in_events() {
    let delta = |json: &str| delta_content(&serde_json::from_str(json).unwrap());
    assert_eq!(
        delta("{\"choices\":[{\"delta\":{\"content\":\"hi\"}},{\"delta\":{\"content\":\"no\"}}]}"),
        Some("hi".to_string())
    );
    assert_eq!(delta("{\"choices\":[{\"delta\":{\"content\":\"\"}}]}"), Some("".to_string()));
    for json in [
        "{}",
        "[]",
        "null",
        "\"choices\"",
        "{\"choices\":[]}",
        "{\"choices\":{}}",
        "{\"choices\":[{}]}",
        "{\"choices\":[[]]}",
        "{\"choices\":[{\"delta\":{}}]}",
        "{\"choices\":[{\"delta\":{\"content\":null}}]}",
        "{\"choices\":[{\"delta\":{\"content\":1}}]}",
        "{\"choices\":[{\"text\":\"hi\"},{\"delta\":{\"content\":\"hi\"}}]}",
    ] {
        assert_eq!(delta(json), None, "{}", json);
    }
}

fn line(content: &str) -> String {
    format!("data: {{\"choices\":[{{\"delta\":{{\"content\":\"{}\"}}}}]}}\n", content)
}

#[test]
fn pieces_are_read_from_the_lines_of_a_reply() {
    let mut lines = EventLines::new();
    let reply = format!("{}\r\n: comment\ndata: {{oops\n  {}", line("a"), line("b"));
    assert_eq!(lines.feed(reply.as_bytes()), ["a", "b"]);
    assert_eq!(lines.feed(b"data: {\"choices\":[{\"del"), Vec::<String>::new());
    assert_eq!(lines.feed_text("ta\":{\"content\":\"c\"}}]}"), Vec::<String>::new());
    assert_eq!(lines.feed_text("\n"), ["c"]);
}

#[test]
fn bytes_that_are_no_text_are_replaced() {
    let mut lines = EventLines::new();
    let mut reply = line("x").into_bytes();
    let at = reply.iter().position(|b| *b == b'x').unwrap();
    reply[at] = 0xFF;
    assert_eq!(lines.feed(&reply), ["\u{FFFD}"]);
}

#[test]
fn what_is_behind_the_end_of_a_reply_waits() {
    let mut lines = EventLines::new();
    let reply = format!("{}data: [DONE]\n{}", line("a"), line("b"));
    assert_eq!(lines.feed(reply.as_bytes()), ["a"]);
    assert_eq!(lines.feed(b""), ["b"]);
}

#[test]
fn a_reply_may_be_cut_anywhere() {
    let reply = format!(
        "{}\n{}data: nothing\n{}data: [DONE]\n\n: bye\n",
        line("a"),
        line("\u{e9}b"),
        line("c")
    );
    let chars: Vec<char> = reply.chars().collect();
    for k in 0..=chars.len() {
        let head: String = chars[..k].iter().collect();
        let tail: String = chars[k..].iter().collect();
        let mut lines = EventLines::new();
        let mut pieces = lines.feed_text(&head);
        pieces.extend(lines.feed_text(&tail));
        assert_eq!(pieces, ["a", "\u{e9}b", "c"]);
        let mut lines = EventLines::new();
        let mut pieces = lines.feed(head.as_bytes());
        pieces.extend(lines.feed(tail.as_bytes()));
        assert_eq!(pieces, ["a", "\u{e9}b", "c"]);
    }
}

// Responses

const ANSWER: &str = "<|det|>title [[48, 85, 388, 127]]<|/det|>2.4 Reasoning";

#[test]
fn an_image_makes_one_page() {
    let r = processor().image_response(
        "image/png".to_string(),
        "uri".to_string(),
        ANSWER.to_string(),
        12,
    );
    assert_eq!(r.markdown, "2.4 Reasoning");
    assert_eq!((r.total_pages, r.batches_processed, r.latency_ms), (1, 1, 12));
    assert_eq!(r.document_type, "image/png");
    assert_eq!(r.bboxes.len(), 1);
    assert_eq!(r.bboxes[0].label, "title");
    assert_eq!(r.pages.len(), 1);
    let page = r.pages[0].clone();
    assert_eq!(page.page_number, 1);
    assert_eq!(page.image_data_uri, Some("uri".to_string()));
    assert_eq!(page.markdown, "2.4 Reasoning");
    assert_eq!(page.raw_text, ANSWER);
    assert_eq!(page.bboxes[0].text, "2.4 Reasoning");
}

#[test]
fn a_pdf_makes_a_page_of_every_image() {
    let p = processor();
    let job = job(&p, 5, Some(2), Some(2));
    assert_eq!((job.plan.num_batches, job.plan.concurrency), (3, 2));
    let mut outcomes = Vec::new();
    for (i, batch) in job.batches.into_iter().enumerate() {
        let raw = if i == 1 { " ".to_string() } else { format!("{} {}", ANSWER, i) };
        outcomes.push(Ok(BatchOutcome::new(&p, batch, raw)));
    }
    let r = pdf_response(outcomes, 5, 99).unwrap();
    assert_eq!(r.markdown, "2.4 Reasoning 0\n\n---\n\n2.4 Reasoning 2");
    assert_eq!((r.total_pages, r.batches_processed, r.latency_ms), (5, 3, 99));
    assert_eq!(r.document_type, "application/pdf");
    assert_eq!(r.bboxes.len(), 2);
    let numbers: Vec<usize> = r.pages.iter().map(|p| p.page_number).collect();
    assert_eq!(numbers, [1, 2, 3, 4, 5]);
    assert_eq!(r.pages[1].markdown, "2.4 Reasoning 0");
    assert_eq!(r.pages[2].markdown, "");
    assert_eq!(r.pages[2].raw_text, " ");
    let listed: Vec<usize> = r.pages.iter().map(|p| p.bboxes.len()).collect();
    assert_eq!(listed, [1, 0, 0, 0, 1]);
    let flat: Vec<String> = r
        .pages
        .iter()
        .flat_map(|p| p.bboxes.iter())
        .map(|b| format!("{} {}", b.label, b.text))
        .collect();
    let all: Vec<String> = r.bboxes.iter().map(|b| format!("{} {}", b.label, b.text)).collect();
    assert_eq!(flat, all);
    assert_eq!(all, ["title 2.4 Reasoning 0", "title 2.4 Reasoning 2"]);
    assert_eq!(r.pages[4].image_data_uri.as_deref(), Some("data:image/png;base64,ZQ=="));
}

#[test]
fn the_first_batch_that_failed_fails_a_pdf() {
    let p = processor();
    let mut batches = job(&p, 2, Some(1), None).batches.into_iter();
    let outcomes = vec![
        Ok(BatchOutcome::new(&p, batches.next().unwrap(), "x".to_string())),
        Err(GatewayError::BadReply { cause: "a".to_string() }),
        Err(GatewayError::EmptyPdf),
    ];
    let e = pdf_response(outcomes, 2, 0).unwrap_err();
    assert_eq!(e.full_message(), "Failed to deserialize vLLM chat response JSON: a");
}

// Streams

#[test]
fn an_image_is_announced() {
    let (events, start) = start_stream("iVBORw==");
    assert_eq!(show(&events), ["page_start 1/1 Some(\"data:image/png;base64,iVBORw==\")"]);
    match start {
        StreamStart::Image { data_uri } => assert_eq!(data_uri, "data:image/png;base64,iVBORw=="),
        other => panic!("{:?}", other),
    }
}

#[test]
fn a_pdf_is_announced_by_its_pages() {
    let (events, start) = start_stream("JVBERi0xLjQ=");
    assert!(events.is_empty());
    match start {
        StreamStart::Pdf { bytes } => assert_eq!(bytes, b"%PDF-1.4"),
        other => panic!("{:?}", other),
    }
    let (events, job) = processor().plan_pdf_stream(Ok(pages(3)), Some(2), Some(4));
    assert_eq!(
        show(&events),
        [
            "page_start 1/3 Some(\"data:image/png;base64,YQ==\")",
            "page_start 2/3 Some(\"data:image/png;base64,Yg==\")",
            "page_start 3/3 Some(\"data:image/png;base64,Yw==\")",
        ]
    );
    let job = job.unwrap();
    assert_eq!((job.batches.len(), job.plan.concurrency), (2, 2));
    assert_eq!(show(&finish_pdf(&job, 7)), ["done complete 3 7"]);
}

#[test]
fn documents_that_cannot_be_opened_end_the_stream() {
    let (events, start) = start_stream("SGVsbG8");
    assert_eq!(
        show(&events),
        ["error Failed to decode base64: Failed to decode Base64 string: Invalid padding"]
    );
    assert!(matches!(start, StreamStart::Refused));
    let (events, start) = start_stream("SGVsbG8=");
    assert_eq!(
        show(&events),
        ["error Unsupported document format. Please supply a valid PDF, PNG, JPEG, WebP, TIFF, or BMP file."]
    );
    assert!(matches!(start, StreamStart::Refused));
    let (events, _) = start_reading(Err(GatewayError::UnsupportedFormat));
    assert_eq!(events.len(), 1);
}

#[test]
fn pdfs_without_page_images_end_the_stream() {
    let p = processor();
    let (events, job) = p.plan_pdf_stream(Ok(vec![]), None, None);
    assert_eq!(show(&events), ["error PDF contains no pages"]);
    assert!(job.is_none());
    let broken = GatewayError::Other {
        context: "Failed to execute pdftoppm. Is poppler-utils installed?".to_string(),
        cause: "No such file or directory".to_string(),
    };
    let (events, job) = p.plan_pdf_stream(Err(broken), None, None);
    assert_eq!(
        show(&events),
        ["error PDF rasterization failed: Failed to execute pdftoppm. Is poppler-utils installed?: No such file or directory"]
    );
    assert!(job.is_none());
}

#[test]
fn a_page_is_done_with_the_text_that_was_given_out() {
    let mut s = BatchStream::for_image();
    let mut events = Vec::new();
    for piece in ["2.4 <|d", "et|>title [[1,2,3,4]]<|/det|>Reas", "oning<"] {
        let input = text(piece);
        assert!(s.has_room(&input));
        events.extend(s.step(input));
    }
    assert_eq!(s.phase(), Phase::Reading);
    events.extend(s.step(StreamInput::End));
    assert_eq!(
        show(&events),
        [
            "token 1:0 \"2.4 \"",
            "bbox 1:1 title 1 2 3 4",
            "token 1:1 \"Reas\"",
            "token 1:1 \"oning\"",
            "token 1:1 \"<\"",
            "page_done 1 \"2.4 Reasoning<\"",
        ]
    );
    assert_eq!(s.phase(), Phase::Finished);
    assert!(s.step(text("more")).is_empty());
    assert!(s.step(StreamInput::End).is_empty());
    assert_eq!(show(&finish_image(&s, 5)), ["done complete 1 5"]);
    let copy = events[1].clone();
    assert_eq!(show(&[copy]), ["bbox 1:1 title 1 2 3 4"]);
}

#[test]
fn an_image_whose_reply_breaks_off_is_given_up() {
    let mut s = BatchStream::for_image();
    s.step(text("a"));
    let events = s.step(StreamInput::Broken("reset".to_string()));
    assert_eq!(show(&events), ["error vLLM stream error: Byte stream error: reset"]);
    assert_eq!(s.phase(), Phase::Failed);
    assert!(s.step(StreamInput::End).is_empty());
    assert!(finish_image(&s, 5).is_empty());
}

#[test]
fn an_image_without_a_reply_is_given_up() {
    let mut s = BatchStream::for_image();
    let events = s.step(unanswered());
    assert_eq!(
        show(&events),
        ["error Failed to connect to vLLM: Failed to connect to vLLM endpoint at http://gpu: timed out"]
    );
    assert_eq!(s.phase(), Phase::Failed);
    assert!(finish_image(&s, 5).is_empty());
}

#[test]
fn pages_of_a_pdf_are_read_on_after_an_error() {
    let p = processor();
    let job = job(&p, 4, Some(3), None);
    let mut s = BatchStream::for_batch(&job.batches[1]);
    s.step(text("half"));
    let events = s.step(StreamInput::Broken("reset".to_string()));
    assert_eq!(show(&events), ["error vLLM stream error on page 4: Byte stream error: reset"]);
    assert_eq!(show(&s.step(StreamInput::End)), ["page_done 4 \"half\""]);
    let mut s = BatchStream::for_batch(&job.batches[0]);
    assert_eq!(
        show(&s.step(unanswered())),
        ["error vLLM connection failed on page 1: Failed to connect to vLLM endpoint at http://gpu: timed out"]
    );
    assert!(s.step(StreamInput::End).is_empty());
    assert_eq!(show(&finish_pdf(&job, 1)), ["done complete 4 1"]);
}

fn read_reply(pieces: &[&str]) -> Vec<OcrStreamEvent> {
    let mut s = BatchStream::for_image();
    let mut events = Vec::new();
    for piece in pieces {
        events.extend(s.step(text(piece)));
    }
    events.extend(s.step(StreamInput::End));
    events
}

#[test]
fn a_stream_has_the_boxes_and_the_text_of_the_response() {
    let pieces = [
        "<|ref|>", "Title", "<|/ref|>", "<|det|>", "title [[1,2", ",3,4]]", "<|/det|>", "\n<ta",
        "ble>", "<|ref|>", "x<|", "/ref|>", "<|det|>t[[9,8,7,6]]<|/det|> y ", "",
    ];
    let whole: String = pieces.concat();
    let p = processor();
    let events = read_reply(&pieces);
    let boxes: Vec<String> =
        show(&events).into_iter().filter(|e| e.starts_with("bbox")).collect();
    assert_eq!(boxes, ["bbox 1:1 title 1 2 3 4", "bbox 1:2 t 7 6 9 8"]);
    let extracted: Vec<String> = p
        .extract_bboxes(&whole)
        .iter()
        .enumerate()
        .map(|(i, b)| {
            format!("bbox 1:{} {} {} {} {} {}", i + 1, b.label, b.xmin, b.ymin, b.xmax, b.ymax)
        })
        .collect();
    assert_eq!(boxes, extracted);
    match events.last().unwrap() {
        OcrStreamEvent::PageDone { markdown, .. } => {
            assert_eq!(markdown.trim(), p.sanitize_ocr_markdown(&whole));
            assert_eq!(markdown, "Title\n<table>x y ");
        }
        other => panic!("{:?}", other),
    }
}

#[test]
fn boxes_do_not_depend_on_where_a_reply_is_cut() {
    let whole = "a<|ref|>b<|/ref|><|det|>x [1,2,3,4]<|/det|>c<|det|>?<|/det|><|det|>[5,6,7,8]<|/det|>";
    let expected: Vec<String> = show(&read_reply(&[whole]))
        .into_iter()
        .filter(|e| e.starts_with("bbox"))
        .collect();
    assert_eq!(expected, ["bbox 1:1 x 1 2 3 4", "bbox 1:2 text 5 6 7 8"]);
    for i in 0..=whole.len() {
        for j in i..=whole.len() {
            let events = read_reply(&[&whole[..i], &whole[i..j], &whole[j..]]);
            let boxes: Vec<String> =
                show(&events).into_iter().filter(|e| e.starts_with("bbox")).collect();
            assert_eq!(boxes, expected);
        }
    }
}

#[test]
fn a_region_is_sent_as_soon_as_its_tag_closes() {
    let mut s = BatchStream::for_image();
    assert!(s.step(text("<|det|>t[1,2,3,4]<|/det|")).is_empty());
    assert_eq!(show(&s.step(text(">"))), ["bbox 1:1 t 1 2 3 4"]);
    assert!(s.step(text("<|det|")).is_empty());
    assert_eq!(show(&s.step(text("!"))), ["token 1:1 \"<|det|!\""]);
}
