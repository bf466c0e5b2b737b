use ocr_gateway::config::{AppConfig, Environment};
use ocr_gateway::grounding::StreamingGroundingParser;
use ocr_gateway::markup::{drop_refs, read_region};
use ocr_gateway::models::{BoundingBox, OcrStreamEvent};
use ocr_gateway::patterns::{DetPattern, NumberPattern, RefPattern};
use ocr_gateway::processor::DocumentProcessor;

fn processor() -> DocumentProcessor {
    DocumentProcessor::new(AppConfig::from_env(&Environment {
        port: None,
        vllm_base_url: None,
        model_id: None,
        pdf_max_size: None,
        default_batch_size: None,
        request_timeout_secs: None,
    }))
    .unwrap()
}

fn show_box(b: &BoundingBox) -> String {
    format!("{} {} {} {} {} {:?}", b.label, b.xmin, b.ymin, b.xmax, b.ymax, b.text)
}

fn show(events: &[OcrStreamEvent]) -> Vec<String> {
    events
        .iter()
        .map(|e| match e {
            OcrStreamEvent::Bbox { page_number, box_id, label, xmin, ymin, xmax, ymax } => format!(
                "box {}:{} {} {} {} {} {}",
                page_number, box_id, label, xmin, ymin, xmax, ymax
            ),
            OcrStreamEvent::Token { page_number, box_id, text } => {
                format!("text {}:{} {:?}", page_number, box_id, text)
            }
            other => format!("{:?}", other),
        })
        .collect()
}

fn boxes(events: &[OcrStreamEvent]) -> Vec<String> {
    show(events).into_iter().filter(|e| e.starts_with("box")).collect()
}

fn given_out(events: &[OcrStreamEvent]) -> String {
    let mut all = String::new();
    for e in events {
        if let OcrStreamEvent::Token { text, .. } = e {
            all.push_str(text);
        }
    }
    all
}

fn read_in_pieces(text: &str, size: usize) -> Vec<OcrStreamEvent> {
    let mut parser = StreamingGroundingParser::new();
    let mut events = Vec::new();
    let chars: Vec<char> = text.chars().collect();
    for piece in chars.chunks(size) {
        let piece: String = piece.iter().collect();
        assert!(parser.has_room(&piece));
        events.extend(parser.feed(&piece, 1));
    }
    events.extend(parser.flush(1));
    events
}

const PAGE: &str = "<|det|>title [[48, 85, 388, 127]]<|/det|>2.4 Reasoning\n<|det|>text [[10,20,30,40]]<|/det|>Body \u{e9}.\n";

#[test]
fn detection_tags_are_stripped_and_references_unwrapped() {
    let p = processor();
    assert_eq!(p.sanitize_ocr_markdown(PAGE), "2.4 Reasoning\nBody \u{e9}.");
    assert_eq!(
        p.sanitize_ocr_markdown(" <|ref|>Title<|/ref|><|det|>[[1,\n2,3,4]]<|/det|> x "),
        "Title x"
    );
    assert_eq!(p.sanitize_ocr_markdown("<|ref|>a\nb<|/ref|>"), "a\nb");
    assert_eq!(p.sanitize_ocr_markdown("\n plain text \n"), "plain text");
    assert_eq!(p.sanitize_ocr_markdown(""), "");
}

#[test]
fn tags_that_do_not_pair_stay() {
    let p = processor();
    assert_eq!(p.sanitize_ocr_markdown("a<|det|>b"), "a<|det|>b");
    assert_eq!(p.sanitize_ocr_markdown("a<|/det|>b"), "a<|/det|>b");
    assert_eq!(p.sanitize_ocr_markdown("a<|ref|>b"), "a<|ref|>b");
    assert_eq!(p.sanitize_ocr_markdown("a<|/ref|>b"), "a<|/ref|>b");
    assert_eq!(p.sanitize_ocr_markdown("<|det|>a<|det|>b<|/det|>c<|/det|>"), "c<|/det|>");
    assert_eq!(p.sanitize_ocr_markdown("<|r<|det|><|/det|>ef|>x<|/ref|>"), "x");
    assert_eq!(p.sanitize_ocr_markdown("<|ref|>a<|ref|>b<|/ref|>c"), "a<|ref|>bc");
}

#[test]
fn boxes_are_extracted_with_their_texts() {
    let p = processor();
    let found: Vec<String> = p.extract_bboxes(PAGE).iter().map(show_box).collect();
    assert_eq!(
        found,
        [
            "title 48 85 388 127 \"2.4 Reasoning\"",
            "text 10 20 30 40 \"Body \u{e9}.\"",
        ]
    );
    assert!(p.extract_bboxes("no boxes").is_empty());
    assert!(p.extract_bboxes("<|det|>[[1,2,3]]<|/det|>x").is_empty());
    assert!(p.extract_bboxes("<|det|>[[1,2,3,4]]x").is_empty());
}

#[test]
fn boxes_without_numbers_still_bound_the_text_before_them() {
    let p = processor();
    let found: Vec<String> = p
        .extract_bboxes("<|det|>a[1,2,3,4]<|/det|>one<|det|>?<|/det|>two<|det|>b[5,6,7,8]<|/det|><|ref|>three<|/ref|>")
        .iter()
        .map(show_box)
        .collect();
    assert_eq!(found, ["a 1 2 3 4 \"one\"", "b 5 6 7 8 \"three\""]);
}

#[test]
fn regions_are_read() {
    let numbers = NumberPattern::new().unwrap();
    let region = |inside: &str| {
        read_region(&numbers, inside)
            .map(|r| format!("{} {} {} {} {}", r.label, r.xmin, r.ymin, r.xmax, r.ymax))
    };
    assert_eq!(region("Title [[48, 85, 388, 127]]"), Some("title 48 85 388 127".to_string()));
    assert_eq!(region("[[1,2,3,4]]"), Some("text 1 2 3 4".to_string()));
    assert_eq!(region(" TABLE\u{c9} [1 2 3 4 5]"), Some("table\u{e9} 1 2 3 4".to_string()));
    assert_eq!(region("x [30,40,10,20]"), Some("x 10 20 30 40".to_string()));
    assert_eq!(region("x [2000,0,1000,4294967295]"), Some("x 1000 0 1000 1000".to_string()));
    assert_eq!(region("x [1,2,3]"), None);
    assert_eq!(region(""), None);
}

#[test]
fn digits_before_the_bracket_count_as_coordinates() {
    let numbers = NumberPattern::new().unwrap();
    let r = read_region(&numbers, "h1 [9,8,7]").unwrap();
    assert_eq!((r.xmin, r.ymin, r.xmax, r.ymax), (1, 7, 8, 9));
    assert_eq!(r.label, "h1");
}

#[test]
fn numbers_that_do_not_fit_are_passed_over() {
    let numbers = NumberPattern::new().unwrap();
    assert_eq!(numbers.numbers("a1b22,333 -4"), [1, 22, 333, 4]);
    assert_eq!(numbers.numbers("4294967295 4294967296 7"), [4294967295, 7]);
    assert_eq!(numbers.numbers("\u{663} 5 \u{ff11}"), [5]);
    assert_eq!(numbers.numbers("\u{663}5 6"), [6]);
    assert_eq!(numbers.numbers(""), Vec::<u32>::new());
}

#[test]
fn stretches_are_found_by_their_bytes() {
    let det = DetPattern::new().unwrap();
    assert_eq!(det.spans("\u{e9}<|det|>\n<|/det|>x"), [(2, 18)]);
    assert_eq!(det.spans("<|det|><|/det|><|det|>1<|/det|>"), [(0, 15), (15, 31)]);
    assert_eq!(det.spans("<|det|>"), Vec::<(usize, usize)>::new());
    assert_eq!(det.strip("a<|det|>b<|/det|>c"), "ac");
    let refs = RefPattern::new().unwrap();
    assert_eq!(refs.unwrap_tags("a<|ref|>$1<|/ref|>c"), "a$1c");
    assert_eq!(drop_refs("a<|ref|>b<|/ref|>c<|/ref|>"), "abc");
}

#[test]
fn text_is_given_out_as_it_comes_in() {
    let mut parser = StreamingGroundingParser::new();
    assert_eq!(show(&parser.feed("2.4 ", 3)), ["text 3:0 \"2.4 \""]);
    assert_eq!(show(&parser.feed("<|de", 3)), Vec::<String>::new());
    assert_eq!(show(&parser.feed("t|>Title [[1,2,", 3)), Vec::<String>::new());
    assert_eq!(show(&parser.feed("3,4]]<|/det|", 3)), Vec::<String>::new());
    assert_eq!(show(&parser.feed(">x", 3)), ["box 3:1 title 1 2 3 4", "text 3:1 \"x\""]);
    assert_eq!(show(&parser.feed("<|ref|>y<|/ref|><", 3)), ["text 3:1 \"y\""]);
    assert_eq!(show(&parser.flush(3)), ["text 3:1 \"<\""]);
    assert_eq!(show(&parser.flush(3)), Vec::<String>::new());
}

#[test]
fn a_tag_that_is_never_closed_is_not_given_out() {
    let mut parser = StreamingGroundingParser::new();
    assert_eq!(show(&parser.feed("a<|det|>[[1,2,3,4]]", 1)), ["text 1:0 \"a\""]);
    assert_eq!(show(&parser.flush(1)), Vec::<String>::new());
}

#[test]
fn tags_without_a_region_are_not_numbered() {
    let mut parser = StreamingGroundingParser::new();
    let events = parser.feed("<|det|>?<|/det|>a<|det|>[1,2,3,4]<|/det|>b", 1);
    assert_eq!(show(&events), ["text 1:0 \"a\"", "box 1:1 text 1 2 3 4", "text 1:1 \"b\""]);
}

#[test]
fn a_reference_tag_that_comes_in_two_pieces_is_not_given_out() {
    let mut parser = StreamingGroundingParser::new();
    assert_eq!(show(&parser.feed("<|re", 1)), Vec::<String>::new());
    let events = parser.feed("f|>Hi<|/ref|>", 1);
    assert_eq!(given_out(&events), "Hi");
    let text = "a<|ref|>b<|/ref|>c < d <| e <|ref|> f";
    for i in 0..=text.len() {
        for j in i..=text.len() {
            let mut parser = StreamingGroundingParser::new();
            let mut events = parser.feed(&text[..i], 1);
            events.extend(parser.feed(&text[i..j], 1));
            events.extend(parser.feed(&text[j..], 1));
            events.extend(parser.flush(1));
            assert_eq!(given_out(&events), "abc < d <| e  f");
        }
    }
}

#[test]
fn the_beginning_of_a_tag_is_given_out_at_the_end() {
    for start in ["<", "<|", "<|re", "<|/ref|", "<|det|"] {
        let mut parser = StreamingGroundingParser::new();
        assert_eq!(show(&parser.feed(start, 1)), Vec::<String>::new());
        assert_eq!(given_out(&parser.flush(1)), start);
    }
}

#[test]
fn events_carry_the_number_of_regions_before_them() {
    let mut parser = StreamingGroundingParser::new();
    let mut events = parser.feed("a<|det|>[1,2,3,4]<|/det|>b<|det|>?<|/det|>c<", 1);
    events.extend(parser.flush(1));
    events.extend(parser.feed("<|det|>[1,2,3,4]<|/det|>d<|det|>x", 2));
    events.extend(parser.flush(2));
    events.extend(parser.feed("[5,6,7,8]<|/det|>e", 3));
    assert_eq!(
        show(&events),
        [
            "text 1:0 \"a\"",
            "box 1:1 text 1 2 3 4",
            "text 1:1 \"b\"",
            "text 1:1 \"c\"",
            "text 1:1 \"<\"",
            "box 2:2 text 1 2 3 4",
            "text 2:2 \"d\"",
            "box 3:3 text 5 6 7 8",
            "text 3:3 \"e\"",
        ]
    );
}

#[test]
fn text_without_references_is_kept_however_it_is_cut() {
    let text = "a <|r<|det|>x<|/det|>ef|> b < c <|/det|> d<|det|>[1,2,3,4]";
    for i in 0..=text.len() {
        for j in i..=text.len() {
            let mut parser = StreamingGroundingParser::new();
            let mut events = parser.feed(&text[..i], 1);
            events.extend(parser.feed(&text[i..j], 1));
            events.extend(parser.feed(&text[j..], 1));
            events.extend(parser.flush(1));
            assert_eq!(given_out(&events), "a <|ref|> b < c <|/det|> d");
        }
    }
}

#[test]
fn labels_and_texts_are_never_empty() {
    let mut parser = StreamingGroundingParser::new();
    let events = parser.feed("<|ref|><|/ref|><|det|>  [1,2,3,4]<|/det|><|det|>[[9,9,0,0]]<|/det|>", 1);
    assert_eq!(show(&events), ["box 1:1 text 1 2 3 4", "box 1:2 text 0 0 9 9"]);
}

#[test]
fn sanitizing_twice_changes_nothing() {
    let p = processor();
    let once = p.sanitize_ocr_markdown(" a <|det|>x<|/det|><|ref|> b <|/ref|> c\n");
    assert_eq!(once, "a  b  c");
    assert_eq!(p.sanitize_ocr_markdown(&once), once);
}

#[test]
fn where_the_text_is_cut_makes_no_difference() {
    let whole = read_in_pieces(PAGE, usize::MAX >> 1);
    for size in 1..40 {
        let pieces = read_in_pieces(PAGE, size);
        assert_eq!(boxes(&pieces), boxes(&whole));
        assert_eq!(given_out(&pieces), given_out(&whole));
    }
}

#[test]
fn reading_in_pieces_gives_what_reading_in_one_does() {
    let p = processor();
    let extracted: Vec<String> = p
        .extract_bboxes(PAGE)
        .iter()
        .enumerate()
        .map(|(i, b)| {
            format!("box 1:{} {} {} {} {} {}", i + 1, b.label, b.xmin, b.ymin, b.xmax, b.ymax)
        })
        .collect();
    for size in 1..40 {
        let events = read_in_pieces(PAGE, size);
        assert_eq!(boxes(&events), extracted);
        assert_eq!(given_out(&events).trim(), p.sanitize_ocr_markdown(PAGE));
    }
}
