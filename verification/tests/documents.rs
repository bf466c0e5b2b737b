use ocr_gateway::config::{AppConfig, Environment};
use ocr_gateway::encoding::{clean_and_decode_base64, data_uri};
use ocr_gateway::errors::{refuse_empty, status_for, GatewayError, EMPTY_FILE, UNSUPPORTED, WARMING_UP};
use ocr_gateway::pdf::{
    check_page_count, detect_document_type, page_count_of_report, page_count_of_text, page_order,
    DocumentType, PageFile,
};
use ocr_gateway::processor::{open_document, Document};

fn image(mime: &str) -> DocumentType {
    DocumentType::Image(mime.to_string())
}

#[test]
fn formats_are_told_by_their_first_bytes() {
    assert_eq!(detect_document_type(b"%PDF-1.7\n"), DocumentType::Pdf);
    assert_eq!(detect_document_type(b"\x89PNG\r\n\x1a\n"), image("image/png"));
    assert_eq!(detect_document_type(b"\xFF\xD8\xFF\xE0"), image("image/jpeg"));
    assert_eq!(detect_document_type(b"RIFF\x01\x02\x03\x04WEBPVP8 "), image("image/webp"));
    assert_eq!(detect_document_type(b"II\x2A\x00\x08"), image("image/tiff"));
    assert_eq!(detect_document_type(b"MM\x00\x2A\x08"), image("image/tiff"));
    assert_eq!(detect_document_type(b"BM\x01\x02"), image("image/bmp"));
}

#[test]
fn other_bytes_have_an_unknown_format() {
    assert_eq!(detect_document_type(b""), DocumentType::Unknown);
    assert_eq!(detect_document_type(b"BM"), DocumentType::Unknown);
    assert_eq!(detect_document_type(b"\xFF\xD8\xFF"), DocumentType::Unknown);
    assert_eq!(detect_document_type(b"%PDF"), DocumentType::Unknown);
    assert_eq!(detect_document_type(b"RIFF\x01\x02\x03\x04WAVE"), DocumentType::Unknown);
    assert_eq!(detect_document_type(b"RIFF\x01\x02\x03\x04WEB"), DocumentType::Unknown);
    assert_eq!(detect_document_type(b"GIF89a"), DocumentType::Unknown);
}

#[test]
fn formats_have_media_types() {
    assert_eq!(DocumentType::Pdf.as_str(), "application/pdf");
    assert_eq!(image("image/webp").as_str(), "image/webp");
    assert_eq!(DocumentType::Unknown.as_str(), "application/octet-stream");
}

#[test]
fn base64_is_read_with_and_without_a_data_uri() {
    assert_eq!(clean_and_decode_base64("SGVsbG8=").unwrap(), b"Hello");
    assert_eq!(clean_and_decode_base64("data:image/png;base64,SGVsbG8=").unwrap(), b"Hello");
    assert_eq!(clean_and_decode_base64("data:text/plain,SGVsbG8=").unwrap(), b"Hello");
    assert_eq!(clean_and_decode_base64("a,b;base64,SGVsbG8=").unwrap(), b"Hello");
    assert_eq!(clean_and_decode_base64("").unwrap(), b"");
}

#[test]
fn white_space_in_base64_does_not_matter() {
    assert_eq!(clean_and_decode_base64(" SGVs\r\nbG8=\n").unwrap(), b"Hello");
    assert_eq!(clean_and_decode_base64("\tSG Vs bG8=\t").unwrap(), b"Hello");
    assert_eq!(clean_and_decode_base64("SGVs\tbG8=").unwrap(), b"Hello");
    assert_eq!(clean_and_decode_base64("QU\tJD").unwrap(), [65, 66, 67]);
    assert_eq!(clean_and_decode_base64("Q\u{a0}U\u{2003}J\u{b}D").unwrap(), [65, 66, 67]);
}

#[test]
fn both_alphabets_of_base64_are_read() {
    assert_eq!(clean_and_decode_base64("+/+/").unwrap(), [0xFB, 0xFF, 0xBF]);
    assert_eq!(clean_and_decode_base64("-_-_").unwrap(), [0xFB, 0xFF, 0xBF]);
    assert!(clean_and_decode_base64("+_+_").is_err());
}

#[test]
fn bad_base64_is_refused_with_what_the_decoder_says() {
    let e = clean_and_decode_base64("SGVsbG8").unwrap_err();
    assert_eq!(e.detail, "Invalid padding");
    let e = clean_and_decode_base64("SGVs!G8=").unwrap_err();
    assert_eq!(e.detail, "Invalid symbol 33, offset 4.");
    let e = clean_and_decode_base64("SGVsbG9=").unwrap_err();
    assert_eq!(e.detail, "Invalid last symbol 57, offset 6.");
}

#[test]
fn data_uris_are_written_and_read_back() {
    assert_eq!(data_uri("image/png", b"Hello"), "data:image/png;base64,SGVsbG8=");
    assert_eq!(data_uri("image/png", b""), "data:image/png;base64,");
    let uri = data_uri("image/png;charset=utf-8", b"Hello");
    assert_eq!(clean_and_decode_base64(&uri).unwrap(), b"Hello");
    for n in 0..70usize {
        let bytes: Vec<u8> = (0..n).map(|i| (i * 37 + n) as u8).collect();
        let uri = data_uri("image/tiff", &bytes);
        assert_eq!(clean_and_decode_base64(&uri).unwrap(), bytes);
    }
}

#[test]
fn documents_are_opened() {
    match open_document("iVBORw0KGgo=").unwrap() {
        Document::Image { mime, bytes } => {
            assert_eq!(mime, "image/png");
            assert_eq!(bytes, b"\x89PNG\r\n\x1a\n");
        }
        Document::Pdf { .. } => panic!("a PNG is no PDF"),
    }
    match open_document("data:application/pdf;base64,JVBERi0xLjQ=").unwrap() {
        Document::Pdf { bytes } => assert_eq!(bytes, b"%PDF-1.4"),
        Document::Image { .. } => panic!("a PDF is no image"),
    }
}

#[test]
fn other_texts_are_not_opened() {
    match open_document("SGVsbG8=") {
        Err(GatewayError::UnsupportedFormat) => {}
        other => panic!("{:?}", other),
    }
    match open_document("no base64!") {
        Err(GatewayError::Base64 { detail }) => assert_eq!(detail, "Invalid symbol 33, offset 8."),
        other => panic!("{:?}", other),
    }
}

#[test]
fn page_counts_are_read_from_reports() {
    let report = "Title:          A\nPages:          12\nEncrypted:      no\n";
    assert_eq!(page_count_of_text(report).unwrap(), 12);
    assert_eq!(page_count_of_report(report.as_bytes()).unwrap(), 12);
    assert_eq!(page_count_of_report(b"Title: \xFF\nPages: 3\r\n").unwrap(), 3);
    assert_eq!(page_count_of_text("Pages: many\nPages: 2").unwrap(), 2);
    assert_eq!(page_count_of_text("Pages: +5").unwrap(), 5);
    assert_eq!(page_count_of_text("Pages:Pages: 5").unwrap(), 5);
}

#[test]
fn reports_without_a_page_count_are_refused() {
    for report in ["", "Page: 3", " Pages: 3", "Pages: -3", "Pages: 1.5", "Pages:"] {
        match page_count_of_text(report) {
            Err(e @ GatewayError::NoPageCount) => {
                assert_eq!(e.message(), "Could not determine page count from PDF metadata")
            }
            other => panic!("{:?}: {:?}", report, other),
        }
    }
}

#[test]
fn too_many_pages_and_none_are_refused() {
    assert!(check_page_count(40, 40).is_ok());
    assert!(check_page_count(1, 40).is_ok());
    let e = check_page_count(52, 40).unwrap_err();
    assert_eq!(
        e.message(),
        "PDF contains 52 pages, which exceeds the maximum allowable limit of 40 pages (PDF_MAX_SIZE)"
    );
    let (status, body) = e.reply();
    assert_eq!(status, 413);
    assert_eq!(body.error, "Processing failed");
    assert_eq!(body.details, Some(e.message()));
    let e = check_page_count(0, 40).unwrap_err();
    assert_eq!(e.message(), "PDF has 0 pages");
    assert_eq!(e.reply().0, 500);
    assert_eq!(
        check_page_count(0, 0).unwrap_err().message(),
        "PDF has 0 pages"
    );
}

fn file(stem: &str, extension: &str) -> PageFile {
    PageFile { stem: Some(stem.to_string()), extension: Some(extension.to_string()) }
}

#[test]
fn page_images_are_ordered_by_their_numbers() {
    let files = vec![
        file("page-10", "png"),
        file("input", "pdf"),
        file("page-2", "png"),
        file("page-01", "png"),
        file("page-3", "txt"),
        PageFile { stem: Some("page-4".to_string()), extension: None },
        PageFile { stem: None, extension: Some("png".to_string()) },
        file("cover", "png"),
    ];
    assert_eq!(page_order(&files), [3, 2, 0]);
    assert_eq!(page_order(&vec![]), Vec::<usize>::new());
}

#[test]
fn page_images_without_a_number_come_first_in_their_order() {
    let files = vec![
        file("page-1", "png"),
        file("page-b", "png"),
        file("page-", "png"),
        file("page-1", "png"),
        file("page-0", "png"),
    ];
    assert_eq!(page_order(&files), [1, 2, 4, 0, 3]);
}

#[test]
fn errors_are_answered_by_what_they_say() {
    assert_eq!(status_for("x exceeds the maximum allowable limit of vLLM Base64"), 413);
    assert_eq!(status_for("Unsupported document format and vLLM"), 400);
    assert_eq!(status_for("vLLM says Base64"), 400);
    assert_eq!(status_for("the connection broke"), 503);
    assert_eq!(status_for("it refused"), 503);
    assert_eq!(status_for("vLLM"), 503);
    assert_eq!(status_for("HTTP 503"), 503);
    assert_eq!(status_for("vllm Connection base64"), 500);
    assert_eq!(status_for(""), 500);
}

#[test]
fn each_error_has_its_words_and_its_answer() {
    let text = |s: &str| s.to_string();
    let errors = vec![
        (GatewayError::Pattern { name: text("det_regex") }, "Failed to compile det_regex", "", 500),
        (
            GatewayError::Base64 { detail: text("Invalid padding") },
            "Failed to decode input document as Base64",
            ": Failed to decode Base64 string: Invalid padding",
            400,
        ),
        (GatewayError::UnsupportedFormat, UNSUPPORTED, "", 400),
        (
            GatewayError::TooManyPages { pages: 41, limit: 40 },
            "PDF contains 41 pages, which exceeds the maximum allowable limit of 40 pages (PDF_MAX_SIZE)",
            "",
            413,
        ),
        (GatewayError::EmptyPdf, "PDF has 0 pages", "", 500),
        (GatewayError::NoPageImages, "PDF contained no rasterizable pages", "", 500),
        (
            GatewayError::PdfInfo { stderr: text("Syntax Error") },
            "Failed to inspect PDF metadata: Syntax Error",
            "",
            500,
        ),
        (GatewayError::NoPageCount, "Could not determine page count from PDF metadata", "", 500),
        (
            GatewayError::Refused { status: text("404 Not Found"), body: text("no model") },
            "vLLM server returned error 404 Not Found: no model",
            "",
            503,
        ),
        (
            GatewayError::BadReply { cause: text("expected value") },
            "Failed to deserialize vLLM chat response JSON",
            ": expected value",
            503,
        ),
        (
            GatewayError::Other { context: text("Failed to read temp directory"), cause: text("gone") },
            "Failed to read temp directory",
            ": gone",
            500,
        ),
    ];
    for (e, message, cause, status) in errors {
        assert_eq!(e.message(), message);
        assert_eq!(e.full_message(), format!("{}{}", message, cause));
        let (answered, body) = e.reply();
        assert_eq!(answered, status, "{}", message);
        assert_eq!(body.error, "Processing failed");
        assert_eq!(body.details.as_deref(), Some(message));
    }
}

#[test]
fn a_server_that_cannot_be_reached_is_warming_up() {
    let e = GatewayError::Connect {
        endpoint: "http://ocr-vlm-service:8000/v1/chat/completions".to_string(),
        cause: "tcp connect error".to_string(),
    };
    assert_eq!(
        e.message(),
        "Failed to connect to vLLM endpoint at http://ocr-vlm-service:8000/v1/chat/completions"
    );
    assert_eq!(
        e.full_message(),
        "Failed to connect to vLLM endpoint at http://ocr-vlm-service:8000/v1/chat/completions: tcp connect error"
    );
    let (status, body) = e.reply();
    assert_eq!(status, 503);
    assert_eq!(body.error, "Processing failed");
    assert_eq!(body.details.as_deref(), Some(WARMING_UP));
    assert_eq!(
        WARMING_UP,
        "GPU Inference Server (baidu/Unlimited-OCR on NVIDIA A100) is currently initializing model weights. Please wait a moment until the GPU engine is ready."
    );
}

#[test]
fn a_server_that_answers_503_is_warming_up() {
    let answer = |status: &str, body: &str| GatewayError::Refused {
        status: status.to_string(),
        body: body.to_string(),
    };
    for body in ["", "loading", "Base64"] {
        let (status, reply) = answer("503 Service Unavailable", body).reply();
        assert_eq!(status, 503);
        assert_eq!(reply.error, "Processing failed");
        assert_eq!(reply.details.as_deref(), Some(WARMING_UP));
    }
    let (status, reply) = answer("500 Internal Server Error", "503").reply();
    assert_eq!(status, 503);
    assert_eq!(
        reply.details.as_deref(),
        Some("vLLM server returned error 500 Internal Server Error: 503")
    );
    assert_eq!(answer("500", "Base64").reply().0, 400);
    assert!(answer("503", "").loading());
    assert!(!answer("502", "").loading());
}

#[test]
fn a_prompt_that_could_not_be_sent_is_told_of() {
    let e = GatewayError::Send {
        endpoint: "http://gpu:8000/v1/chat/completions".to_string(),
        cause: "operation timed out".to_string(),
    };
    let message = "Failed to connect to vLLM endpoint at http://gpu:8000/v1/chat/completions";
    assert_eq!(e.message(), message);
    assert_eq!(e.full_message(), format!("{}: operation timed out", message));
    let (status, reply) = e.reply();
    assert_eq!(status, 503);
    assert_eq!(reply.details.as_deref(), Some(message));
    assert!(e.refusal().is_none());
}

#[test]
fn some_errors_refuse_a_client_that_wants_to_listen() {
    let refusal = |e: GatewayError| e.refusal().map(|(status, _)| status);
    assert_eq!(refusal(GatewayError::Base64 { detail: "x".to_string() }), Some(400));
    assert_eq!(refusal(GatewayError::UnsupportedFormat), Some(400));
    assert_eq!(refusal(GatewayError::TooManyPages { pages: 41, limit: 40 }), Some(413));
    let connect =
        GatewayError::Connect { endpoint: "e".to_string(), cause: "refused".to_string() };
    assert_eq!(refusal(connect), Some(503));
    assert_eq!(refusal(GatewayError::EmptyPdf), None);
    assert_eq!(refusal(GatewayError::NoPageCount), None);
    let (_, body) = GatewayError::UnsupportedFormat.refusal().unwrap();
    assert_eq!(body.error, "Processing failed");
    assert_eq!(body.details.as_deref(), Some(UNSUPPORTED));
}

#[test]
fn requests_without_a_document_are_refused() {
    for file in ["", " ", "\r\n\t", "\u{3000}"] {
        let (status, body) = refuse_empty(file).unwrap();
        assert_eq!(status, 400);
        assert_eq!(body.error, "Invalid request");
        assert_eq!(body.details.as_deref(), Some(EMPTY_FILE));
    }
    assert!(refuse_empty(" x ").is_none());
}

fn unset() -> Environment {
    Environment {
        port: None,
        vllm_base_url: None,
        model_id: None,
        pdf_max_size: None,
        default_batch_size: None,
        request_timeout_secs: None,
    }
}

#[test]
fn settings_have_defaults() {
    let c = AppConfig::from_env(&unset());
    assert_eq!(c.port, 3000);
    assert_eq!(c.vllm_base_url, "http://ocr-vlm-service:8000");
    assert_eq!(c.model_id, "baidu/Unlimited-OCR");
    assert_eq!(c.pdf_max_size, 40);
    assert_eq!(c.default_batch_size, 4);
    assert_eq!(c.request_timeout_secs, 300);
}

#[test]
fn settings_come_from_the_environment() {
    let text = |s: &str| Some(s.to_string());
    let c = AppConfig::from_env(&Environment {
        port: text("8080"),
        vllm_base_url: text("http://gpu:8000//"),
        model_id: text("m"),
        pdf_max_size: text("7"),
        default_batch_size: text("0"),
        request_timeout_secs: text("18446744073709551615"),
    });
    assert_eq!(c.port, 8080);
    assert_eq!(c.vllm_base_url, "http://gpu:8000");
    assert_eq!(c.model_id, "m");
    assert_eq!(c.pdf_max_size, 7);
    assert_eq!(c.default_batch_size, 0);
    assert_eq!(c.request_timeout_secs, u64::MAX);
    let copy = c.clone();
    assert_eq!(format!("{:?}", copy), format!("{:?}", c));
}

#[test]
fn settings_that_make_no_sense_are_passed_over() {
    let text = |s: &str| Some(s.to_string());
    let c = AppConfig::from_env(&Environment {
        port: text("65536"),
        vllm_base_url: text(""),
        model_id: text(""),
        pdf_max_size: text("-1"),
        default_batch_size: text(" 3"),
        request_timeout_secs: text("5s"),
    });
    assert_eq!(c.port, 3000);
    assert_eq!(c.vllm_base_url, "");
    assert_eq!(c.model_id, "");
    assert_eq!(c.pdf_max_size, 40);
    assert_eq!(c.default_batch_size, 4);
    assert_eq!(c.request_timeout_secs, 300);
}

#[test]
fn health_tells_the_settings() {
    let h = AppConfig::from_env(&unset()).health();
    assert_eq!(h.status, "ok");
    assert_eq!(h.model, "baidu/Unlimited-OCR");
    assert_eq!(h.vllm_endpoint, "http://ocr-vlm-service:8000");
    assert_eq!(h.pdf_max_size, 40);
}
