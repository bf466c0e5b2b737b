use ocr_gateway::tasks::{
    get_status, is_file_field, missing_file, queue_document, redis_url, submit_task, task_key,
    FILE_FIELD, QUEUE,
};

fn text(s: &str) -> Option<String> {
    Some(s.to_string())
}

fn pair(name: &str, value: &str) -> (String, String) {
    (name.to_string(), value.to_string())
}

#[test]
fn documents_are_queued() {
    let task = queue_document("42".to_string(), &text("scan.v2.png"), b"Hello");
    assert_eq!(task.key, "task:42");
    assert_eq!(
        task.fields,
        vec![
            pair("status", "queued"),
            pair("filename", "scan.v2.png"),
            pair("extension", "png"),
            pair("data", "SGVsbG8="),
        ]
    );
    assert_eq!(task.status, 202);
    assert_eq!(task.response.task_id, "42");
    assert_eq!(task.response.status, "queued");
    assert_eq!(QUEUE, "ocr_tasks");
}

#[test]
fn documents_without_a_name_are_taken_for_pdfs() {
    let task = queue_document("1".to_string(), &None, b"");
    assert_eq!(task.fields[1], pair("filename", "unknown.pdf"));
    assert_eq!(task.fields[2], pair("extension", "pdf"));
    assert_eq!(task.fields[3], pair("data", ""));
    let task = queue_document("1".to_string(), &text("README"), b"");
    assert_eq!(task.fields[2], pair("extension", "README"));
}

#[test]
fn tasks_get_random_numbers() {
    let a = submit_task(&text("a.png"), b"Hello");
    let b = submit_task(&text("a.png"), b"Hello");
    let id = a.response.task_id;
    assert_ne!(id, b.response.task_id);
    assert_eq!(id.len(), 36);
    for (i, c) in id.chars().enumerate() {
        if i == 8 || i == 13 || i == 18 || i == 23 {
            assert_eq!(c, '-');
        } else {
            assert!(c.is_ascii_digit() || ('a'..='f').contains(&c), "{}", id);
        }
    }
    assert_eq!(id.chars().nth(14), Some('4'));
    assert!("89ab".contains(id.chars().nth(19).unwrap()));
    assert_eq!(a.key, format!("task:{}", id));
    assert_eq!(a.fields[3], pair("data", "SGVsbG8="));
}

#[test]
fn queued_tasks_are_told_of_as_queued() {
    let task = queue_document("7".to_string(), &text("a.pdf"), b"%PDF-");
    let reply = get_status("7".to_string(), &Some(task.fields)).unwrap();
    assert_eq!(reply.task_id, "7");
    assert_eq!(reply.status, "queued");
    assert!(reply.result.is_none());
    assert!(reply.error.is_none());
}

#[test]
fn finished_tasks_are_told_of_with_their_results() {
    let fields = vec![
        pair("status", "done"),
        pair("result", "{\"markdown\": \"# Document Title\"}"),
    ];
    let reply = get_status("7".to_string(), &Some(fields)).unwrap();
    assert_eq!(reply.status, "done");
    let result = reply.result.unwrap();
    assert_eq!(result.get("markdown").and_then(|m| m.as_str()), Some("# Document Title"));
    assert!(reply.error.is_none());
}

#[test]
fn results_are_told_of_as_they_were_stored() {
    for text in ["1", "-2.5", "true", "false", "null", "[48,85]", "\"x\""] {
        let fields = vec![pair("result", text)];
        let reply = get_status("7".to_string(), &Some(fields)).unwrap();
        assert_eq!(reply.result.unwrap().to_string(), text);
    }
}

#[test]
fn failed_tasks_are_told_of_with_their_errors() {
    let fields = vec![pair("error", "out of memory"), pair("status", "failed")];
    let reply = get_status("7".to_string(), &Some(fields)).unwrap();
    assert_eq!(reply.status, "failed");
    assert_eq!(reply.error, text("out of memory"));
    assert!(reply.result.is_none());
}

#[test]
fn results_that_are_no_json_are_left_out() {
    let fields = vec![pair("status", "done"), pair("result", "{oops")];
    let reply = get_status("7".to_string(), &Some(fields)).unwrap();
    assert!(reply.result.is_none());
    let reply = get_status("7".to_string(), &Some(vec![pair("result", "null")])).unwrap();
    assert_eq!(reply.status, "unknown");
    assert!(reply.result.unwrap().is_null());
}

#[test]
fn unknown_tasks_are_not_found() {
    let refusal = get_status("7".to_string(), &None).unwrap_err();
    assert_eq!(refusal.status, 404);
    assert_eq!(refusal.message, "Task ID not found");
}

#[test]
fn forms_hold_the_document_in_a_field() {
    assert_eq!(FILE_FIELD, "file");
    assert!(is_file_field(&text("file")));
    assert!(!is_file_field(&text("File")));
    assert!(!is_file_field(&text("")));
    assert!(!is_file_field(&None));
    let refusal = missing_file();
    assert_eq!(refusal.status, 400);
    assert_eq!(refusal.message, "Missing 'file' field in multipart form");
}

#[test]
fn the_store_is_found() {
    assert_eq!(redis_url(&None, &None), "redis://ocr-redis-service:6379");
    assert_eq!(redis_url(&text("cache"), &text("1")), "redis://cache:1");
    assert_eq!(task_key("a-b"), "task:a-b");
}
