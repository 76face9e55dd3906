use myownllm::ollama::{chat_frame, is_success_status, parse_tags_response, pull_line_error, take_line, ChatFrame};

#[test]
fn parse_tags_response_extracts_name_and_size() {
    let body = r#"{
      "models": [
        { "name": "llama3.2:3b", "size": 2019393189, "modified_at": "2024-09-01T00:00:00Z" },
        { "name": "qwen2.5:7b",  "size": 4683072932 }
      ]
    }"#;
    let models = parse_tags_response(body);
    assert_eq!(models.len(), 2);
    assert_eq!(models[0].name, "llama3.2:3b");
    assert_eq!(models[0].size, 2019393189);
    assert_eq!(models[1].name, "qwen2.5:7b");
    assert_eq!(models[1].size, 4683072932);
}

#[test]
fn parse_tags_response_returns_empty_on_garbage() {
    assert!(parse_tags_response("").is_empty());
    assert!(parse_tags_response("not json").is_empty());
    assert!(parse_tags_response(r#"{"foo":"bar"}"#).is_empty());
    assert!(parse_tags_response(r#"{"models":"not an array"}"#).is_empty());
}

#[test]
fn parse_tags_response_skips_entries_without_name() {
    let body = r#"{"models":[{"size":100},{"name":"","size":1},{"name":"a","size":1}]}"#;
    let models = parse_tags_response(body);
    assert_eq!(models.len(), 1);
    assert_eq!(models[0].name, "a");
}

#[test]
fn parse_tags_response_handles_empty_models_array() {
    assert!(parse_tags_response(r#"{"models":[]}"#).is_empty());
}

#[test]
fn tags_size_defaults_to_zero_when_not_an_integer() {
    let body = r#"{"models":[{"name":"a","size":"big"},{"name":"b","size":-3},{"name":"c"}]}"#;
    let models = parse_tags_response(body);
    assert_eq!(models.len(), 3);
    assert_eq!(models[0].size, 0);
    assert_eq!(models[1].size, 0);
    assert_eq!(models[2].size, 0);
}

#[test]
fn chat_frames_carry_deltas_errors_and_the_end() {
    assert_eq!(chat_frame(""), ChatFrame::Skip);
    assert_eq!(chat_frame("not json"), ChatFrame::Skip);
    assert_eq!(
        chat_frame(r#"{"message":{"role":"assistant","content":"Hel"},"done":false}"#),
        ChatFrame::Part { delta: Some("Hel".to_string()), done: false }
    );
    assert_eq!(
        chat_frame(r#"{"message":{"role":"assistant","content":""},"done":true}"#),
        ChatFrame::Part { delta: None, done: true }
    );
    assert_eq!(chat_frame(r#"{"error":"model not found"}"#), ChatFrame::Failed("model not found".to_string()));
    assert_eq!(chat_frame("[1,2]"), ChatFrame::Part { delta: None, done: false });
}

#[test]
fn pull_lines_report_errors_and_success() {
    assert_eq!(pull_line_error(r#"{"error":"pull model manifest: file does not exist"}"#),
        Some("pull model manifest: file does not exist".to_string()));
    assert_eq!(pull_line_error(r#"{"status":"pulling manifest"}"#), None);
    assert_eq!(pull_line_error("garbage"), None);
    assert!(is_success_status("success"));
    assert!(is_success_status("SUCCESS"));
    assert!(is_success_status("Success"));
    assert!(!is_success_status("successful"));
    assert!(!is_success_status("pulling manifest"));
}

#[test]
fn stream_buffer_yields_complete_lines_only() {
    let mut buf = b"{\"a\":1}\n\n{\"b\"".to_vec();
    assert_eq!(take_line(&mut buf), Some(b"{\"a\":1}".to_vec()));
    assert_eq!(buf, b"\n{\"b\"".to_vec());
    assert_eq!(take_line(&mut buf), Some(Vec::new()));
    assert_eq!(take_line(&mut buf), None);
    assert_eq!(buf, b"{\"b\"".to_vec());
    buf.extend_from_slice(b":2}\n");
    assert_eq!(take_line(&mut buf), Some(b"{\"b\":2}".to_vec()));
    assert!(buf.is_empty());
}
