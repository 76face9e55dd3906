use myownllm::api::stream_lines;
use myownllm::api::{line_payload, reframe_line};
use myownllm::api::{
    bearer_token_of, check_auth, default_warm, error_body, header_bool, needs_rewrite, parse_serve_args,
    parse_u16, rewrite_model_field, AuthError, ServeArgError, ServeArgs,
};
use myownllm::api::{pull_pending_body, rewrite_json_body, rewrite_stream_chunk, PullStatus};
use myownllm::api_models::model_list;
use myownllm::json::Json;
use myownllm::ollama::ModelInfo;

fn to_json(v: &serde_json::Value) -> Json {
    match v {
        serde_json::Value::Null => Json::Null,
        serde_json::Value::Bool(b) => Json::Bool(*b),
        serde_json::Value::Number(n) => Json::Num(n.to_string()),
        serde_json::Value::String(s) => Json::Str(s.clone()),
        serde_json::Value::Array(a) => Json::Arr(a.iter().map(to_json).collect()),
        serde_json::Value::Object(o) => {
            Json::Obj(o.iter().map(|(k, v)| (k.clone(), to_json(v))).collect())
        }
    }
}

fn parse(text: &str) -> Json {
    to_json(&serde_json::from_str::<serde_json::Value>(text).unwrap())
}

fn args(a: &[&str]) -> Vec<String> {
    a.iter().map(|s| s.to_string()).collect()
}

#[test]
fn auth_accepts_the_configured_token() {
    assert_eq!(check_auth(None, None), Ok(()));
    assert_eq!(check_auth(Some("s3cret"), Some("Bearer s3cret")), Ok(()));
    assert_eq!(check_auth(Some("s3cret"), Some("Bearer Bearer  s3cret  ")), Ok(()));
    assert_eq!(check_auth(Some("s3cret"), Some("s3cret")), Ok(()));
    assert_eq!(check_auth(Some("s3cret"), None), Err(AuthError::Missing));
    assert_eq!(check_auth(Some("s3cret"), Some("Bearer nope")), Err(AuthError::BadToken));
    assert_eq!(check_auth(Some("s3cret"), Some("bearer s3cret")), Err(AuthError::BadToken));
}

#[test]
fn bearer_token_strips_prefixes_then_trims() {
    assert_eq!(bearer_token_of("Bearer abc"), "abc");
    assert_eq!(bearer_token_of("Bearer Bearer abc "), "abc");
    assert_eq!(bearer_token_of(" Bearer abc"), "Bearer abc");
    assert_eq!(bearer_token_of(""), "");
}

#[test]
fn header_bools() {
    assert!(header_bool(Some("1")));
    assert!(header_bool(Some("TRUE")));
    assert!(header_bool(Some("Yes")));
    assert!(!header_bool(Some("y")));
    assert!(!header_bool(Some(" true")));
    assert!(!header_bool(None));
    assert!(default_warm());
}

#[test]
fn model_field_is_rewritten_back() {
    let mut v = parse(r#"{"id":"x","model":"gemma4:e4b","choices":[]}"#);
    rewrite_model_field(&mut v, "gemma4:e4b", "myownllm-text");
    assert_eq!(v, parse(r#"{"id":"x","model":"myownllm-text","choices":[]}"#));
    let mut w = parse(r#"{"model":"other"}"#);
    rewrite_model_field(&mut w, "gemma4:e4b", "myownllm-text");
    assert_eq!(w, parse(r#"{"model":"other"}"#));
    let mut a = parse(r#"["gemma4:e4b"]"#);
    rewrite_model_field(&mut a, "gemma4:e4b", "myownllm-text");
    assert_eq!(a, parse(r#"["gemma4:e4b"]"#));
    assert!(needs_rewrite(Some("myownllm-text"), Some("gemma4:e4b")));
    assert!(!needs_rewrite(Some("a"), Some("a")));
    assert!(!needs_rewrite(None, Some("a")));
}

#[test]
fn error_body_shape() {
    assert_eq!(
        error_body("bad_token", "invalid bearer token"),
        parse(r#"{"error":{"message":"invalid bearer token","type":"anyai_error","code":"bad_token"}}"#)
    );
}

#[test]
fn ports_parse_like_str_parse() {
    assert_eq!(parse_u16("1473"), Some(1473));
    assert_eq!(parse_u16("+80"), Some(80));
    assert_eq!(parse_u16("65535"), Some(65535));
    assert_eq!(parse_u16("65536"), None);
    assert_eq!(parse_u16("-1"), None);
    assert_eq!(parse_u16(""), None);
    assert_eq!(parse_u16("8o"), None);
}

#[test]
fn serve_args_over_config_defaults() {
    let cfg = parse(r#"{"api":{"host":"0.0.0.0","port":8080,"cors_allow_all":true,"bearer_token":"t"}}"#);
    assert_eq!(
        parse_serve_args(&args(&[]), &[], Some(&cfg)),
        Ok(ServeArgs {
            config_host: Some("0.0.0.0".to_string()),
            arg_host: None,
            port: 8080,
            cors_all: true,
            bearer: Some("t".to_string()),
            auto_ollama: true,
        })
    );
    // Only "::1" reads as an address among these arguments.
    assert_eq!(
        parse_serve_args(
            &args(&["--host", "::1", "--port", "9", "--no-ollama", "--bearer-token", "z"]),
            &[false, true, false, false, false, false, false],
            None
        ),
        Ok(ServeArgs {
            config_host: None,
            arg_host: Some("::1".to_string()),
            port: 9,
            cors_all: false,
            bearer: Some("z".to_string()),
            auto_ollama: false,
        })
    );
    assert_eq!(parse_serve_args(&args(&["--host"]), &[false], None), Err(ServeArgError::HostMissing));
    assert_eq!(parse_serve_args(&args(&["--port"]), &[false], None), Err(ServeArgError::PortMissing));
    assert_eq!(
        parse_serve_args(&args(&["--port", "http"]), &[false, false], None),
        Err(ServeArgError::BadPort("http".to_string()))
    );
}

#[test]
fn the_first_host_that_is_no_address_is_refused() {
    assert_eq!(
        parse_serve_args(&args(&["--host", "bad", "--host", "1.2.3.4"]), &[false, false, false, true], None),
        Err(ServeArgError::BadHost("bad".to_string()))
    );
    assert_eq!(
        parse_serve_args(&args(&["--host", "bad", "--port", "x"]), &[false, false, false, false], None),
        Err(ServeArgError::BadHost("bad".to_string()))
    );
    assert_eq!(
        parse_serve_args(&args(&["--port", "x", "--host", "bad"]), &[false, false, false, false], None),
        Err(ServeArgError::BadPort("x".to_string()))
    );
}

#[test]
fn stream_chunks_split_into_lines() {
    assert_eq!(
        stream_lines("data: {\"a\":1}\n\ndata: [DONE]"),
        vec!["data: {\"a\":1}\n".to_string(), "\n".to_string(), "data: [DONE]".to_string()]
    );
    assert!(stream_lines("").is_empty());
    assert_eq!(stream_lines("x\n"), vec!["x\n".to_string()]);
    assert_eq!(stream_lines("a\r\nb"), vec!["a\r\n".to_string(), "b".to_string()]);
}

#[test]
fn stream_payloads_and_reframing() {
    assert_eq!(line_payload("data: {\"model\":\"x\"}\r\n"), Some("{\"model\":\"x\"}".to_string()));
    assert_eq!(line_payload("data: data: {}\n"), Some("{}".to_string()));
    assert_eq!(line_payload("{\"m\":1}"), Some("{\"m\":1}".to_string()));
    assert_eq!(line_payload("data: [DONE]\n"), None);
    assert_eq!(line_payload("\r\n"), None);
    assert_eq!(line_payload("data: "), None);
    assert_eq!(reframe_line("data: {\"model\":\"x\"}\r\n", Some("{\"model\":\"y\"}")), "data: {\"model\":\"y\"}\n");
    assert_eq!(reframe_line("data: data: {}", Some("{}")), "data: {}");
    assert_eq!(reframe_line("{\"m\":1}\n", Some("{\"m\":2}")), "{\"m\":2}\n");
    assert_eq!(reframe_line("data: oops\n", None), "data: oops\n");
}

#[test]
fn model_list_has_modes_then_installed_tags() {
    let modes = vec![
        ("text".to_string(), Some("llama3.1:8b".to_string())),
        ("code".to_string(), None),
    ];
    let pulled = vec![ModelInfo { name: "qwen2.5:7b".to_string(), size: 4683087332 }];
    let list = model_list(&modes, &pulled);
    assert_eq!(list.object, "list");
    assert_eq!(list.data.len(), 3);
    assert_eq!(list.data[0].id, "myownllm-text");
    assert_eq!(list.data[0].object, "model");
    assert_eq!(list.data[0].owned_by, "anyai");
    assert_eq!(list.data[0].created, None);
    assert_eq!(
        list.data[0].metadata,
        Some(Json::Obj(vec![
            ("mode".to_string(), Json::Str("text".to_string())),
            ("resolved_to".to_string(), Json::Str("llama3.1:8b".to_string())),
        ]))
    );
    assert_eq!(list.data[1].id, "myownllm-code");
    assert_eq!(
        list.data[1].metadata,
        Some(Json::Obj(vec![
            ("mode".to_string(), Json::Str("code".to_string())),
            ("resolved_to".to_string(), Json::Null),
        ]))
    );
    assert_eq!(list.data[2].id, "qwen2.5:7b");
    assert_eq!(list.data[2].owned_by, "ollama");
    assert_eq!(
        list.data[2].metadata,
        Some(Json::Obj(vec![("size_bytes".to_string(), Json::Num("4683087332".to_string()))]))
    );
}

fn pending_body(message: &str, code: &str, tag: &str, progress: &str) -> Json {
    let s = |t: &str| Json::Str(t.to_string());
    Json::Obj(vec![(
        "error".to_string(),
        Json::Obj(vec![
            ("message".to_string(), s(message)),
            ("type".to_string(), s("anyai_error")),
            ("code".to_string(), s(code)),
            ("model".to_string(), s(tag)),
            ("progress".to_string(), s(progress)),
        ]),
    )])
}

#[test]
fn pending_pull_bodies_say_whether_the_pull_failed() {
    let running = PullStatus { done: false, error: None, last_line: "pulling 40%".to_string() };
    assert_eq!(
        pull_pending_body("llama3.1:8b", &running),
        pending_body("model llama3.1:8b is being pulled", "warming_up", "llama3.1:8b", "pulling 40%")
    );
    let failed = PullStatus { done: true, error: Some("no space left".to_string()), last_line: "error".to_string() };
    assert_eq!(
        pull_pending_body("llama3.1:8b", &failed),
        pending_body("pull failed for llama3.1:8b: no space left", "pull_failed", "llama3.1:8b", "error")
    );
}

#[test]
fn streamed_lines_show_the_requested_model() {
    let chunk = "data: {\"model\":\"llama3.1:8b\",\"delta\":\"Hi\"}\n\ndata: [DONE]\n";
    let out = rewrite_stream_chunk(chunk, Some("myownllm-text"), Some("llama3.1:8b"));
    assert_eq!(out, "data: {\"model\":\"myownllm-text\",\"delta\":\"Hi\"}\n\ndata: [DONE]\n");
    let ndjson = "{\"model\": \"llama3.1:8b\", \"done\": false}\r\nnot json\n";
    let out = rewrite_stream_chunk(ndjson, Some("myownllm-text"), Some("llama3.1:8b"));
    assert_eq!(out, "{\"model\":\"myownllm-text\",\"done\":false}\nnot json\n");
    assert_eq!(rewrite_stream_chunk(chunk, Some("x"), Some("x")), chunk);
    assert_eq!(rewrite_stream_chunk(chunk, None, Some("llama3.1:8b")), chunk);
}

#[test]
fn whole_bodies_show_the_requested_model() {
    let body = "{ \"model\": \"llama3.1:8b\", \"usage\": {\"total_tokens\": 12} }";
    assert_eq!(
        rewrite_json_body(body, Some("myownllm-text"), Some("llama3.1:8b")),
        "{\"model\":\"myownllm-text\",\"usage\":{\"total_tokens\":12}}"
    );
    assert_eq!(rewrite_json_body("not json", Some("a"), Some("b")), "not json");
    assert_eq!(rewrite_json_body(body, Some("llama3.1:8b"), Some("llama3.1:8b")), body);
    assert_eq!(rewrite_json_body(body, Some("a"), None), body);
}

#[test]
fn chunks_cut_at_line_ends_rewrite_as_the_whole() {
    let a = "{\"model\":\"llama3.1:8b\",\"done\":false}\n";
    let b = "{\"model\":\"llama3.1:8b\",\"done\":true}\n";
    let whole = format!("{a}{b}");
    let req = Some("myownllm-text");
    let res = Some("llama3.1:8b");
    assert_eq!(
        rewrite_stream_chunk(&whole, req, res),
        format!("{}{}", rewrite_stream_chunk(a, req, res), rewrite_stream_chunk(b, req, res))
    );
}
