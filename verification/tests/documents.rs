use myownllm::api_models::{model_list_json, ModelList, ModelObject};
use myownllm::config::{config_from_text, default_config_value, merge_defaults, ConfigTextError};
use myownllm::json::Json;
use myownllm::json_text::{document_pretty_text, document_text, parse_document, read_document};
use myownllm::parakeet::ParakeetBackend;

fn s(t: &str) -> Json {
    Json::Str(t.to_string())
}

fn obj(es: Vec<(&str, Json)>) -> Json {
    Json::Obj(es.into_iter().map(|(k, v)| (k.to_string(), v)).collect())
}

#[test]
fn documents_read_back_keys_in_order() {
    let doc = parse_document(r#"{"b": 1, "a": [true, null, "x"], "c": 2.5}"#).unwrap();
    assert_eq!(
        doc,
        obj(vec![
            ("b", Json::Num("1".to_string())),
            ("a", Json::Arr(vec![Json::Bool(true), Json::Null, s("x")])),
            ("c", Json::Num("2.5".to_string())),
        ])
    );
}

#[test]
fn text_that_is_not_json_gives_no_document() {
    assert_eq!(parse_document("{not json"), None);
    assert_eq!(parse_document(""), None);
    assert!(read_document("[1,").is_err());
    assert_eq!(read_document("null"), Ok(Json::Null));
}

#[test]
fn documents_write_compact_and_indented() {
    let doc = obj(vec![("name", s("a")), ("n", Json::Num("3".to_string()))]);
    assert_eq!(document_text(&doc), r#"{"name":"a","n":3}"#);
    assert_eq!(document_pretty_text(&doc), "{\n  \"name\": \"a\",\n  \"n\": 3\n}");
    assert_eq!(parse_document(&document_pretty_text(&doc)), Some(doc));
}

#[test]
fn config_text_is_merged_with_the_defaults() {
    let dir = "/home/u/.myownllm/conversations";
    assert_eq!(config_from_text("{}", Some(dir)), Ok(default_config_value(dir)));
    let mine = config_from_text(r#"{"active_mode":"code"}"#, Some(dir)).unwrap();
    let expected = merge_defaults(obj(vec![("active_mode", s("code"))]), Some(dir));
    assert_eq!(mine, expected);
    assert_eq!(mine.get("active_mode").and_then(|v| v.as_str()), Some("code"));
}

#[test]
fn config_text_that_is_not_an_object_is_refused() {
    assert!(matches!(config_from_text("{oops", None), Err(ConfigTextError::NotJson(_))));
    assert_eq!(config_from_text("[1, 2]", None), Err(ConfigTextError::NotObject));
    assert_eq!(config_from_text("\"text\"", None), Err(ConfigTextError::NotObject));
    assert!(config_from_text("null", None).is_ok());
}

#[test]
fn model_listing_as_a_document() {
    let list = ModelList {
        object: "list",
        data: vec![
            ModelObject {
                id: "anyai-text".to_string(),
                object: "model",
                owned_by: "anyai".to_string(),
                created: None,
                metadata: Some(obj(vec![("mode", s("text"))])),
            },
            ModelObject {
                id: "llama3:8b".to_string(),
                object: "model",
                owned_by: "ollama".to_string(),
                created: Some(-5),
                metadata: None,
            },
        ],
    };
    assert_eq!(
        document_text(&model_list_json(&list)),
        r#"{"object":"list","data":[{"id":"anyai-text","object":"model","owned_by":"anyai","metadata":{"mode":"text"}},{"id":"llama3:8b","object":"model","owned_by":"ollama","created":-5}]}"#
    );
}

fn backend() -> ParakeetBackend {
    ParakeetBackend {
        model_name: "parakeet".to_string(),
        tokens: vec![
            String::new(),
            "\u{2581}hello".to_string(),
            "\u{2581}world".to_string(),
            "\u{2581}again".to_string(),
        ],
    }
}

#[test]
fn token_runs_split_at_long_gaps() {
    let b = backend();
    let segs = b.decode_to_segments(&[1, 2, 3], Some(&[0, 1, 10]), 16000);
    assert_eq!(segs.len(), 2);
    assert_eq!((segs[0].start_ms, segs[0].end_ms, segs[0].text.as_str()), (0, 160, "hello world"));
    assert_eq!((segs[1].start_ms, segs[1].end_ms, segs[1].text.as_str()), (800, 880, "again"));
}

#[test]
fn extra_timestamps_stretch_the_last_run() {
    let b = backend();
    let segs = b.decode_to_segments(&[1, 2], Some(&[0, 1, 2, 3]), 16000);
    assert_eq!(segs.len(), 1);
    assert_eq!((segs[0].start_ms, segs[0].end_ms, segs[0].text.as_str()), (0, 320, "hello world"));
}

#[test]
fn without_timestamps_the_chunk_is_one_segment() {
    let b = backend();
    let segs = b.decode_to_segments(&[1, 2], None, 32000);
    assert_eq!(segs.len(), 1);
    assert_eq!((segs[0].start_ms, segs[0].end_ms, segs[0].text.as_str()), (0, 2000, "hello world"));
    assert!(b.decode_to_segments(&[0], None, 32000).is_empty());
    assert!(b.decode_to_segments(&[], Some(&[]), 32000).is_empty());
}
