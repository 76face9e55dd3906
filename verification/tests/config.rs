use myownllm::config::{
    active_provider_url, default_config_value, find_named, merge_defaults, tracked_list,
    tracked_modes,
};
use myownllm::json::Json;

fn to_json(v: &serde_json::Value) -> Json {
    match v {
        serde_json::Value::Null => Json::Null,
        serde_json::Value::Bool(b) => Json::Bool(*b),
        serde_json::Value::Number(n) => Json::Num(n.to_string()),
        serde_json::Value::String(s) => Json::Str(s.clone()),
        serde_json::Value::Array(a) => Json::Arr(a.iter().map(to_json).collect()),
        serde_json::Value::Object(o) => {
            Json::Obj(o.iter().map(|(k, v)| (k.clone(), to_json(v))).collect())
        }
    }
}

fn parse(text: &str) -> Json {
    to_json(&serde_json::from_str::<serde_json::Value>(text).unwrap())
}

const DEFAULTS: &str = r#"{
    "active_provider": "MyOwnLLM Default",
    "active_family": "gemma4",
    "active_mode": "text",
    "model_cleanup_days": 1,
    "kept_models": [],
    "mode_overrides": {},
    "tracked_modes": ["text"],
    "conversation_dir": "/home/u/.myownllm/conversations",
    "api": { "enabled": true, "host": "127.0.0.1", "port": 1473, "cors_allow_all": false, "bearer_token": null },
    "auto_update": { "enabled": true, "channel": "stable", "auto_apply": "patch", "check_interval_hours": 6 },
    "remote_ui": { "enabled": false, "port": 1474 },
    "providers": [
        { "name": "MyOwnLLM Default", "url": "https://raw.githubusercontent.com/mrjeeves/MyOwnLLM/main/manifests/default.json" }
    ]
}"#;

#[test]
fn default_config_has_every_setting() {
    assert_eq!(default_config_value("/home/u/.myownllm/conversations"), parse(DEFAULTS));
}

#[test]
fn merge_defaults_fills_an_empty_config() {
    let merged = merge_defaults(parse("{}"), Some("/home/u/.myownllm/conversations"));
    assert_eq!(merged, parse(DEFAULTS));
}

#[test]
fn merge_defaults_never_overwrites() {
    let mine = parse(
        r#"{"active_provider":"Mine","sources":[1],"api":{"port":9000},"providers":[],"custom":true,
            "tracked_modes":["code"],"active_family":"qwen3","conversation_dir":"/data/c"}"#,
    );
    let merged = merge_defaults(mine, Some("/home/u/.myownllm/conversations"));
    let expected = parse(
        r#"{"active_provider":"Mine","conversation_dir":"/data/c",
            "api":{"port":9000,"enabled":true,"host":"127.0.0.1","cors_allow_all":false,"bearer_token":null},
            "providers":[],"custom":true,"tracked_modes":["code"],"active_family":"qwen3",
            "active_mode":"text","model_cleanup_days":1,"kept_models":[],"mode_overrides":{},
            "auto_update":{"enabled":true,"channel":"stable","auto_apply":"patch","check_interval_hours":6},
            "remote_ui":{"enabled":false,"port":1474}}"#,
    );
    assert_eq!(merged, expected);
}

#[test]
fn merge_defaults_repairs_legacy_fields() {
    let legacy = parse(r#"{"tracked_modes":[],"active_mode":"vision","active_family":"","conversation_dir":""}"#);
    let merged = merge_defaults(legacy, None);
    match &merged {
        Json::Obj(es) => {
            let get = |k: &str| es.iter().find(|(n, _)| n == k).map(|(_, v)| v);
            assert_eq!(get("tracked_modes"), Some(&parse(r#"["vision"]"#)));
            assert_eq!(get("active_family"), Some(&Json::Str("gemma4".to_string())));
            assert_eq!(get("conversation_dir"), Some(&Json::Str(String::new())));
        }
        _ => panic!("merged config is not an object"),
    }
    assert_eq!(merge_defaults(Json::Null, None), parse(r#"{"tracked_modes":["text"],"active_family":"gemma4"}"#));
}

#[test]
fn tracked_lists_keep_strings_only() {
    let c = parse(r#"{"tracked_modes":["text",1,"code"],"kept_models":"x"}"#);
    assert_eq!(tracked_modes(&c), vec!["text".to_string(), "code".to_string()]);
    assert!(tracked_list(&c, "kept_models").is_empty());
    assert!(tracked_list(&c, "missing").is_empty());
}

#[test]
fn active_provider_url_follows_the_name() {
    let c = parse(r#"{"active_provider":"B","providers":[{"name":"A","url":"a"},{"name":"B","url":"b"}]}"#);
    assert_eq!(active_provider_url(&c), Some("b".to_string()));
    let d = parse(r#"{"active_provider":"C","providers":[{"name":"A","url":"a"}]}"#);
    assert_eq!(active_provider_url(&d), None);
    let e = parse(r#"{"providers":[{"name":"A","url":"a"}]}"#);
    assert_eq!(active_provider_url(&e), None);
}

#[test]
fn find_named_gives_the_first_match() {
    let items = match parse(r#"[{"name":"x"},{"name":"y"},{"name":"y"}]"#) {
        Json::Arr(a) => a,
        _ => unreachable!(),
    };
    assert_eq!(find_named(&items, "y"), Some(1));
    assert_eq!(find_named(&items, "z"), None);
}
