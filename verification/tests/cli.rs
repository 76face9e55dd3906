use myownllm::cli::{base64_decode, decode_import_link, evicted_tags, export_link, merge_preset_providers, merge_preset_sources, model_rows};
use myownllm::cli::{
    add_provider, add_source, base64_encode, command_of, contains_arg, export_config, flag_value,
    import_config, is_known_mode, keep_model, override_model, parse_preload_args, parse_run_args,
    prune_candidates, remove_model_refs, remove_provider, remove_source, unkeep_model, url_of,
    use_provider, CliError, Command, PreloadArgError, PreloadArgs, RunArgs,
};
use myownllm::json::Json;

fn to_json(v: &serde_json::Value) -> Json {
    match v {
        serde_json::Value::Null => Json::Null,
        serde_json::Value::Bool(b) => Json::Bool(*b),
        serde_json::Value::Number(n) => Json::Num(n.to_string()),
        serde_json::Value::String(s) => Json::Str(s.clone()),
        serde_json::Value::Array(a) => Json::Arr(a.iter().map(to_json).collect()),
        serde_json::Value::Object(o) => {
            Json::Obj(o.iter().map(|(k, v)| (k.clone(), to_json(v))).collect())
        }
    }
}

fn parse(text: &str) -> Json {
    to_json(&serde_json::from_str::<serde_json::Value>(text).unwrap())
}

fn args(a: &[&str]) -> Vec<String> {
    a.iter().map(|s| s.to_string()).collect()
}

#[test]
fn keep_adds_once() {
    let mut c = parse(r#"{"kept_models":["a"]}"#);
    keep_model(&mut c, "b");
    assert_eq!(c, parse(r#"{"kept_models":["a","b"]}"#));
    keep_model(&mut c, "b");
    assert_eq!(c, parse(r#"{"kept_models":["a","b"]}"#));
}

#[test]
fn keep_replaces_a_non_array() {
    let mut c = parse(r#"{"kept_models":"x","other":1}"#);
    keep_model(&mut c, "m");
    assert_eq!(c, parse(r#"{"kept_models":["m"],"other":1}"#));
    let mut n = Json::Null;
    keep_model(&mut n, "m");
    assert_eq!(n, parse(r#"{"kept_models":["m"]}"#));
}

#[test]
fn unkeep_removes_every_copy() {
    let mut c = parse(r#"{"kept_models":["a","b","a"]}"#);
    unkeep_model(&mut c, "a");
    assert_eq!(c, parse(r#"{"kept_models":["b"]}"#));
    let mut d = parse(r#"{}"#);
    unkeep_model(&mut d, "a");
    assert_eq!(d, parse(r#"{"kept_models":null}"#));
}

#[test]
fn override_sets_and_clears() {
    let mut c = parse(r#"{"mode_overrides":null}"#);
    override_model(&mut c, "code", "qwen:7b");
    assert_eq!(c, parse(r#"{"mode_overrides":{"code":"qwen:7b"}}"#));
    override_model(&mut c, "code", "--clear");
    assert_eq!(c, parse(r#"{"mode_overrides":{"code":null}}"#));
}

#[test]
fn remove_clears_pin_and_overrides() {
    let mut c = parse(r#"{"kept_models":["m","n"],"mode_overrides":{"text":"m","code":"n"}}"#);
    remove_model_refs(&mut c, "m");
    assert_eq!(
        c,
        parse(r#"{"kept_models":["n"],"mode_overrides":{"text":null,"code":"n"}}"#)
    );
}

#[test]
fn add_provider_appends_then_updates_url() {
    let mut c = parse(r#"{"providers":[{"name":"A","url":"u1"}]}"#);
    assert_eq!(add_provider(&mut c, "u2", "B", None), Ok(()));
    assert_eq!(
        c,
        parse(r#"{"providers":[{"name":"A","url":"u1"},{"name":"B","url":"u2","source":null}]}"#)
    );
    assert_eq!(add_provider(&mut c, "u3", "A", Some("src")), Ok(()));
    assert_eq!(
        c,
        parse(r#"{"providers":[{"name":"A","url":"u3"},{"name":"B","url":"u2","source":null}]}"#)
    );
}

#[test]
fn add_provider_twice_is_once() {
    let mut once = parse(r#"{"providers":[]}"#);
    add_provider(&mut once, "u", "P", Some("s")).unwrap();
    let mut twice = parse(r#"{"providers":[]}"#);
    add_provider(&mut twice, "u", "P", Some("s")).unwrap();
    add_provider(&mut twice, "u", "P", Some("s")).unwrap();
    assert_eq!(once, twice);
    assert_eq!(once, parse(r#"{"providers":[{"name":"P","url":"u","source":"s"}]}"#));
}

#[test]
fn add_provider_needs_a_list() {
    let mut c = parse(r#"{"providers":{}}"#);
    assert_eq!(add_provider(&mut c, "u", "P", None), Err(CliError::MissingProviders));
    let mut d = parse(r#"{}"#);
    assert_eq!(add_provider(&mut d, "u", "P", None), Err(CliError::MissingProviders));
    assert_eq!(d, parse(r#"{"providers":null}"#));
}

#[test]
fn sources_add_and_remove() {
    let mut c = parse(r#"{"sources":[]}"#);
    assert_eq!(add_source(&mut c, "u", "S"), Ok(()));
    assert_eq!(c, parse(r#"{"sources":[{"name":"S","url":"u"}]}"#));
    remove_source(&mut c, "S");
    assert_eq!(c, parse(r#"{"sources":[]}"#));
    let mut d = parse(r#"{"x":1}"#);
    assert_eq!(add_source(&mut d, "u", "S"), Err(CliError::MissingSources));
}

#[test]
fn remove_provider_refuses_the_active_one() {
    let text = r#"{"active_provider":"A","providers":[{"name":"A","url":"u"},{"name":"B","url":"v"}]}"#;
    let mut c = parse(text);
    assert_eq!(remove_provider(&mut c, "A"), Err(CliError::ActiveProvider));
    assert_eq!(c, parse(text));
    assert_eq!(remove_provider(&mut c, "B"), Ok(()));
    assert_eq!(c, parse(r#"{"active_provider":"A","providers":[{"name":"A","url":"u"}]}"#));
}

#[test]
fn use_provider_switches_and_is_idempotent() {
    let mut c = parse(r#"{"active_provider":"A","active_family":"gemma4","providers":[{"name":"A"},{"name":"B"}]}"#);
    let manifest = parse(r#"{"default_family":"qwen3","families":{"qwen3":{}}}"#);
    assert_eq!(use_provider(&mut c, "B", Some(&manifest)), Ok(()));
    let after = parse(r#"{"active_provider":"B","active_family":"qwen3","providers":[{"name":"A"},{"name":"B"}]}"#);
    assert_eq!(c, after);
    assert_eq!(use_provider(&mut c, "B", Some(&manifest)), Ok(()));
    assert_eq!(c, after);
    assert_eq!(use_provider(&mut c, "Z", Some(&manifest)), Err(CliError::NotFound));
    assert_eq!(c, after);
    // Without a readable manifest only the provider changes.
    assert_eq!(use_provider(&mut c, "A", None), Ok(()));
    let back = parse(r#"{"active_provider":"A","active_family":"qwen3","providers":[{"name":"A"},{"name":"B"}]}"#);
    assert_eq!(c, back);
}

#[test]
fn url_of_finds_the_first_entry() {
    let c = parse(r#"{"providers":[{"name":"A","url":"u1"},{"name":"A","url":"u2"},{"name":"B"}]}"#);
    assert_eq!(url_of(&c, "providers", "A"), Some("u1".to_string()));
    assert_eq!(url_of(&c, "providers", "B"), None);
    assert_eq!(url_of(&c, "sources", "A"), None);
}

#[test]
fn import_is_additive() {
    let mut c = parse(
        r#"{"sources":[],"providers":[{"name":"A","url":"mine"}]}"#,
    );
    let imported = parse(
        r#"{"providers":[{"name":"A","url":"theirs"},{"name":"B","url":"b"},{"name":"B","url":"b2"}]}"#,
    );
    assert_eq!(import_config(&mut c, &imported), Ok(()));
    assert_eq!(
        c,
        parse(r#"{"sources":[],"providers":[{"name":"A","url":"mine"},{"name":"B","url":"b"}]}"#)
    );
}

#[test]
fn import_refuses_a_missing_list() {
    let mut c = parse(r#"{"providers":[]}"#);
    let imported = parse(r#"{"sources":[{"name":"S","url":"s"}]}"#);
    assert_eq!(import_config(&mut c, &imported), Err(CliError::MissingSources));
    let mut d = parse(r#"{"sources":[]}"#);
    let imported2 = parse(r#"{"providers":[{"name":"P","url":"p"}]}"#);
    assert_eq!(import_config(&mut d, &imported2), Err(CliError::MissingProviders));
}

#[test]
fn export_picks_lists() {
    let c = parse(r#"{"sources":[1],"providers":[2],"other":3}"#);
    assert_eq!(export_config(&c, false, false), parse(r#"{"sources":[1],"providers":[2]}"#));
    assert_eq!(export_config(&c, true, false), parse(r#"{"sources":[1]}"#));
    assert_eq!(export_config(&c, false, true), parse(r#"{"providers":[2]}"#));
    let e = parse(r#"{}"#);
    assert_eq!(export_config(&e, false, false), parse(r#"{"sources":null,"providers":null}"#));
}

#[test]
fn flags_are_read() {
    let a = args(&["--name", "X", "--url"]);
    assert_eq!(flag_value(&a, "--name"), Some("X".to_string()));
    assert_eq!(flag_value(&a, "--url"), None);
    assert_eq!(flag_value(&a, "--other"), None);
    assert!(contains_arg(&a, "--url"));
    assert!(!contains_arg(&a, "--json"));
}

#[test]
fn base64_is_url_safe_without_padding() {
    assert_eq!(base64_encode(""), "");
    assert_eq!(base64_encode("f"), "Zg");
    assert_eq!(base64_encode("fo"), "Zm8");
    assert_eq!(base64_encode("foo"), "Zm9v");
    assert_eq!(base64_encode("foob"), "Zm9vYg");
    assert_eq!(base64_encode(r#"{"providers":[]}"#), "eyJwcm92aWRlcnMiOltdfQ");
    assert_eq!(base64_encode("\u{fb}\u{ff}"), "w7vDvw");
    assert_eq!(base64_encode("??>"), "Pz8-");
    assert_eq!(base64_encode("???"), "Pz8_");
}

#[test]
fn run_args_default_to_text() {
    assert_eq!(
        parse_run_args(&args(&[])),
        RunArgs { mode: "text".to_string(), model: None, profile: None }
    );
    assert_eq!(
        parse_run_args(&args(&["--mode", "code", "--model", "m", "x", "--profile", "p"])),
        RunArgs { mode: "code".to_string(), model: Some("m".to_string()), profile: Some("p".to_string()) }
    );
    assert_eq!(
        parse_run_args(&args(&["--mode"])),
        RunArgs { mode: String::new(), model: None, profile: None }
    );
}

#[test]
fn preload_args() {
    assert_eq!(
        parse_preload_args(&args(&["text", "code", "--track", "--no-warm"])),
        Ok(PreloadArgs {
            modes: vec!["text".to_string(), "code".to_string()],
            track: true,
            warm: false,
            json: false
        })
    );
    assert_eq!(parse_preload_args(&args(&["--json"])), Err(PreloadArgError::Usage));
    assert_eq!(
        parse_preload_args(&args(&["text", "audio"])),
        Err(PreloadArgError::UnknownMode("audio".to_string()))
    );
    assert!(is_known_mode("transcribe"));
    assert!(!is_known_mode("Text"));
}

#[test]
fn commands_are_named() {
    assert_eq!(command_of(&args(&[])), Command::Help);
    assert_eq!(command_of(&args(&["serve", "--port", "1"])), Command::Serve);
    assert_eq!(command_of(&args(&["-V"])), Command::Version);
    assert_eq!(command_of(&args(&["--help"])), Command::Help);
    assert_eq!(command_of(&args(&["frobnicate"])), Command::Unknown("frobnicate".to_string()));
}

#[test]
fn prune_spares_kept_and_overridden() {
    let config = parse(r#"{"kept_models":["k"],"mode_overrides":{"code":"o","text":null}}"#);
    let status = parse(
        r#"{"k":{"recommended_by":[]},"o":{},"r":{"recommended_by":["p"]},"u":{"recommended_by":[]},"v":{"recommended_by":"x"}}"#,
    );
    assert_eq!(prune_candidates(&config, Some(&status)), vec!["u".to_string(), "v".to_string()]);
    assert!(prune_candidates(&config, None).is_empty());
    assert!(prune_candidates(&config, Some(&parse("[]"))).is_empty());
}

#[test]
fn presets_are_merged_by_name() {
    let preset = match parse(r#"[{"name":"A","url":"new"},{"name":"C","url":"c"},{"url":"nameless"},{"url":"again"}]"#) {
        Json::Arr(a) => a,
        _ => unreachable!(),
    };
    let mut c = parse(r#"{"providers":[{"name":"A","url":"mine"}],"sources":[]}"#);
    assert_eq!(merge_preset_providers(&mut c, &preset), Ok(()));
    assert_eq!(
        c,
        parse(r#"{"providers":[{"name":"A","url":"mine"},{"name":"C","url":"c"},{"url":"nameless"},{"url":"again"}],"sources":[]}"#)
    );
    let mut d = parse(r#"{}"#);
    assert_eq!(merge_preset_sources(&mut d, &preset), Err(CliError::MissingSources));
    assert_eq!(merge_preset_providers(&mut d, &preset), Err(CliError::MissingProviders));
}

#[test]
fn export_link_encodes_compact_json() {
    let export = Json::Obj(vec![(
        "sources".to_string(),
        Json::Arr(vec![Json::Obj(vec![
            ("name".to_string(), Json::Str("a".to_string())),
            ("url".to_string(), Json::Str("u".to_string())),
        ])]),
    )]);
    // {"sources":[{"name":"a","url":"u"}]}
    assert_eq!(export_link(&export), "anyai:import:eyJzb3VyY2VzIjpbeyJuYW1lIjoiYSIsInVybCI6InUifV19");
}

#[test]
fn model_rows_flag_pins_and_overrides() {
    let s = |t: &str| Json::Str(t.to_string());
    let config = Json::Obj(vec![
        ("kept_models".to_string(), Json::Arr(vec![s("a:1")])),
        (
            "mode_overrides".to_string(),
            Json::Obj(vec![("code".to_string(), s("b:2")), ("text".to_string(), s("b:2")), ("vision".to_string(), s("a:1"))]),
        ),
    ]);
    let pulled = vec![
        myownllm::ollama::ModelInfo { name: "a:1".to_string(), size: 10 },
        myownllm::ollama::ModelInfo { name: "b:2".to_string(), size: 20 },
        myownllm::ollama::ModelInfo { name: "c:3".to_string(), size: 30 },
    ];
    let rows = model_rows(&config, &pulled);
    assert_eq!(rows.len(), 3);
    assert!(rows[0].kept);
    assert_eq!(rows[0].override_for, vec!["vision".to_string()]);
    assert!(!rows[1].kept);
    assert_eq!(rows[1].override_for, vec!["code".to_string(), "text".to_string()]);
    assert_eq!(rows[1].size, 20);
    assert!(!rows[2].kept);
    assert!(rows[2].override_for.is_empty());
    let rows = model_rows(&Json::Obj(vec![]), &pulled);
    assert!(rows.iter().all(|r| !r.kept && r.override_for.is_empty()));
}

#[test]
fn immediate_switch_evicts_only_dropped_tags() {
    let v = |a: &[&str]| a.iter().map(|s| s.to_string()).collect::<Vec<String>>();
    assert_eq!(evicted_tags(&v(&["a:1", "b:2", "c:3"]), &v(&["b:2", "d:4"])), v(&["a:1", "c:3"]));
    assert_eq!(evicted_tags(&v(&["a:1"]), &v(&["a:1"])), v(&[]));
    assert_eq!(evicted_tags(&v(&[]), &v(&["a:1"])), v(&[]));
}

#[test]
fn import_links_decode_what_export_encodes() {
    assert_eq!(decode_import_link("anyai:import:eyJwcm92aWRlcnMiOltdfQ"), Some(b"{\"providers\":[]}".to_vec()));
    let export = Json::Obj(vec![("sources".to_string(), Json::Arr(vec![]))]);
    let link = export_link(&export);
    assert_eq!(decode_import_link(&link), Some(b"{\"sources\":[]}".to_vec()));
    assert_eq!(decode_import_link("./config.json"), None);
    assert_eq!(decode_import_link("anyai:import:e"), None);
    assert_eq!(decode_import_link("anyai:import:Zh"), None);
    assert_eq!(decode_import_link("anyai:import:a+b/"), None);
    assert_eq!(base64_decode(""), Some(vec![]));
    assert_eq!(base64_decode("Zg"), Some(b"f".to_vec()));
    assert_eq!(base64_decode("Zm9vYmFy"), Some(b"foobar".to_vec()));
    assert_eq!(base64_decode("_-8"), Some(vec![0xff, 0xef]));
}
