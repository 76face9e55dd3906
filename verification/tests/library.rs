use myownllm::purge::redirected_conversation_dir;
use myownllm::embedder::{Embedder, EmbedderError};
use myownllm::hardware::{default_headroom_nano_gb, gpu_key, is_unified_memory, GpuType, HardwareProfile};
use myownllm::json::Json;
use myownllm::num::{nano_of, parse_nano, parse_u64, parse_u64_str, u64_of};
use myownllm::preload::{active_family, other_runtimes, persist_tracked, ready_models, Outcome, PreloadEvent, Preloader, Step};
use myownllm::purge::{reset_model_config, PurgeReport};
use myownllm::resolver::{
    default_runtime_for, mode_runtime, pick_family, resolve_in_manifest, resolve_plan, tags_in_manifest, virtual_mode,
    ResolvePlan,
};
use myownllm::sorted::{insert_unique, sort_dedup, str_lt};
use myownllm::text::{is_whitespace, join_path};

fn to_json(v: &serde_json::Value) -> Json {
    match v {
        serde_json::Value::Null => Json::Null,
        serde_json::Value::Bool(b) => Json::Bool(*b),
        serde_json::Value::Number(n) => Json::Num(n.to_string()),
        serde_json::Value::String(s) => Json::Str(s.clone()),
        serde_json::Value::Array(a) => Json::Arr(a.iter().map(to_json).collect()),
        serde_json::Value::Object(o) => {
            Json::Obj(o.iter().map(|(k, v)| (k.clone(), to_json(v))).collect())
        }
    }
}

fn parse(text: &str) -> Json {
    to_json(&serde_json::from_str::<serde_json::Value>(text).unwrap())
}

fn strings(a: &[&str]) -> Vec<String> {
    a.iter().map(|s| s.to_string()).collect()
}

#[test]
fn decimal_sizes_in_billionths() {
    assert_eq!(parse_nano("8"), Some(8_000_000_000));
    assert_eq!(parse_nano("2.5"), Some(2_500_000_000));
    assert_eq!(parse_nano("-0.25"), Some(-250_000_000));
    assert_eq!(parse_nano("0.000000001"), Some(1));
    assert_eq!(parse_nano("1e3"), Some(1_000_000_000_000));
    assert_eq!(parse_nano("2.5E-1"), Some(250_000_000));
    assert_eq!(parse_nano("1e+2"), Some(100_000_000_000));
    // Finer than a billionth: rounded up (towards +infinity).
    assert_eq!(parse_nano("24.0000000001"), Some(24_000_000_001));
    assert_eq!(parse_nano("-24.0000000001"), Some(-24_000_000_000));
    assert_eq!(parse_nano("1e-300"), Some(1));
    assert_eq!(parse_nano("-1e-300"), Some(0));
    assert_eq!(parse_nano("0e-300"), Some(0));
    // Beyond 10^20 the magnitude is held at the bound.
    assert_eq!(parse_nano("1e300"), Some(100_000_000_000_000_000_000_000_000_000));
    assert_eq!(parse_nano("-1.7976931348623157e308"), Some(-100_000_000_000_000_000_000_000_000_000));
    assert_eq!(parse_nano("18446744073709551615"), Some(18_446_744_073_709_551_615_000_000_000));
    assert_eq!(parse_nano("abc"), None);
    assert_eq!(parse_nano("1e"), None);
    assert_eq!(parse_nano("1.e5"), None);
    assert_eq!(parse_nano("1e12345"), None);
    assert_eq!(nano_of(&parse("12")), Some(12_000_000_000));
    assert_eq!(nano_of(&parse(r#""12""#)), None);
}

#[test]
fn unsigned_integers() {
    assert_eq!(parse_u64("18446744073709551615"), Some(u64::MAX));
    assert_eq!(parse_u64("18446744073709551616"), None);
    assert_eq!(parse_u64("-1"), None);
    assert_eq!(parse_u64_str("+7"), Some(7));
    assert_eq!(parse_u64_str(""), None);
    assert_eq!(u64_of(&parse("4683072932")), Some(4683072932));
    assert_eq!(u64_of(&parse("1.5")), None);
}

#[test]
fn text_helpers() {
    assert_eq!(join_path("/a", "b"), "/a/b");
    assert_eq!(join_path("/a/", "b"), "/a/b");
    assert_eq!(join_path("/a", "/b"), "/b");
    assert_eq!(join_path("", "b"), "b");
    assert_eq!(myownllm::text::concat("ab", "cd"), "abcd");
    assert!(is_whitespace('\u{3000}'));
    assert!(!is_whitespace('x'));
}

#[test]
fn sorted_unique_strings() {
    assert!(str_lt("a", "b"));
    assert!(str_lt("a", "ab"));
    assert!(!str_lt("b", "a"));
    assert!(!str_lt("a", "a"));
    assert_eq!(sort_dedup(strings(&["c", "a", "b", "a"])), strings(&["a", "b", "c"]));
    let mut v = strings(&["a", "c"]);
    insert_unique(&mut v, "b".to_string());
    insert_unique(&mut v, "c".to_string());
    assert_eq!(v, strings(&["a", "b", "c"]));
}

#[test]
fn hardware_classes() {
    let hw = HardwareProfile { vram_nano_gb: None, ram_nano_gb: 0, disk_free_nano_gb: 0, gpu_type: GpuType::NoGpu };
    assert!(is_unified_memory(&hw));
    assert!(!is_unified_memory(&HardwareProfile { gpu_type: GpuType::Nvidia, ..hw }));
    assert_eq!(gpu_key(GpuType::NoGpu), "none");
    assert_eq!(gpu_key(GpuType::Amd), "amd");
    assert_eq!(default_headroom_nano_gb(GpuType::Apple), 5_000_000_000);
    assert_eq!(default_headroom_nano_gb(GpuType::NoGpu), 2_000_000_000);
    assert_eq!(default_headroom_nano_gb(GpuType::Nvidia), 1_000_000_000);
}

#[test]
fn resolver_helpers() {
    assert_eq!(default_runtime_for("transcribe"), "whisper");
    assert_eq!(default_runtime_for("code"), "ollama");
    assert_eq!(virtual_mode("myownllm-vision"), Some("vision".to_string()));
    assert_eq!(virtual_mode("code"), Some("code".to_string()));
    assert_eq!(virtual_mode("myownllm-chat"), None);
    assert_eq!(virtual_mode("llama3:8b"), None);
    let m = parse(
        r#"{"default_family":"b","families":{"a":{"modes":{"text":{"tiers":[{"model":"z"},{"model":"y"}]}}},
            "b":{"modes":{"text":{"runtime":"llama","tiers":[{"model":"y","fallback":"x"}]}}}},
            "shared_modes":{"transcribe":{"runtime":"whisper","tiers":[{"model":"t"}]}}}"#,
    );
    assert_eq!(pick_family(&m, "a").map(|(n, _)| n), Some("a".to_string()));
    assert_eq!(pick_family(&m, "zz").map(|(n, _)| n), Some("b".to_string()));
    assert_eq!(pick_family(&m, "").map(|(n, _)| n), Some("b".to_string()));
    assert!(pick_family(&parse("{}"), "a").is_none());
    assert_eq!(mode_runtime(&m, "text", "b"), Some("llama".to_string()));
    assert_eq!(mode_runtime(&m, "transcribe", "b"), Some("whisper".to_string()));
    assert_eq!(tags_in_manifest(&m), strings(&["y", "z"]));
}

#[test]
fn plans_prefer_overrides_then_profile() {
    let c = parse(
        r#"{"mode_overrides":{"code":"pinned:1","text":""},"active_provider":"P",
            "providers":[{"name":"P","url":"https://p"}],"active_family":"qwen3"}"#,
    );
    match resolve_plan(&c, "code", None) {
        ResolvePlan::Override(t) => assert_eq!(t, "pinned:1"),
        other => panic!("{other:?}"),
    }
    match resolve_plan(&c, "text", None) {
        ResolvePlan::Manifest { url, family } => {
            assert_eq!(url, "https://p");
            assert_eq!(family, "qwen3");
        }
        other => panic!("{other:?}"),
    }
    match resolve_plan(&c, "text", Some("https://profile")) {
        ResolvePlan::Manifest { url, .. } => assert_eq!(url, "https://profile"),
        other => panic!("{other:?}"),
    }
    match resolve_plan(&parse("{}"), "text", None) {
        ResolvePlan::Manifest { url, family } => {
            assert_eq!(url, "https://raw.githubusercontent.com/mrjeeves/MyOwnLLM/main/manifests/default.json");
            assert_eq!(family, "");
        }
        other => panic!("{other:?}"),
    }
}

#[test]
fn embedder_warm_up() {
    let mut e = Embedder::new("wespeaker");
    assert_eq!(e.model_path("/m/wespeaker"), "/m/wespeaker/embedder.onnx");
    assert!(e.warm_up("/m/wespeaker", true).is_ok());
    match e.warm_up("/m/wespeaker", false) {
        Err(e) => {
            assert_eq!(e.message(), "embedder ONNX missing: /m/wespeaker/embedder.onnx");
            match e {
                EmbedderError::Missing(p) => assert_eq!(p, "/m/wespeaker/embedder.onnx"),
            }
        }
        other => panic!("{other:?}"),
    }
    assert_eq!(e.dim(), None);
    assert!(Embedder::embeddable(8000));
    assert!(!Embedder::embeddable(7999));
}

#[test]
fn purge_report_counts() {
    let mut r = PurgeReport::new();
    r.record(100, 2);
    r.record(u64::MAX, u32::MAX);
    r.record_bytes(5);
    r.record_error("rm x: denied".to_string());
    assert_eq!(r.bytes_freed, u64::MAX);
    assert_eq!(r.items_removed, u32::MAX);
    assert_eq!(r.errors, vec!["rm x: denied".to_string()]);
    let mut c = parse(r#"{"providers":[1],"kept_models":["a"],"mode_overrides":{"t":"x"},"active_family":"f"}"#);
    reset_model_config(&mut c);
    assert_eq!(
        c,
        parse(r#"{"providers":[1],"kept_models":[],"mode_overrides":{},"active_family":"f","family_overrides":{}}"#)
    );
}

fn statuses(es: &[PreloadEvent]) -> Vec<String> {
    es.iter().map(|e| format!("{}:{}:{}", e.mode, e.model, e.status)).collect()
}

#[test]
fn preloader_walks_each_mode() {
    let (mut p, evs, step) = Preloader::start(
        strings(&["transcribe", "text", "code"]),
        vec![Some("whisper".to_string()), None, None],
        true,
    );
    assert_eq!(statuses(&evs), strings(&["transcribe::ready"]));
    assert!(matches!(step, Step::Resolve(ref m) if m == "text"));
    let (evs, step) = p.on(Outcome::Resolved(Ok("gemma4:e4b".to_string())));
    assert_eq!(statuses(&evs), strings(&["text:gemma4:e4b:resolved"]));
    assert!(matches!(step, Step::CheckPulled(ref t) if t == "gemma4:e4b"));
    let (evs, step) = p.on(Outcome::Present(false));
    assert_eq!(statuses(&evs), strings(&["text:gemma4:e4b:pulling"]));
    assert!(matches!(step, Step::Pull(_)));
    let line = p.on_progress("50%");
    assert_eq!(line.detail, "50%");
    let (evs, step) = p.on(Outcome::Pulled(Ok(())));
    assert_eq!(statuses(&evs), strings(&["text:gemma4:e4b:pulled", "text:gemma4:e4b:warming"]));
    assert!(matches!(step, Step::Warm(_)));
    let (evs, step) = p.on(Outcome::Warmed(Err("timeout".to_string())));
    assert_eq!(statuses(&evs), strings(&["text:gemma4:e4b:error", "text:gemma4:e4b:ready"]));
    assert!(matches!(step, Step::Resolve(ref m) if m == "code"));
    let (evs, step) = p.on(Outcome::Present(true));
    assert!(evs.is_empty());
    assert!(matches!(step, Step::Resolve(_)));
    let (evs, step) = p.on(Outcome::Resolved(Err("no manifest".to_string())));
    assert_eq!(statuses(&evs), strings(&["code::error"]));
    assert_eq!(evs[0].detail, "resolve failed: no manifest");
    assert!(matches!(step, Step::Finish));
}

#[test]
fn tracked_modes_are_appended_once() {
    let mut c = parse(r#"{"tracked_modes":["text",3]}"#);
    persist_tracked(&mut c, &strings(&["code", "text", "code"]));
    assert_eq!(c, parse(r#"{"tracked_modes":["text","code"]}"#));
    let ev = |model: &str, status: &str| PreloadEvent {
        mode: "m".to_string(),
        model: model.to_string(),
        status: status.to_string(),
        detail: String::new(),
    };
    let got = ready_models(&[ev("b", "ready"), ev("a", "pulled"), ev("a", "ready"), ev("b", "ready"), ev("", "ready")]);
    assert_eq!(got, strings(&["", "a", "b"]));
}

#[test]
fn conversation_dir_outside_the_root_is_reported() {
    assert_eq!(redirected_conversation_dir("/home/u/.myownllm", "/home/u/.myownllm/conversations"), None);
    assert_eq!(redirected_conversation_dir("/home/u/.myownllm", "/home/u/.myownllm"), None);
    assert_eq!(
        redirected_conversation_dir("/home/u/.myownllm", "/home/u/.myownllm-old/c"),
        Some("/home/u/.myownllm-old/c".to_string())
    );
    assert_eq!(redirected_conversation_dir("/home/u/.myownllm", "/data/c"), Some("/data/c".to_string()));
}

#[test]
fn non_ollama_modes_are_managed_apart() {
    let manifest = parse(
        r#"{"default_family":"fam","families":{"fam":{"modes":{
            "text":{"tiers":[]},
            "transcribe":{"runtime":"moonshine","tiers":[]},
            "code":{"runtime":"ollama","tiers":[]}}}}}"#,
    );
    let modes = strings(&["text", "transcribe", "code"]);
    let out = other_runtimes(Some(&manifest), &modes, "fam");
    assert_eq!(out, vec![None, Some("moonshine".to_string()), None]);
    assert_eq!(other_runtimes(None, &modes, "fam"), vec![None, None, None]);
    assert_eq!(active_family(&parse(r#"{"active_family":"qwen"}"#)), "qwen");
    assert_eq!(active_family(&parse(r#"{"active_family":3}"#)), "");
    assert_eq!(active_family(&parse("{}")), "");
}

#[test]
fn thresholds_finer_than_a_billionth_still_count() {
    let m = parse(
        r#"{"default_family":"f","families":{"f":{"modes":{"text":{"tiers":[
            {"min_vram_gb":24.0000000001,"min_ram_gb":1e3,"model":"big"},
            {"min_vram_gb":2.4e1,"min_ram_gb":1e3,"model":"mid"},
            {"min_vram_gb":1,"model":"small"}]}}}}}"#,
    );
    let hw = HardwareProfile {
        vram_nano_gb: Some(24_000_000_000),
        ram_nano_gb: 16_000_000_000,
        disk_free_nano_gb: 100_000_000_000,
        gpu_type: GpuType::Nvidia,
    };
    assert_eq!(resolve_in_manifest(&m, &hw, "text", "f"), Ok("mid".to_string()));
}

#[test]
fn a_whole_preload_run_reports_mode_after_mode() {
    let statuses = |v: &[PreloadEvent]| v.iter().map(|e| format!("{}:{}", e.mode, e.status)).collect::<Vec<_>>();
    let (mut p, mut all, mut step) = Preloader::start(
        strings(&["text", "transcribe", "code"]),
        vec![None, Some("moonshine".to_string()), None],
        false,
    );
    let mut outcomes = vec![
        Outcome::Resolved(Ok("a:1".to_string())),
        Outcome::Present(false),
        Outcome::Pulled(Ok(())),
        Outcome::Resolved(Ok("b:2".to_string())),
        Outcome::Present(true),
    ]
    .into_iter();
    while !matches!(step, Step::Finish) {
        let (evs, next) = p.on(outcomes.next().unwrap());
        all.extend(evs);
        step = next;
    }
    assert_eq!(
        statuses(&all),
        strings(&[
            "text:resolved",
            "text:pulling",
            "text:pulled",
            "text:ready",
            "transcribe:ready",
            "code:resolved",
            "code:ready",
        ])
    );
}
