use myownllm::hardware::{GpuType, HardwareProfile};
use myownllm::json::Json;
use myownllm::resolver::{resolve_full, resolve_in_manifest, ResolveError};

fn to_json(v: &serde_json::Value) -> Json {
    match v {
        serde_json::Value::Null => Json::Null,
        serde_json::Value::Bool(b) => Json::Bool(*b),
        serde_json::Value::Number(n) => Json::Num(n.to_string()),
        serde_json::Value::String(s) => Json::Str(s.clone()),
        serde_json::Value::Array(a) => Json::Arr(a.iter().map(to_json).collect()),
        serde_json::Value::Object(o) => {
            Json::Obj(o.iter().map(|(k, v)| (k.clone(), to_json(v))).collect())
        }
    }
}

fn parse(text: &str) -> Json {
    to_json(&serde_json::from_str::<serde_json::Value>(text).unwrap())
}

const GB: i128 = 1_000_000_000;

fn hw(gpu: GpuType, vram_gb: Option<i128>, ram_gb: i128) -> HardwareProfile {
    HardwareProfile {
        vram_nano_gb: vram_gb.map(|v| v * GB),
        ram_nano_gb: ram_gb * GB,
        disk_free_nano_gb: 100 * GB,
        gpu_type: gpu,
    }
}

fn manifest() -> Json {
    parse(
        r#"{
        "default_family": "test",
        "headroom_gb": { "apple": 5, "none": 2, "nvidia": 1, "amd": 1 },
        "families": {
            "test": {
                "label": "Test",
                "default_mode": "text",
                "modes": {
                    "text": {
                        "tiers": [
                            { "min_vram_gb": 24, "min_ram_gb": 24, "min_unified_ram_gb": 32, "model": "big:31b"   },
                            { "min_vram_gb": 12, "min_ram_gb": 12, "min_unified_ram_gb": 18, "model": "mid:12b"   },
                            { "min_vram_gb":  5, "min_ram_gb":  6, "min_unified_ram_gb": 10, "model": "e4b"       },
                            { "min_vram_gb":  4, "min_ram_gb":  4, "min_unified_ram_gb":  8, "model": "e2b"       },
                            { "min_vram_gb":  0, "min_ram_gb":  0, "min_unified_ram_gb":  0, "model": "tiny:270m" }
                        ]
                    }
                }
            }
        }
    }"#,
    )
}

#[test]
fn apple_8gb_unified_lands_on_e2b() {
    let mac = hw(GpuType::Apple, Some(8), 8);
    assert_eq!(resolve_in_manifest(&manifest(), &mac, "text", "test").unwrap(), "e2b");
}

#[test]
fn pi_4gb_no_gpu_lands_on_tiny() {
    let pi = hw(GpuType::NoGpu, None, 4);
    assert_eq!(resolve_in_manifest(&manifest(), &pi, "text", "test").unwrap(), "tiny:270m");
}

#[test]
fn pi_8gb_no_gpu_lands_on_e2b() {
    let pi = hw(GpuType::NoGpu, None, 8);
    assert_eq!(resolve_in_manifest(&manifest(), &pi, "text", "test").unwrap(), "e2b");
}

#[test]
fn apple_16gb_unified_lands_on_e4b() {
    let mac = hw(GpuType::Apple, Some(16), 16);
    assert_eq!(resolve_in_manifest(&manifest(), &mac, "text", "test").unwrap(), "e4b");
}

#[test]
fn apple_24gb_unified_lands_on_mid() {
    let mac = hw(GpuType::Apple, Some(24), 24);
    assert_eq!(resolve_in_manifest(&manifest(), &mac, "text", "test").unwrap(), "mid:12b");
}

#[test]
fn apple_36gb_unified_reaches_big() {
    let mac = hw(GpuType::Apple, Some(36), 36);
    assert_eq!(resolve_in_manifest(&manifest(), &mac, "text", "test").unwrap(), "big:31b");
}

#[test]
fn apple_28gb_unified_stops_at_mid() {
    let mac = hw(GpuType::Apple, Some(28), 28);
    assert_eq!(resolve_in_manifest(&manifest(), &mac, "text", "test").unwrap(), "mid:12b");
}

#[test]
fn discrete_nvidia_vram_still_credited() {
    let pc = hw(GpuType::Nvidia, Some(12), 8);
    assert_eq!(resolve_in_manifest(&manifest(), &pc, "text", "test").unwrap(), "mid:12b");
}

#[test]
fn discrete_nvidia_cpu_fallback_subtracts_headroom() {
    let pc = hw(GpuType::Nvidia, Some(4), 16);
    assert_eq!(resolve_in_manifest(&manifest(), &pc, "text", "test").unwrap(), "mid:12b");
}

#[test]
fn unknown_family_falls_back_to_default_family() {
    let pc = hw(GpuType::Nvidia, Some(12), 8);
    assert_eq!(
        resolve_in_manifest(&manifest(), &pc, "text", "no-such-family").unwrap(),
        "mid:12b"
    );
}

#[test]
fn legacy_tier_without_unified_field_synthesises_threshold() {
    let legacy = parse(
        r#"{
        "default_family": "test",
        "headroom_gb": { "apple": 5 },
        "families": {
            "test": {
                "default_mode": "text",
                "modes": {
                    "text": {
                        "tiers": [
                            { "min_vram_gb": 24, "min_ram_gb": 24, "model": "big"   },
                            { "min_vram_gb": 12, "min_ram_gb": 10, "model": "mid"   },
                            { "min_vram_gb":  0, "min_ram_gb":  0, "model": "small" }
                        ]
                    }
                }
            }
        }
    }"#,
    );
    let mac = hw(GpuType::Apple, Some(14), 14);
    assert_eq!(resolve_in_manifest(&legacy, &mac, "text", "test").unwrap(), "small");
}

#[test]
fn whisper_ladder_returns_turbo_everywhere() {
    let turbo = parse(
        r#"{
        "default_family": "f",
        "shared_modes": {
            "transcribe": {
                "runtime": "whisper",
                "tiers": [
                    { "min_vram_gb": 0, "min_ram_gb": 0, "min_unified_ram_gb": 0, "model": "large-v3-turbo", "fallback": "large-v3-turbo" }
                ]
            }
        },
        "families": {
            "f": { "default_mode": "text", "modes": { "text": { "tiers": [
                { "min_vram_gb": 0, "min_ram_gb": 0, "min_unified_ram_gb": 0, "model": "x" }
            ]}}}
        }
    }"#,
    );
    let pi = hw(GpuType::NoGpu, None, 4);
    let mac = hw(GpuType::Apple, Some(64), 64);
    assert_eq!(resolve_in_manifest(&turbo, &pi, "transcribe", "f").unwrap(), "large-v3-turbo");
    assert_eq!(resolve_in_manifest(&turbo, &mac, "transcribe", "f").unwrap(), "large-v3-turbo");
}

// ---- further cases of this library ----

#[test]
fn runtime_comes_from_requested_mode() {
    let turbo = parse(
        r#"{"default_family":"f","shared_modes":{"transcribe":{"runtime":"whisper","tiers":[{"model":"t"}]}},
            "families":{"f":{"default_mode":"text","modes":{"text":{"tiers":[{"model":"x"}]}}}}}"#,
    );
    let pi = hw(GpuType::NoGpu, None, 4);
    let (model, runtime) = resolve_full(&turbo, &pi, "transcribe", "f").unwrap();
    assert_eq!(model, "t");
    assert_eq!(runtime, "whisper");
    let (model, runtime) = resolve_full(&turbo, &pi, "text", "f").unwrap();
    assert_eq!(model, "x");
    assert_eq!(runtime, "ollama");
}

#[test]
fn missing_transcribe_mode_uses_tiny_en() {
    let m = parse(r#"{"default_family":"f","families":{"f":{"modes":{"text":{"tiers":[{"model":"x"}]}}}}}"#);
    let pi = hw(GpuType::NoGpu, None, 4);
    let (model, runtime) = resolve_full(&m, &pi, "transcribe", "f").unwrap();
    assert_eq!(model, "tiny.en");
    assert_eq!(runtime, "whisper");
}

#[test]
fn unknown_mode_falls_back_to_default_mode() {
    let pc = hw(GpuType::Nvidia, Some(12), 8);
    let (model, runtime) = resolve_full(&manifest(), &pc, "vision", "test").unwrap();
    assert_eq!(model, "mid:12b");
    assert_eq!(runtime, "ollama");
}

#[test]
fn resolve_errors_are_reported() {
    let pc = hw(GpuType::Nvidia, Some(12), 8);
    assert_eq!(
        resolve_in_manifest(&parse(r#"{}"#), &pc, "text", "x"),
        Err(ResolveError::NoFamilies)
    );
    assert_eq!(
        resolve_in_manifest(&parse(r#"{"families":{"f":{"default_mode":"chat","modes":{}}}}"#), &pc, "text", "f"),
        Err(ResolveError::ModeNotFound)
    );
    assert_eq!(
        resolve_in_manifest(&parse(r#"{"families":{"f":{"modes":{"text":{}}}}}"#), &pc, "text", "f"),
        Err(ResolveError::NoTiers)
    );
    assert_eq!(
        resolve_in_manifest(&parse(r#"{"families":{"f":{"modes":{"text":{"tiers":[]}}}}}"#), &pc, "text", "f"),
        Err(ResolveError::NoModel)
    );
}

#[test]
fn no_tier_fits_takes_the_last_rung() {
    let m = parse(
        r#"{"families":{"f":{"modes":{"text":{"tiers":[{"min_vram_gb":99,"min_ram_gb":99,"min_unified_ram_gb":99,"model":"a"},{"min_vram_gb":50,"min_ram_gb":50,"min_unified_ram_gb":50,"model":"b"}]}}}}}"#,
    );
    let pc = hw(GpuType::Nvidia, Some(4), 4);
    assert_eq!(resolve_in_manifest(&m, &pc, "text", "f").unwrap(), "b");
}
