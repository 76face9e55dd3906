use myownllm::iso::{iso_from_secs, iso_overflows, parse_iso_secs};
use myownllm::json::Json;
use myownllm::manifest::{
    bundled_is_newer, cache_entry, cache_fresh, cache_on_failure, djb2, empty_manifest, hex_lower,
    is_stale, manifest_cache_path, manifest_imports, merge_manifest, Visited,
};

fn to_json(v: &serde_json::Value) -> Json {
    match v {
        serde_json::Value::Null => Json::Null,
        serde_json::Value::Bool(b) => Json::Bool(*b),
        serde_json::Value::Number(n) => Json::Num(n.to_string()),
        serde_json::Value::String(s) => Json::Str(s.clone()),
        serde_json::Value::Array(a) => Json::Arr(a.iter().map(to_json).collect()),
        serde_json::Value::Object(o) => {
            Json::Obj(o.iter().map(|(k, v)| (k.clone(), to_json(v))).collect())
        }
    }
}

fn parse(text: &str) -> Json {
    to_json(&serde_json::from_str::<serde_json::Value>(text).unwrap())
}

#[test]
fn own_families_win_over_imports() {
    let raw = parse(
        r#"{"name":"mine","version":"2","imports":["u"],"families":{"a":{"label":"own"}},
            "shared_modes":{"transcribe":{"runtime":"whisper"}}}"#,
    );
    let imp1 = parse(r#"{"families":{"a":{"label":"first"},"b":{"label":"first"}}}"#);
    let imp2 = parse(r#"{"families":{"b":{"label":"second"},"c":{}},"shared_modes":{"x":{}}}"#);
    let merged = merge_manifest(&raw, &[imp1, imp2]);
    assert_eq!(
        merged,
        parse(
            r#"{"name":"mine","version":"2","ttl_minutes":null,"default_family":null,
                "shared_modes":{"x":{},"transcribe":{"runtime":"whisper"}},
                "families":{"a":{"label":"own"},"b":{"label":"second"},"c":{}}}"#
        )
    );
}

#[test]
fn empty_manifest_has_no_families() {
    assert_eq!(
        empty_manifest(),
        parse(r#"{"name":"","version":"1","default_family":"","families":{}}"#)
    );
}

#[test]
fn imports_are_the_listed_strings() {
    let raw = parse(r#"{"imports":["a",2,"b"]}"#);
    assert_eq!(manifest_imports(&raw), vec!["a".to_string(), "b".to_string()]);
    assert!(manifest_imports(&parse("{}")).is_empty());
}

#[test]
fn visited_breaks_cycles() {
    let mut v = Visited::new();
    assert!(v.insert("https://a"));
    assert!(v.insert("https://b"));
    assert!(!v.insert("https://a"));
}

#[test]
fn djb2_and_hex_values() {
    assert_eq!(djb2(""), 5381);
    assert_eq!(djb2("a"), 177670);
    assert_eq!(djb2("ab"), 5863208);
    assert_eq!(hex_lower(0), "0");
    assert_eq!(hex_lower(255), "ff");
    assert_eq!(hex_lower(u64::MAX), "ffffffffffffffff");
    let long = "x".repeat(40);
    let mut h: u64 = 5381;
    for b in long.bytes() {
        h = h.wrapping_mul(33).wrapping_add(b as u64);
    }
    assert_eq!(djb2(&long), h);
}

#[test]
fn cache_path_is_the_hash_of_the_url() {
    assert_eq!(
        manifest_cache_path("/home/u/.myownllm", "a"),
        "/home/u/.myownllm/cache/manifests/2b606.json"
    );
}

#[test]
fn staleness_follows_the_ttl() {
    let fetched = "2024-01-01T00:00:00Z";
    let t = parse_iso_secs(fetched).unwrap();
    assert_eq!(t, 1704067200);
    let minute: i128 = 1_000_000_000;
    assert!(!is_stale(fetched, 10 * minute, (t + 600) as i64));
    assert!(is_stale(fetched, 10 * minute, (t + 601) as i64));
    assert!(is_stale("garbage", 10 * minute, t as i64));
}

#[test]
fn cached_copy_rules() {
    let entry = cache_entry(
        "2024-01-01T00:00:00Z",
        parse(r#"{"version":"3","ttl_minutes":60}"#),
    );
    assert_eq!(
        entry,
        parse(r#"{"fetched_at":"2024-01-01T00:00:00Z","manifest":{"version":"3","ttl_minutes":60}}"#)
    );
    let now = 1704067200 + 3600;
    assert!(cache_fresh(&entry, None, now));
    assert!(!cache_fresh(&entry, None, now + 1));
    let newer = parse(r#"{"version":"4"}"#);
    let same = parse(r#"{"version":"3"}"#);
    assert!(!cache_fresh(&entry, Some(&newer), now));
    assert!(cache_fresh(&entry, Some(&same), now));
    assert!(!cache_on_failure(&entry, Some(&newer)));
    assert!(cache_on_failure(&entry, None));
    assert!(bundled_is_newer(Some(&newer), &same));
    assert!(!bundled_is_newer(Some(&parse(r#"{"version":4}"#)), &same));
}

#[test]
fn iso_parse_and_format() {
    assert_eq!(parse_iso_secs("1970-01-01T00:00:00Z"), Some(0));
    assert_eq!(parse_iso_secs("2024-01-02T03:04:05.678Z"), Some(1704164645));
    assert_eq!(parse_iso_secs("2024-02-29T12:00:00"), Some(1709208000));
    assert_eq!(parse_iso_secs("2024-01-02 03:04:05Z"), None);
    assert_eq!(parse_iso_secs("2024-01T03:04:05Z"), None);
    assert_eq!(iso_from_secs(0), "1970-01-01T00:00:00Z");
    assert_eq!(iso_from_secs(1704164645), "2024-01-02T03:04:05Z");
    assert_eq!(iso_from_secs(-1), "1969-12-31T23:59:59Z");
    assert!(!iso_overflows("2024-01-02T03:04:05Z"));
    assert!(iso_overflows("9999999999999999-01-01T00:00:00Z"));
}

#[test]
fn iso_round_trip() {
    for secs in [-62167219200i64, -1, 0, 951782400, 1704164645, 4102444800, 253402300799] {
        let text = iso_from_secs(secs);
        assert_eq!(parse_iso_secs(&text), Some(secs), "{text}");
    }
}

#[test]
fn timestamps_read_back_up_to_year_9999() {
    for t in [-62167219200i64, -1, 0, 951782400, 1704164645, 253402300799] {
        let text = iso_from_secs(t);
        assert!(!iso_overflows(&text));
        assert_eq!(parse_iso_secs(&text), Some(t));
    }
    assert_eq!(iso_from_secs(253402300799), "9999-12-31T23:59:59Z");
}
