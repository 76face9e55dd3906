use myownllm::ort_setup::{candidate_paths, TargetOs};
use myownllm::ort_setup::{status, OrtStatus};
use myownllm::ort_setup::{first_existing, init_status};

#[test]
fn status_before_init_reports_not_initialized() {
    let s = status();
    let _ = s.diagnostic();
}

#[test]
fn diagnostic_lists_what_was_searched() {
    let s = status();
    assert_eq!(s.diagnostic(), "onnxruntime NOT loaded: ort_setup::initialize() has not been called");
    let failed = OrtStatus {
        initialized: false,
        dylib_path: None,
        searched: vec!["/a/lib.so".to_string(), "/b/lib.so".to_string()],
        error: Some("missing".to_string()),
    };
    assert_eq!(failed.diagnostic(), "onnxruntime NOT loaded: missing \u{2014} searched: /a/lib.so, /b/lib.so");
    let ok = OrtStatus { initialized: true, dylib_path: Some("/x.so".to_string()), searched: vec![], error: None };
    assert_eq!(ok.diagnostic(), "onnxruntime loaded from /x.so");
    let unknown = OrtStatus { initialized: true, dylib_path: None, searched: vec![], error: None };
    assert_eq!(unknown.diagnostic(), "onnxruntime initialized (path unknown)");
    let never = OrtStatus { initialized: false, dylib_path: None, searched: vec![], error: None };
    assert_eq!(never.diagnostic(), "onnxruntime init not run yet");
}

#[test]
fn candidate_paths_includes_env_override() {
    let paths = candidate_paths(TargetOs::MacOs, Some("/tmp/fake_libonnxruntime.dylib"), None, None);
    assert!(paths.iter().any(|p| p.contains("fake_libonnxruntime")));
    assert_eq!(paths[0], "/tmp/fake_libonnxruntime.dylib");
}

#[test]
fn candidate_paths_lists_platform_system_dirs() {
    let mac = candidate_paths(TargetOs::MacOs, None, None, None);
    assert!(!mac.is_empty(), "expected at least one candidate path");
    assert!(mac.iter().any(|p| p.contains("homebrew") || p.contains("/usr/local/lib")));
    let linux = candidate_paths(TargetOs::Linux, Some(""), None, None);
    assert!(linux.iter().any(|p| p.contains("/usr/lib")));
    assert_eq!(linux[0], "/usr/lib/libonnxruntime.so");
}

#[test]
fn candidate_paths_order() {
    let mac = candidate_paths(
        TargetOs::MacOs,
        None,
        Some("/Applications/MyOwnLLM.app/Contents/MacOS"),
        Some("/Applications/MyOwnLLM.app/Contents"),
    );
    assert_eq!(mac[0], "/Applications/MyOwnLLM.app/Contents/MacOS/libonnxruntime.dylib");
    assert_eq!(mac[2], "/Applications/MyOwnLLM.app/Contents/Resources/libonnxruntime.dylib");
    assert_eq!(mac[5], "/Applications/MyOwnLLM.app/Contents/Frameworks/libonnxruntime.1.dylib");
    assert_eq!(mac.len(), 6 + 8);
    let win = candidate_paths(TargetOs::Windows, None, Some("C:\\MyOwnLLM"), Some("C:\\"));
    assert_eq!(win, vec![
        "C:\\MyOwnLLM\\onnxruntime.dll".to_string(),
        "C:\\Program Files\\onnxruntime\\bin\\onnxruntime.dll".to_string(),
        "C:\\Program Files\\onnxruntime\\lib\\onnxruntime.dll".to_string(),
    ]);
    let linux = candidate_paths(TargetOs::Linux, None, Some("/opt/app"), Some("/opt"));
    assert_eq!(linux.len(), 2 + 8);
    assert_eq!(linux[1], "/opt/app/libonnxruntime.so.1");
}

#[test]
fn first_existing_location_is_picked() {
    assert_eq!(first_existing(&[false, true, true]), Some(1));
    assert_eq!(first_existing(&[false, false]), None);
    assert_eq!(first_existing(&[]), None);
}

#[test]
fn init_status_of_each_outcome() {
    let searched = vec!["/a/libonnxruntime.so".to_string(), "/b/libonnxruntime.so".to_string()];
    let (st, line) = init_status(searched.clone(), None);
    assert!(!st.initialized);
    assert_eq!(st.dylib_path, None);
    assert_eq!(st.searched, searched);
    assert_eq!(line, "couldn't find onnxruntime \u{2014} checked 2 location(s)");
    assert_eq!(st.error.as_deref(), Some(line.as_str()));

    let (st, line) = init_status(searched.clone(), Some(("/b/libonnxruntime.so".to_string(), None)));
    assert!(st.initialized);
    assert_eq!(st.dylib_path.as_deref(), Some("/b/libonnxruntime.so"));
    assert_eq!(st.error, None);
    assert_eq!(line, "onnxruntime loaded from /b/libonnxruntime.so");

    let (st, line) = init_status(
        searched.clone(),
        Some(("/b/libonnxruntime.so".to_string(), Some("bad ELF".to_string()))),
    );
    assert!(!st.initialized);
    assert_eq!(st.dylib_path, None);
    assert_eq!(
        line,
        "ort::init_from(/b/libonnxruntime.so) failed: bad ELF \u{2014} likely a version / arch mismatch (ort api-22 needs onnxruntime \u{2265}1.20)"
    );
    assert_eq!(st.error.as_deref(), Some(line.as_str()));
}
