use myownllm::conversations::{newest_first, ConversationMeta};
use myownllm::conversations::{path_for, validate_id, IdError};

#[test]
fn id_validation_rejects_traversal() {
    assert!(validate_id("../etc/passwd").is_err());
    assert!(validate_id("a/b").is_err());
    assert!(validate_id("a.b").is_err());
    assert!(validate_id("").is_err());
    assert!(validate_id(&"a".repeat(65)).is_err());
}

#[test]
fn id_validation_accepts_normal_ids() {
    assert!(validate_id("abc123").is_ok());
    assert!(validate_id("lq3kx9-ab12cd").is_ok());
    assert!(validate_id("Some_Id-42").is_ok());
}

#[test]
fn id_validation_reports_length_before_characters() {
    assert_eq!(validate_id(""), Err(IdError::Length));
    assert_eq!(validate_id(&"/".repeat(65)), Err(IdError::Length));
    assert_eq!(validate_id(&"a".repeat(64)), Ok(()));
    assert_eq!(validate_id("a b"), Err(IdError::Characters));
    // 33 two-byte characters are 66 bytes: refused for length.
    assert_eq!(validate_id(&"é".repeat(33)), Err(IdError::Length));
}

#[test]
fn path_for_joins_dir_and_id() {
    assert_eq!(path_for("/home/u/.myownllm/conversations", "abc").unwrap(), "/home/u/.myownllm/conversations/abc.json");
    assert_eq!(path_for("/tmp/", "x").unwrap(), "/tmp/x.json");
    assert_eq!(path_for("/tmp", "../x"), Err(IdError::Characters));
}

#[test]
fn sidebar_lists_newest_first_stably() {
    let m = |id: &str, at: &str| ConversationMeta {
        id: id.to_string(),
        title: String::new(),
        mode: "text".to_string(),
        updated_at: at.to_string(),
    };
    let metas = vec![
        m("a", "2024-01-01T00:00:00Z"),
        m("b", "2024-03-01T00:00:00Z"),
        m("c", "2024-01-01T00:00:00Z"),
        m("d", "2024-02-01T00:00:00Z"),
    ];
    let ids: Vec<String> = newest_first(&metas).into_iter().map(|x| x.id).collect();
    assert_eq!(ids, vec!["b", "d", "a", "c"]);
    assert!(newest_first(&Vec::new()).is_empty());
}
