use myownllm::parakeet::stitch_pieces;

#[test]
fn stitch_simple() {
    let pieces = vec!["\u{2581}hello", "\u{2581}world"];
    assert_eq!(stitch_pieces(&pieces), "hello world");
}

#[test]
fn stitch_subwords() {
    let pieces = vec!["\u{2581}un", "believ", "able"];
    assert_eq!(stitch_pieces(&pieces), "unbelievable");
}

#[test]
fn stitch_skips_empty_pieces() {
    let pieces = vec!["", "\u{2581}cat", ""];
    assert_eq!(stitch_pieces(&pieces), "cat");
}

#[test]
fn stitch_trims_unicode_whitespace_and_leading_marker() {
    let pieces = vec!["\u{2581}", "\u{2581}a", "b\u{3000}"];
    assert_eq!(stitch_pieces(&pieces), "ab");
    let none: Vec<&str> = vec![];
    assert_eq!(stitch_pieces(&none), "");
}
