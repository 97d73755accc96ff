use markdownai::engine::{generate_snippet, snippet_for};

#[test]
fn test_snippet_generation() {
    let snippet = generate_snippet("test", "This is a test body with content", 10);
    assert!(snippet.contains("test"));
}

#[test]
fn test_snippet_generation_with_match() {
    let snippet = generate_snippet("test", "This is a test body with some content here", 30);
    assert!(snippet.contains("test") || snippet.contains("Test"));
    assert!(snippet.len() > 0);
    assert!(snippet.len() <= 70);
}

#[test]
fn test_snippet_generation_no_match() {
    let snippet = generate_snippet("nonexistent", "This is a body with different content", 20);
    assert!(snippet.starts_with("This is a body"));
}

#[test]
fn test_snippet_generation_empty_body() {
    let snippet = generate_snippet("test", "", 20);
    assert_eq!(snippet, "");
}

#[test]
fn test_snippet_generation_empty_query() {
    let snippet = generate_snippet("", "This is a test body", 20);
    let result = snippet.is_empty() || snippet.starts_with("This is a test");
    assert!(result, "Snippet should be empty or start with body text");
}

#[test]
fn snippet_window_exact() {
    assert_eq!(generate_snippet("test", "This is a test body with content", 5), "...is a test body...");
    assert_eq!(generate_snippet("THIS", "This is it", 2), "This i...");
    assert_eq!(generate_snippet("zz", "abcdef", 2), "abcd...");
    assert_eq!(generate_snippet("  ", "abcdef", 2), "abcd");
    assert_eq!(generate_snippet("x y", "a y b", 10), "a y b");
    assert_eq!(snippet_for("zz", "abcdef", usize::MAX), None);
    assert_eq!(snippet_for("zz", "abcdef", 1), Some("ab...".to_string()));
}
