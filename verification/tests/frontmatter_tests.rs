use markdownai::frontmatter::{extract_frontmatter_raw, get_field, FrontmatterData, FrontmatterField};

#[test]
fn test_extract_frontmatter_raw() {
    let content = r#"---
title: "Test"
tags: ["a", "b"]
---
Body content"#;
    let result = extract_frontmatter_raw(content);
    assert!(result.is_some());
    let (yaml, end_line) = result.unwrap();
    assert!(yaml.contains("title: \"Test\""));
    assert!(yaml.contains("tags:"));
    assert_eq!(end_line, 4);
}

#[test]
fn extract_frontmatter_raw_exact() {
    let (yaml, end) = extract_frontmatter_raw("---\na: 1\nb: 2\n  ---  \nrest\n").unwrap();
    assert_eq!(yaml, "a: 1\nb: 2");
    assert_eq!(end, 4);
    assert_eq!(extract_frontmatter_raw("---\n---\nx"), Some((String::new(), 2)));
}

#[test]
fn extract_frontmatter_raw_refusals() {
    assert_eq!(extract_frontmatter_raw("# Title\n---\na: 1\n---\n"), None);
    assert_eq!(extract_frontmatter_raw("---\ntitle: x\nno end"), None);
    assert_eq!(extract_frontmatter_raw("----\na: 1\n---\n"), None);
    assert_eq!(extract_frontmatter_raw(""), None);
}

fn field(key: &str, value_json: &str) -> FrontmatterField {
    FrontmatterField {
        key: key.to_string(),
        value_json: value_json.to_string(),
        value_type: "string".to_string(),
        value_text: None,
    }
}

#[test]
fn get_field_finds_first_match() {
    let data = FrontmatterData {
        fields: vec![field("a", "\"1\""), field("b", "\"2\""), field("b", "\"3\"")],
        raw_yaml: String::new(),
    };
    assert_eq!(get_field(&data, "b").unwrap().value_json, "\"2\"");
    assert!(get_field(&data, "c").is_none());
    assert!(get_field(&data, "").is_none());
}
