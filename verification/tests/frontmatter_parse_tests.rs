use markdownai::commands::{facet_tally, frontmatter_entry};
use markdownai::frontmatter::JsonValue;
use markdownai::output::{FrontmatterEntry, OverviewEntry};
use markdownai::filter::{filter_outcome, parse_filter_expression, FilterVerdict};
use markdownai::frontmatter::{get_field, parse_frontmatter, set_frontmatter_field, FrontmatterData};

#[test]
fn test_parse_frontmatter() {
    let content = r#"---
title: "Test Post"
tags: ["rust", "cli"]
draft: true
count: 42
---
# Content here"#;

    let result = parse_frontmatter(content);
    assert!(result.is_some());

    let data = result.unwrap();
    assert_eq!(data.fields.len(), 4);

    let title = get_field(&data, "title").unwrap();
    assert_eq!(title.key, "title");
    assert_eq!(title.value_type, "string");
    assert_eq!(title.value_text, Some("Test Post".to_string()));

    let tags = get_field(&data, "tags").unwrap();
    assert_eq!(tags.key, "tags");
    assert_eq!(tags.value_type, "array");

    let draft = get_field(&data, "draft").unwrap();
    assert_eq!(draft.value_type, "boolean");

    let count = get_field(&data, "count").unwrap();
    assert_eq!(count.value_type, "number");
}

#[test]
fn test_set_frontmatter_field() {
    let content = r#"---
title: "Test"
---
Content"#;

    let updated = set_frontmatter_field(content, "title", "New Title");
    assert!(updated.contains("title: New Title"));

    let updated = set_frontmatter_field(content, "author", "John Doe");
    assert!(updated.contains("author: John Doe"));
    assert!(updated.contains("title: Test"));
}

#[test]
fn test_set_frontmatter_field_new() {
    let content = "# No frontmatter\nJust content";

    let updated = set_frontmatter_field(content, "title", "New Post");
    assert!(updated.starts_with("---\n"));
    assert!(updated.contains("title: New Post"));
    assert!(updated.contains("# No frontmatter"));
}

#[test]
fn test_parse_frontmatter_no_frontmatter() {
    let content = "This is just content without frontmatter";
    assert!(parse_frontmatter(content).is_none());
}

#[test]
fn test_parse_frontmatter_unclosed() {
    let content = "---\ntitle: Test\nThis has unclosed frontmatter";
    assert!(parse_frontmatter(content).is_none());
}

#[test]
fn test_parse_frontmatter_empty() {
    let content = "---\n---\nSome content";
    let result = parse_frontmatter(content);
    assert!(result.is_none());
}

#[test]
fn test_parse_frontmatter_nested_objects() {
    let content = r#"---
title: Test
metadata:
  author: John
  tags:
    - rust
    - testing
deep:
  nested:
    value: 42
---
Content here"#;
    let result = parse_frontmatter(content);
    assert!(result.is_some());
    let data = result.unwrap();
    assert_eq!(data.fields.len(), 3);

    let metadata = get_field(&data, "metadata");
    assert!(metadata.is_some());
}

#[test]
fn test_parse_frontmatter_null_values() {
    let content = "---\ntitle: Test\ndescription: null\n---\nContent";
    let result = parse_frontmatter(content);
    assert!(result.is_some());
    let data = result.unwrap();

    let description = get_field(&data, "description");
    assert!(description.is_some());
}

#[test]
fn test_set_frontmatter_field_numeric() {
    let content = "---\ntitle: Test\ncount: 5\n---\nContent";
    let result = set_frontmatter_field(content, "count", "42");

    assert!(result.contains("count: 42"));
    assert!(result.contains("---"));
    assert!(result.contains("Content"));
}

#[test]
fn test_set_frontmatter_field_boolean() {
    let content = "---\ntitle: Test\npublished: false\n---\nContent";
    let result = set_frontmatter_field(content, "published", "true");

    assert!(result.contains("published: true"));
    assert!(result.contains("---"));
    assert!(result.contains("Content"));
}

#[test]
fn test_set_frontmatter_field_array() {
    let content = "---\ntitle: Test\n---\nContent";
    let result = set_frontmatter_field(content, "tags", "[rust, testing, examples]");

    assert!(result.contains("tags:") && result.contains("- rust") && result.contains("- testing") && result.contains("- examples"));
    assert!(result.contains("Content"));
}

#[test]
fn test_get_field_non_existent() {
    let content = "---\ntitle: Test\n---\nContent";
    let result = parse_frontmatter(content);
    assert!(result.is_some());
    let data = result.unwrap();

    assert!(get_field(&data, "nonexistent").is_none());
    assert!(get_field(&data, "").is_none());
}

#[test]
fn test_parse_frontmatter_field_ordering() {
    let content = "---\nzebra: last\napple: first\nbanana: middle\n---\nContent";
    let result = parse_frontmatter(content);
    assert!(result.is_some());
    let data = result.unwrap();

    let keys: Vec<&str> = data.fields.iter().map(|f| f.key.as_str()).collect();
    assert_eq!(keys, vec!["apple", "banana", "zebra"]);
}

#[test]
fn parsed_field_values_exact() {
    let data = parse_frontmatter("---\nn: 42\nr: 3.5\nt: [a, b]\nm: {y: 1, x: 2}\nz: ~\n---\n").unwrap();
    let n = get_field(&data, "n").unwrap();
    assert_eq!((n.value_json.as_str(), n.value_text.as_deref()), ("42", Some("42")));
    let r = get_field(&data, "r").unwrap();
    assert_eq!((r.value_json.as_str(), r.value_type.as_str()), ("3.5", "number"));
    let t = get_field(&data, "t").unwrap();
    assert_eq!((t.value_json.as_str(), t.value_text.as_deref()), (r#"["a","b"]"#, Some("a, b")));
    let m = get_field(&data, "m").unwrap();
    assert_eq!((m.value_json.as_str(), m.value_text.as_deref()), (r#"{"x":2,"y":1}"#, Some("{x, y}")));
    let z = get_field(&data, "z").unwrap();
    assert_eq!((z.value_json.as_str(), z.value_type.as_str()), ("null", "null"));
}

#[test]
fn set_field_keeps_body_lines() {
    let out = set_frontmatter_field("---\na: 1\n---\nline one\nline two\n", "b", "x");
    assert_eq!(out, "---\na: 1\nb: x\n---\nline one\nline two");
}

#[test]
fn set_field_on_non_map_block_adds_new_block() {
    let out = set_frontmatter_field("---\n- a\n---\nbody", "k", "v");
    assert_eq!(out, "---\nk: v\n---\n---\n- a\n---\nbody");
}

#[test]
fn filter_outcome_on_parsed_frontmatter() {
    let data = parse_frontmatter("---\nstatus: active\ncount: 42\nrating: 3.5\ntags: [rust, cli]\n---\n").unwrap();
    assert_eq!(filter_outcome(&data, "status == active"), FilterVerdict::Holds(true));
    assert_eq!(filter_outcome(&data, "status != active"), FilterVerdict::Holds(false));
    assert_eq!(filter_outcome(&data, "count > 40"), FilterVerdict::Holds(true));
    assert_eq!(filter_outcome(&data, "count < 40"), FilterVerdict::Holds(false));
    assert_eq!(filter_outcome(&data, "tags contains rust"), FilterVerdict::Holds(true));
    assert_eq!(filter_outcome(&data, "missing > 10"), FilterVerdict::Holds(false));
    assert_eq!(filter_outcome(&data, "invalid"), FilterVerdict::Holds(false));
    assert_eq!(filter_outcome(&data, "rating > 3.0"), FilterVerdict::FloatGt);
}

#[test]
fn frontmatter_entries_and_listing() {
    let data = parse_frontmatter("---\ntitle: T\ntags: [a, \"b c\"]\nn: 3\nm: {k: [1, x]}\n---\n").unwrap();
    let all = frontmatter_entry("f.md".to_string(), &data, None).unwrap();
    assert_eq!(all.format_raw(), r#"f.md m={k: [1,"x"]} n=3 tags=["a", "b c"] title=T"#);
    let one = frontmatter_entry("f.md".to_string(), &data, Some("n")).unwrap();
    assert_eq!(one.fields.len(), 1);
    assert!(frontmatter_entry("f.md".to_string(), &data, Some("zz")).is_none());

    let texts = vec![
        "---\ntags: [a, b]\n---\n".to_string(),
        "---\ntags: a\n---\n".to_string(),
        "---\nother: 1\n---\n".to_string(),
        "plain".to_string(),
    ];
    let (counts, with_fm) = facet_tally(&texts, "tags");
    assert_eq!(counts, vec![("a".to_string(), 2), ("b".to_string(), 1)]);
    assert_eq!(with_fm, 3);

    let e = FrontmatterEntry {
        file: "x.md".to_string(),
        fields: vec![("q".to_string(), JsonValue::Str("a\"b".to_string())), ("z".to_string(), JsonValue::Null)],
    };
    assert_eq!(e.format_raw(), "x.md q=a\"b z=null");
    let o = OverviewEntry {
        file: "x.md".to_string(),
        lines: 3,
        bytes: 40,
        sections: 2,
        has_frontmatter: true,
        frontmatter: vec![
            ("tags".to_string(), JsonValue::Array(vec![JsonValue::Str("a".to_string()), JsonValue::Int(1)])),
            ("m".to_string(), JsonValue::Object(vec![("k".to_string(), JsonValue::Bool(true))])),
        ],
    };
    assert_eq!(o.format_raw(), "x.md\n  tags: [\"a\", 1] | m: {\"k\":true}\n  sections: 2 | lines: 3 | bytes: 40");
    let bare = OverviewEntry { file: "y.md".to_string(), lines: 0, bytes: 0, sections: 0, has_frontmatter: false, frontmatter: vec![] };
    assert_eq!(bare.format_raw(), "y.md\n  sections: 0 | lines: 0 | bytes: 0");
}

/// A filter's result: the library decides all but comparisons of
/// floating-point numbers, which are made here as the command line makes
/// them.
fn filter_matches(data: &FrontmatterData, expr: &str) -> bool {
    let number = || -> Option<(f64, f64)> {
        let parsed = parse_filter_expression(expr)?;
        let field = get_field(data, &parsed.field)?;
        let value: serde_json::Value = serde_json::from_str(&field.value_json).ok()?;
        Some((value.as_f64()?, parsed.value.parse::<f64>().ok()?))
    };
    match filter_outcome(data, expr) {
        FilterVerdict::Holds(b) => b,
        FilterVerdict::FloatEq => number().map_or(false, |(v, t)| v == t),
        FilterVerdict::FloatNe => !number().map_or(false, |(v, t)| v == t),
        FilterVerdict::FloatGt => number().map_or(false, |(v, t)| v > t),
        FilterVerdict::FloatLt => number().map_or(false, |(v, t)| v < t),
    }
}

#[test]
fn test_filter_equals() {
    let content = r#"---
status: "draft"
---
"#;

    let data = parse_frontmatter(content).unwrap();
    assert!(filter_matches(&data, r#"status == "draft""#));
    assert!(!filter_matches(&data, r#"status == "published""#));
}

#[test]
fn test_filter_contains() {
    let content = r#"---
tags: ["rust", "cli", "markdown"]
---
"#;

    let data = parse_frontmatter(content).unwrap();
    assert!(filter_matches(&data, r#"tags contains "rust""#));
    assert!(filter_matches(&data, r#"tags contains "cli""#));
    assert!(!filter_matches(&data, r#"tags contains "python""#));
}

#[test]
fn test_filter_matches_not_equals() {
    let content = "---\ntitle: Test\nstatus: active\n---\nContent";
    let result = parse_frontmatter(content);
    assert!(result.is_some());
    let data = result.unwrap();

    assert!(filter_matches(&data, "status != inactive"));
    assert!(!filter_matches(&data, "status != active"));
}

#[test]
fn test_filter_matches_greater_than() {
    let content = "---\ncount: 42\nrating: 3.5\n---\nContent";
    let result = parse_frontmatter(content);
    assert!(result.is_some());
    let data = result.unwrap();

    assert!(filter_matches(&data, "count > 40"));
    assert!(!filter_matches(&data, "count > 50"));
    assert!(filter_matches(&data, "rating > 3.0"));
    assert!(!filter_matches(&data, "rating > 4.0"));
}

#[test]
fn test_filter_matches_less_than() {
    let content = "---\ncount: 42\nrating: 3.5\n---\nContent";
    let result = parse_frontmatter(content);
    assert!(result.is_some());
    let data = result.unwrap();

    assert!(filter_matches(&data, "count < 50"));
    assert!(!filter_matches(&data, "count < 40"));
    assert!(filter_matches(&data, "rating < 4.0"));
    assert!(!filter_matches(&data, "rating < 3.0"));
}

#[test]
fn test_filter_matches_non_existent_field() {
    let content = "---\ntitle: Test\n---\nContent";
    let result = parse_frontmatter(content);
    assert!(result.is_some());
    let data = result.unwrap();

    assert!(!filter_matches(&data, "nonexistent == value"));
    assert!(!filter_matches(&data, "missing > 10"));
}

#[test]
fn test_filter_matches_invalid_expression() {
    let content = "---\ntitle: Test\n---\nContent";
    let result = parse_frontmatter(content);
    assert!(result.is_some());
    let data = result.unwrap();

    assert!(!filter_matches(&data, "invalid"));
    assert!(!filter_matches(&data, "title"));
    assert!(!filter_matches(&data, ""));
}

#[test]
fn set_field_keeps_other_entries_as_written() {
    let content = "---\nb: 1\nrating: 3.5\nodd: .nan\nt: !custom x\na: [1, 2]\n---\nBody";
    let updated = set_frontmatter_field(content, "b", "2");
    assert_eq!(updated, "---\nb: 2\nrating: 3.5\nodd: .nan\nt: !custom x\na:\n- 1\n- 2\n---\nBody");
    let added = set_frontmatter_field("---\nx: 1\n---\n", "new", "not: [valid");
    assert_eq!(added, "---\nx: 1\nnew: 'not: [valid'\n---\n");
}
