use markdownai::filter::{evaluate_filter, parse_filter_expression, parse_i64, FilterVerdict};
use markdownai::frontmatter::{FrontmatterField, JsonValue};

fn field(value_type: &str) -> FrontmatterField {
    FrontmatterField {
        key: "k".to_string(),
        value_json: String::new(),
        value_type: value_type.to_string(),
        value_text: None,
    }
}

fn verdict(expr: &str, value_type: &str, v: &JsonValue) -> FilterVerdict {
    let e = parse_filter_expression(expr).unwrap();
    evaluate_filter(&e, &field(value_type), v)
}

#[test]
fn expressions_parse() {
    let e = parse_filter_expression(r#"  status == "draft"  "#).unwrap();
    assert_eq!((e.field.as_str(), e.operator.as_str(), e.value.as_str()), ("status", "==", "draft"));
    let e = parse_filter_expression("count > 40").unwrap();
    assert_eq!((e.field.as_str(), e.operator.as_str(), e.value.as_str()), ("count", ">", "40"));
    let e = parse_filter_expression(r#"tags contains"a b""#).unwrap();
    assert_eq!((e.operator.as_str(), e.value.as_str()), ("contains", "a b"));
    let e = parse_filter_expression(r#"x != "unterminated"#).unwrap();
    assert_eq!(e.value, "\"unterminated");
    assert!(parse_filter_expression("invalid").is_none());
    assert!(parse_filter_expression("title").is_none());
    assert!(parse_filter_expression("").is_none());
    assert!(parse_filter_expression("a >= 5").is_none());
    assert!(parse_filter_expression("a == two words").is_none());
}

#[test]
fn equality_and_contains() {
    let draft = JsonValue::Str("draft".to_string());
    assert_eq!(verdict(r#"status == "draft""#, "string", &draft), FilterVerdict::Holds(true));
    assert_eq!(verdict(r#"status == "published""#, "string", &draft), FilterVerdict::Holds(false));
    let active = JsonValue::Str("active".to_string());
    assert_eq!(verdict("status != inactive", "string", &active), FilterVerdict::Holds(true));
    assert_eq!(verdict("status != active", "string", &active), FilterVerdict::Holds(false));
    let tags = JsonValue::Array(vec![
        JsonValue::Str("rust".to_string()),
        JsonValue::Str("cli".to_string()),
        JsonValue::Int(1),
    ]);
    assert_eq!(verdict(r#"tags contains "rust""#, "array", &tags), FilterVerdict::Holds(true));
    assert_eq!(verdict(r#"tags contains "python""#, "array", &tags), FilterVerdict::Holds(false));
    assert_eq!(verdict(r#"t contains "tiv""#, "string", &active), FilterVerdict::Holds(true));
    assert_eq!(verdict("b == true", "boolean", &JsonValue::Bool(true)), FilterVerdict::Holds(true));
    assert_eq!(verdict("b == yes", "boolean", &JsonValue::Bool(true)), FilterVerdict::Holds(false));
}

#[test]
fn numeric_comparisons() {
    let count = JsonValue::Int(42);
    assert_eq!(verdict("count > 40", "number", &count), FilterVerdict::Holds(true));
    assert_eq!(verdict("count > 50", "number", &count), FilterVerdict::Holds(false));
    assert_eq!(verdict("count < 50", "number", &count), FilterVerdict::Holds(true));
    assert_eq!(verdict("count < 40", "number", &count), FilterVerdict::Holds(false));
    assert_eq!(verdict("count == 42", "number", &count), FilterVerdict::Holds(true));
    assert_eq!(verdict("count == 42.0", "number", &count), FilterVerdict::FloatEq);
    assert_eq!(verdict("count != 42.0", "number", &count), FilterVerdict::FloatNe);
    let rating = JsonValue::Float("3.5".to_string());
    assert_eq!(verdict("rating > 3.0", "number", &rating), FilterVerdict::FloatGt);
    assert_eq!(verdict("rating < 4.0", "number", &rating), FilterVerdict::FloatLt);
    assert_eq!(verdict("rating == 3", "number", &rating), FilterVerdict::Holds(false));
    let s = JsonValue::Str("beta".to_string());
    assert_eq!(verdict("name > alpha", "string", &s), FilterVerdict::Holds(true));
    assert_eq!(verdict("name < alpha", "string", &s), FilterVerdict::Holds(false));
    assert_eq!(verdict("name > alpha", "array", &s), FilterVerdict::Holds(false));
}

#[test]
fn integers_parse_like_std() {
    for t in ["0", "-0", "+7", "-9223372036854775808", "9223372036854775807", "9223372036854775808", "", "-", "+", "1a", "٣", " 1"] {
        let c: Vec<char> = t.chars().collect();
        assert_eq!(parse_i64(&c), t.parse::<i64>().ok(), "{}", t);
    }
}
