use markdownai::frontmatter::{
    extract_string_values, frontmatter_from_yaml, push_yaml_json, value_type_of, yaml_to_json, JsonValue, YamlValue,
};

fn s(x: &str) -> YamlValue {
    YamlValue::Str(x.to_string())
}

fn json_text(y: &YamlValue) -> String {
    let mut out = Vec::new();
    push_yaml_json(&mut out, y);
    out.into_iter().collect()
}

#[test]
fn fields_from_mapping() {
    let yaml = YamlValue::Mapping(vec![
        (s("title"), s("Test \"x\"\n\u{1}")),
        (s("tags"), YamlValue::Sequence(vec![s("a"), YamlValue::Int(3), s("b")])),
        (s("n"), YamlValue::Int(-5)),
        (YamlValue::Int(1), s("skipped")),
        (s("m"), YamlValue::Mapping(vec![(s("z"), YamlValue::Null), (s("a"), YamlValue::Bool(true))])),
        (s("f"), YamlValue::Float(Some("3.5".to_string()), "3.5".to_string())),
        (s("e"), YamlValue::Sequence(vec![YamlValue::Int(1)])),
    ]);
    let data = frontmatter_from_yaml("raw".to_string(), &yaml).unwrap();
    let keys: Vec<&str> = data.fields.iter().map(|f| f.key.as_str()).collect();
    assert_eq!(keys, vec!["e", "f", "m", "n", "tags", "title"]);
    let by = |k: &str| data.fields.iter().find(|f| f.key == k).unwrap().clone();
    let title = by("title");
    assert_eq!(title.value_json, serde_json::to_string(&serde_json::Value::String("Test \"x\"\n\u{1}".to_string())).unwrap());
    assert_eq!(title.value_type, "string");
    assert_eq!(title.value_text, Some("Test \"x\"\n\u{1}".to_string()));
    let tags = by("tags");
    assert_eq!(tags.value_json, "[\"a\",3,\"b\"]");
    assert_eq!(tags.value_type, "array");
    assert_eq!(tags.value_text, Some("a, b".to_string()));
    let m = by("m");
    assert_eq!(m.value_json, "{\"a\":true,\"z\":null}");
    assert_eq!(m.value_type, "object");
    assert_eq!(m.value_text, Some("{a, z}".to_string()));
    assert_eq!(by("n").value_json, "-5");
    assert_eq!(by("f").value_text, Some("3.5".to_string()));
    assert_eq!(by("e").value_text, Some("[1 items]".to_string()));
    assert_eq!(data.raw_yaml, "raw");
    assert!(frontmatter_from_yaml("x".to_string(), &YamlValue::Null).is_none());
}

#[test]
fn json_text_of_values() {
    assert_eq!(json_text(&YamlValue::Int(i64::MIN)), i64::MIN.to_string());
    assert_eq!(json_text(&YamlValue::UInt(u64::MAX)), u64::MAX.to_string());
    assert_eq!(json_text(&YamlValue::Float(None, ".nan".to_string())), "null");
    assert_eq!(json_text(&YamlValue::Tagged("!t".to_string(), Box::new(YamlValue::Null))), "null");
    let tricky = "tab\t back\\ bell\u{7} del\u{7f} é";
    assert_eq!(
        json_text(&s(tricky)),
        serde_json::to_string(&serde_json::Value::String(tricky.to_string())).unwrap()
    );
    let dup = YamlValue::Mapping(vec![(s("k"), YamlValue::Int(1)), (s("k"), YamlValue::Int(2))]);
    assert_eq!(json_text(&dup), "{\"k\":2}");
}

#[test]
fn string_values_of_json() {
    let v = JsonValue::Array(vec![
        JsonValue::Str("a".to_string()),
        JsonValue::Int(1),
        JsonValue::Str("b".to_string()),
    ]);
    assert_eq!(extract_string_values(&v), vec!["a".to_string(), "b".to_string()]);
    assert_eq!(extract_string_values(&JsonValue::Str("x".to_string())), vec!["x".to_string()]);
    assert!(extract_string_values(&JsonValue::Bool(true)).is_empty());
}

#[test]
fn test_value_type_of() {
    assert_eq!(value_type_of(&YamlValue::Str("test".to_string())), "string");
    assert_eq!(value_type_of(&YamlValue::Bool(true)), "boolean");
    assert_eq!(value_type_of(&YamlValue::Int(42)), "number");
    assert_eq!(value_type_of(&YamlValue::Sequence(vec![])), "array");
    assert_eq!(value_type_of(&YamlValue::Mapping(vec![])), "object");
}

#[test]
fn test_yaml_to_json() {
    let yaml_str = YamlValue::Str("test".to_string());
    let json: serde_json::Value = serde_json::from_str(&yaml_to_json(&yaml_str)).unwrap();
    assert_eq!(json, serde_json::Value::String("test".to_string()));

    let yaml_arr = YamlValue::Sequence(vec![YamlValue::Str("a".to_string()), YamlValue::Str("b".to_string())]);
    let json: serde_json::Value = serde_json::from_str(&yaml_to_json(&yaml_arr)).unwrap();
    assert!(json.is_array());
    assert_eq!(json.as_array().unwrap().len(), 2);
}

#[test]
fn test_yaml_to_json_nested_mapping() {
    let inner = YamlValue::Mapping(vec![(
        YamlValue::Str("inner".to_string()),
        YamlValue::Str("value2".to_string()),
    )]);
    let yaml_val = YamlValue::Mapping(vec![
        (YamlValue::Str("outer".to_string()), YamlValue::Str("value1".to_string())),
        (YamlValue::Str("nested".to_string()), inner),
    ]);
    let json: serde_json::Value = serde_json::from_str(&yaml_to_json(&yaml_val)).unwrap();

    assert!(json.is_object());
    let obj = json.as_object().unwrap();
    assert_eq!(obj.len(), 2);
    assert!(obj.contains_key("outer"));
    assert!(obj.contains_key("nested"));
}

#[test]
fn test_yaml_to_json_number_types() {
    // Integer
    let json_int: serde_json::Value = serde_json::from_str(&yaml_to_json(&YamlValue::Int(42))).unwrap();
    assert!(json_int.is_number());
    assert_eq!(json_int.as_i64(), Some(42));

    // Float
    let yaml_float = YamlValue::Float(Some("3.14".to_string()), "3.14".to_string());
    let json_float: serde_json::Value = serde_json::from_str(&yaml_to_json(&yaml_float)).unwrap();
    assert!(json_float.is_number());

    // Negative number
    let json_neg: serde_json::Value = serde_json::from_str(&yaml_to_json(&YamlValue::Int(-10))).unwrap();
    assert!(json_neg.is_number());
    assert_eq!(json_neg.as_i64(), Some(-10));
}

#[test]
fn json_text_of_mapping_sorts_keys_and_keeps_last() {
    let yaml_val = YamlValue::Mapping(vec![
        (s("b"), YamlValue::Int(1)),
        (s("a"), YamlValue::Bool(false)),
        (YamlValue::Int(7), s("dropped")),
        (s("b"), YamlValue::Int(2)),
    ]);
    assert_eq!(yaml_to_json(&yaml_val), r#"{"a":false,"b":2}"#);
    assert_eq!(yaml_to_json(&YamlValue::Tagged("!t".to_string(), Box::new(YamlValue::Null))), "null");
    assert_eq!(value_type_of(&YamlValue::Tagged("!t".to_string(), Box::new(YamlValue::Null))), "tagged");
    assert_eq!(value_type_of(&YamlValue::Null), "null");
}

#[test]
fn json_strings_are_escaped_as_serde_json_writes_them() {
    let s = "a\"b\\c\n\t\u{1}\u{1f}/é";
    let written = yaml_to_json(&YamlValue::Str(s.to_string()));
    assert_eq!(written, "\"a\\\"b\\\\c\\n\\t\\u0001\\u001f/é\"");
    assert_eq!(written, serde_json::to_string(s).unwrap());
}
