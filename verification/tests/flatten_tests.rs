use json_table::flatten::{escape, flatten, unescape, value_at, value_text, JsonTree};
use json_table::parser::ValueType;

fn tree(v: &serde_json::Value) -> JsonTree {
    match v {
        serde_json::Value::Null => JsonTree::Null,
        serde_json::Value::Bool(b) => JsonTree::Bool(*b),
        serde_json::Value::Number(n) => JsonTree::Number(n.to_string()),
        serde_json::Value::String(s) => JsonTree::Text(s.clone()),
        serde_json::Value::Array(a) => JsonTree::Array(a.iter().map(tree).collect()),
        serde_json::Value::Object(o) => JsonTree::Object(o.iter().map(|(k, v)| (k.clone(), tree(v))).collect()),
    }
}

fn parse(text: &str) -> JsonTree {
    tree(&serde_json::from_str::<serde_json::Value>(text).unwrap())
}

#[test]
fn text_is_compact_json() {
    let text = r#"{"a": [1, 2.5, "x\"y"], "b": {"c": null, "d": true}}"#;
    let v: serde_json::Value = serde_json::from_str(text).unwrap();
    assert_eq!(value_text(&tree(&v)), v.to_string());
    assert_eq!(value_text(&parse("[]")), "[]");
    assert_eq!(value_text(&parse("{}")), "{}");
}

#[test]
fn pointer_fragments_escape_and_unescape() {
    assert_eq!(escape("a/b~c"), "a~1b~0c");
    assert_eq!(unescape("a~1b~0c"), "a/b~c");
    for key in ["", "~", "/", "~1", "~0", "/~", "a~~//b", "~01"] {
        assert_eq!(unescape(&escape(key)), key);
    }
}

#[test]
fn value_at_finds_nested_values() {
    let v = parse(r#"{"a": {"b/c": [10, {"d": "e"}]}, "f": []}"#);
    assert_eq!(value_text(&value_at(&v, "/a/b~1c/1/d").unwrap()), "\"e\"");
    assert_eq!(value_text(&value_at(&v, "/a/b~1c").unwrap()), "[10,{\"d\":\"e\"}]");
    assert_eq!(value_text(&value_at(&v, "").unwrap()), value_text(&v));
    assert!(value_at(&v, "/missing").is_none());
    // an empty array is never found, even at its own pointer
    assert!(value_at(&v, "/f").is_none());
}

#[test]
fn flatten_rows_and_columns() {
    let values = vec![parse(r#"{"a": 1, "o": {"x": "s", "y": [1, 2]}}"#), parse(r#"{"a": null, "o": {"x": "t"}}"#)];
    let (rows, columns) = flatten(&values, 2, &vec![]);
    assert_eq!(rows.len(), 2);
    let first: Vec<(String, Option<String>)> = rows[0].iter().map(|(k, v)| (k.pointer.clone(), v.clone())).collect();
    assert_eq!(
        first,
        vec![
            ("#".to_string(), Some("0".to_string())),
            ("/a".to_string(), Some("1".to_string())),
            ("/o/x".to_string(), Some("\"s\"".to_string())),
            ("/o/y".to_string(), Some("[1,2]".to_string())),
        ]
    );
    assert_eq!(rows[1][1].1, None);
    assert_eq!(rows[1][1].0.value_type, ValueType::Null);
    assert_eq!(rows[1][0].0.index, 1);
    let names: Vec<(&str, u8)> = columns.iter().map(|c| (c.name.as_str(), c.depth)).collect();
    assert_eq!(names, vec![("/a", 1), ("/o", 1), ("/o/x", 2), ("/o/y", 2)]);
}

#[test]
fn flatten_keeps_objects_whole_at_the_depth_limit() {
    let values = vec![parse(r#"{"o": {"x": 1}}"#)];
    let (rows, _) = flatten(&values, 1, &vec![]);
    assert_eq!(rows[0][1].0.pointer, "/o");
    assert_eq!(rows[0][1].0.value_type, ValueType::Object);
    assert_eq!(rows[0][1].1.as_deref(), Some("{\"x\":1}"));
}

#[test]
fn flatten_drops_rows_with_null_columns() {
    let values = vec![parse(r#"{"a": 1}"#), parse(r#"{"a": null}"#), parse(r#"{"b": 2}"#)];
    let (rows, columns) = flatten(&values, 3, &vec!["/a".to_string()]);
    assert_eq!(rows.len(), 1);
    assert_eq!(rows[0][0].1.as_deref(), Some("0"));
    // columns of dropped rows are still found
    assert_eq!(columns.len(), 2);
}

#[test]
fn escaped_fragments_hold_no_slash() {
    let e = escape("/~a/~/");
    assert!(!e.contains('/'));
    let chars: Vec<char> = e.chars().collect();
    for (i, c) in chars.iter().enumerate() {
        if *c == '~' {
            assert!(matches!(chars.get(i + 1), Some('0') | Some('1')));
        }
    }
}
