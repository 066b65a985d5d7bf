use json_table::replace::{ReplaceMode, SearchReplaceResponse, try_replace_occurrences, replace_occurrences};
use json_table::rows::{
    as_array, filter_columns, row_number_entry, search_occurrences, serialize_array, ArrayEntries, Column, FlatParse,
    FlatPointer, FlatType, FlatValue, NON_NULL_FILTER_VALUE,
};

fn flat_type(t: json_flat_parser::ValueType) -> FlatType {
    match t {
        json_flat_parser::ValueType::Array(n) => FlatType::Array(n),
        json_flat_parser::ValueType::Object(parsed, n) => FlatType::Object(parsed, n),
        json_flat_parser::ValueType::Number => FlatType::Number,
        json_flat_parser::ValueType::String => FlatType::String,
        json_flat_parser::ValueType::Bool => FlatType::Bool,
        json_flat_parser::ValueType::Null => FlatType::Null,
        json_flat_parser::ValueType::None => FlatType::Unset,
    }
}

fn flat_parse(r: json_flat_parser::ParseResult<String>) -> FlatParse {
    FlatParse {
        json: r
            .json
            .into_iter()
            .map(|e| FlatValue {
                pointer: FlatPointer {
                    pointer: e.pointer.pointer,
                    value_type: flat_type(e.pointer.value_type),
                    depth: e.pointer.depth,
                    position: e.pointer.position,
                    column_id: e.pointer.column_id,
                },
                value: e.value,
            })
            .collect(),
        max_json_depth: r.max_json_depth,
        parsing_max_depth: r.parsing_max_depth,
        started_parsing_at: r.started_parsing_at,
        started_parsing_at_index_start: r.started_parsing_at_index_start,
        started_parsing_at_index_end: r.started_parsing_at_index_end,
        parsing_prefix: r.parsing_prefix,
        depth_after_start_at: r.depth_after_start_at,
    }
}

fn parse(json: &str, options: json_flat_parser::ParseOptions) -> FlatParse {
    flat_parse(json_flat_parser::JSONParser::parse(json, options).unwrap().to_owned())
}

fn value(pointer: &str, t: FlatType, v: Option<&str>) -> FlatValue {
    FlatValue {
        pointer: FlatPointer { pointer: pointer.to_string(), value_type: t, depth: 2, position: 0, column_id: 0 },
        value: v.map(|s| s.to_string()),
    }
}

fn text_value(pointer: &str, v: &str, column_id: usize) -> FlatValue {
    let mut e = value(pointer, FlatType::String, Some(v));
    e.pointer.column_id = column_id;
    e
}

#[test]
fn test_replace() {
    let json = r#"
        {"skills": [
        {
          "description": "Cart Termination",
          "duration2": 5000,
          "element": "Weapon",
          "damageType": "Single",
          "hitCount": 1,
          "id": 485,
          "maxLevel": 10,
          "name": "WS_CARTTERMINATION",
          "range": -2,
          "targetType": "Target",
          "type": "Offensive",
          "damageflags": {
            "ignoreAtkCard": true
          },
          "flags": {
            "ignoreAutoGuard": true,
            "ignoreCicada": true
          }
        }
    ]}"#;

    let res = parse(
        json,
        json_flat_parser::ParseOptions::default()
            .start_parse_at("/skills".to_string())
            .parse_array(false),
    );
    let (array, columns) = as_array(res).unwrap();
    let filter_column = columns
        .iter()
        .filter(|c| c.name.eq("/description"))
        .cloned()
        .collect::<Vec<Column>>();
    let replaced_values = replace_occurrences(
        &array,
        SearchReplaceResponse {
            search_criteria: "(.*)".to_string(),
            replace_value: Some("A$1".to_string()),
            selected_column: Some(filter_column),
            replace_mode: ReplaceMode::Regex,
        },
    );
    assert_eq!(
        replaced_values[0].0.value.as_ref().unwrap().as_str(),
        "ACart Termination"
    );
}

#[test]
fn as_array_rows_and_columns() {
    let json = r#"[{"a": 1, "b": "x"}, {"a": 2}, {"a": null, "c": true}]"#;
    let res = parse(json, json_flat_parser::ParseOptions::default().parse_array(false));
    let (rows, columns) = as_array(res).unwrap();
    assert_eq!(rows.len(), 3);
    assert_eq!(rows.iter().map(|r| r.index).collect::<Vec<_>>(), vec![0, 1, 2]);
    // each row starts with its row-number entry
    assert_eq!(rows[1].entries[0].pointer.pointer, "/1/#");
    assert_eq!(rows[1].entries[0].value.as_deref(), Some("1"));
    // the row objects themselves form the column "", found last in each
    // row, and it comes first; "/a" is seen in every row too
    assert_eq!(columns.len(), 4);
    assert_eq!(columns[0].name, "");
    assert_eq!(columns[0].seen_count, 3);
    assert_eq!(columns[1].name, "/a");
    assert_eq!(columns[1].seen_count, 3);
    // every value of a column carries the column's id
    for row in &rows {
        for e in &row.entries {
            if e.pointer.pointer.ends_with("/a") {
                assert_eq!(e.pointer.column_id, columns[1].id);
            }
        }
    }
}

#[test]
fn as_array_equal_counts_put_later_columns_first() {
    let json = r#"[{"a": 1, "b": 2}]"#;
    let res = parse(json, json_flat_parser::ParseOptions::default().parse_array(false));
    let (_rows, columns) = as_array(res).unwrap();
    let names: Vec<&str> = columns.iter().map(|c| c.name.as_str()).collect();
    // all seen once; scanning backwards finds "/b", "/a", then the row
    // itself, and the column found later comes first
    assert_eq!(names, vec!["", "/a", "/b"]);
}

#[test]
fn as_array_null_column_takes_later_type() {
    let json = r#"[{"a": 1}, {"a": null}]"#;
    let res = parse(json, json_flat_parser::ParseOptions::default().parse_array(false));
    let (_rows, columns) = as_array(res).unwrap();
    // row 1 is scanned first and gives null; row 0 then gives a number
    let a = columns.iter().find(|c| c.name == "/a").unwrap();
    assert_eq!(a.value_type, FlatType::Number);
    assert_eq!(a.seen_count, 2);
}

#[test]
fn as_array_not_an_array() {
    let res = parse(r#"{"a": 1}"#, json_flat_parser::ParseOptions::default());
    let err = as_array(res).err().unwrap();
    assert_eq!(err, "Parsed json root is not an array");
}

#[test]
fn row_number_entry_fields() {
    let e = row_number_entry(12, 40, "/skills/12");
    assert_eq!(e.pointer.pointer, "/skills/12/#");
    assert_eq!(e.pointer.value_type, FlatType::Number);
    assert_eq!(e.pointer.position, 40);
    assert_eq!(e.value.as_deref(), Some("12"));
}

fn sample_rows() -> Vec<ArrayEntries> {
    vec![
        ArrayEntries {
            entries: vec![text_value("/0/name", "Alice", 7), value("/0/age", FlatType::Number, Some("30"))],
            index: 0,
        },
        ArrayEntries {
            entries: vec![text_value("/1/name", "BOB", 7), value("/1/age", FlatType::Null, None)],
            index: 1,
        },
    ]
}

#[test]
fn search_is_on_lowercase_strings() {
    let rows = sample_rows();
    assert_eq!(search_occurrences(&rows, "bob"), vec![1]);
    assert_eq!(search_occurrences(&rows, "BOB"), Vec::<usize>::new());
    // numbers are not searched
    assert_eq!(search_occurrences(&rows, "30"), Vec::<usize>::new());
    assert_eq!(search_occurrences(&rows, ""), vec![0, 1]);
}

#[test]
fn filters_keep_matching_rows() {
    let rows = sample_rows();
    let filters = vec![("/name".to_string(), vec!["Alice".to_string()])];
    assert_eq!(filter_columns(&rows, "", &filters), vec![0]);
    let non_null = vec![("/age".to_string(), vec![NON_NULL_FILTER_VALUE.to_string()])];
    assert_eq!(filter_columns(&rows, "", &non_null), vec![0]);
    let missing = vec![("/nothing".to_string(), vec![])];
    assert_eq!(filter_columns(&rows, "", &missing), Vec::<usize>::new());
    assert_eq!(filter_columns(&rows, "", &vec![]), vec![0, 1]);
}

#[test]
fn serialize_rows_under_parent() {
    let rows = vec![
        ArrayEntries { entries: vec![value("/0", FlatType::Object(true, 1), Some("{\"a\":1}"))], index: 0 },
        ArrayEntries { entries: vec![value("/1", FlatType::Object(true, 1), Some("{\"a\":2}"))], index: 1 },
    ];
    let bytes = serialize_array("/data/0/items", &rows);
    assert_eq!(String::from_utf8(bytes).unwrap(), "{\"data\":[{\"items\":[{\"a\":1},\n{\"a\":2}]}]}");
    let plain = serialize_array("", &rows);
    assert_eq!(String::from_utf8(plain).unwrap(), "[{\"a\":1},\n{\"a\":2}]");
}

fn request(criteria: &str, replace: Option<&str>, ids: &[usize], mode: ReplaceMode) -> SearchReplaceResponse {
    SearchReplaceResponse {
        search_criteria: criteria.to_string(),
        replace_value: replace.map(|s| s.to_string()),
        selected_column: Some(
            ids.iter()
                .map(|id| Column {
                    name: String::new(),
                    depth: 0,
                    value_type: FlatType::String,
                    seen_count: 0,
                    order: 0,
                    id: *id,
                })
                .collect(),
        ),
        replace_mode: mode,
    }
}

#[test]
fn replace_simple_ignores_case() {
    let rows = sample_rows();
    let out = replace_occurrences(&rows, request("bob", Some("Carol"), &[7], ReplaceMode::Simple));
    assert_eq!(out.len(), 2);
    assert_eq!(out[0].0.value.as_deref(), Some("Alice"));
    assert_eq!(out[1].0.value.as_deref(), Some("Carol"));
    assert_eq!(out[1].1, 1);
    assert_eq!(out[1].0.pointer.pointer, "/1/name");
}

#[test]
fn replace_matching_case_is_literal() {
    let rows = sample_rows();
    let out = replace_occurrences(&rows, request("B", Some("b"), &[7], ReplaceMode::MatchingCase));
    assert_eq!(out[1].0.value.as_deref(), Some("bOb"));
    // a regex meta character is taken literally
    let rows2 = vec![ArrayEntries { entries: vec![text_value("/0/x", "a.b.c", 1)], index: 0 }];
    let out2 = replace_occurrences(&rows2, request(".", Some("-"), &[1], ReplaceMode::MatchingCase));
    assert_eq!(out2[0].0.value.as_deref(), Some("a-b-c"));
}

#[test]
fn replace_without_value_sets_matches_to_null() {
    let rows = sample_rows();
    let out = replace_occurrences(&rows, request("ali", None, &[7], ReplaceMode::Simple));
    assert_eq!(out[0].0.value, None);
    assert_eq!(out[1].0.value.as_deref(), Some("BOB"));
    let exact = replace_occurrences(&rows, request("BO", None, &[7], ReplaceMode::ExactWord));
    assert_eq!(exact[1].0.value.as_deref(), Some("BOB"));
    let lit = replace_occurrences(&rows, request("OB", None, &[7], ReplaceMode::MatchingCase));
    assert_eq!(lit[1].0.value, None);
}

#[test]
fn replace_exact_word() {
    let rows = vec![ArrayEntries { entries: vec![text_value("/0/x", "cat catalog cat", 3)], index: 0 }];
    let out = replace_occurrences(&rows, request("cat", Some("dog"), &[3], ReplaceMode::ExactWord));
    assert_eq!(out[0].0.value.as_deref(), Some("dog catalog dog"));
}

#[test]
fn replace_skips_unselected_and_null_entries() {
    let rows = sample_rows();
    let out = replace_occurrences(&rows, request("x", Some("y"), &[0], ReplaceMode::Simple));
    // the age column has id 0: the number is replaced in, the null is skipped
    assert_eq!(out.len(), 1);
    assert_eq!(out[0].0.pointer.pointer, "/0/age");
    let none = replace_occurrences(&rows, request("x", Some("y"), &[], ReplaceMode::Simple));
    assert!(none.is_empty());
}

#[test]
fn try_replace_refuses_a_bad_pattern() {
    let rows = sample_rows();
    assert!(try_replace_occurrences(&rows, request("(", Some("y"), &[7], ReplaceMode::Regex)).is_none());
    // not needed when nothing is selected
    assert_eq!(try_replace_occurrences(&rows, request("(", Some("y"), &[], ReplaceMode::Regex)).map(|v| v.len()), Some(0));
    // a literal pattern is escaped
    let out = try_replace_occurrences(&rows, request("(", Some("y"), &[7], ReplaceMode::Simple)).unwrap();
    assert_eq!(out[0].0.value.as_deref(), Some("Alice"));
}
