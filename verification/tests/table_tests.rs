use json_table::depth::{change_depth_array, deepen_rows, DeepenedRow};
use json_table::document::{open_document, Opened};
use json_table::array_table::ArrayTable;
use json_table::rows::{as_array, ArrayEntries, Column, FlatParse, FlatPointer, FlatType, FlatValue};
use json_table::table::{
    deleted_cell_entry, do_filter_column, get_pointer, get_pointer_index, insert_new_row, is_filterable, move_focus,
    on_filter_column_value, pasted_cell_entry, pointer_key, selected_columns, set_open, update_row, CellLocation,
    NavigationKey, ScrollToRowMode,
};
use json_table::time::{InstantWrapper, Span};
use json_table::widgets::{CacheTrait, ColumnResponse, LfToCrlfReader};
use json_table::cache::FrameCache;

fn column(name: &str, depth: u8, t: FlatType, id: usize) -> Column {
    Column { name: name.to_string(), depth, value_type: t, seen_count: 0, order: 0, id }
}

fn value(pointer: &str, t: FlatType, depth: u8, v: Option<&str>) -> FlatValue {
    FlatValue {
        pointer: FlatPointer { pointer: pointer.to_string(), value_type: t, depth, position: 3, column_id: 0 },
        value: v.map(|s| s.to_string()),
    }
}

fn flat_type(t: json_flat_parser::ValueType) -> FlatType {
    match t {
        json_flat_parser::ValueType::Array(n) => FlatType::Array(n),
        json_flat_parser::ValueType::Object(parsed, n) => FlatType::Object(parsed, n),
        json_flat_parser::ValueType::Number => FlatType::Number,
        json_flat_parser::ValueType::String => FlatType::String,
        json_flat_parser::ValueType::Bool => FlatType::Bool,
        json_flat_parser::ValueType::Null => FlatType::Null,
        json_flat_parser::ValueType::None => FlatType::Unset,
    }
}

fn value_type(t: FlatType) -> json_flat_parser::ValueType {
    match t {
        FlatType::Array(n) => json_flat_parser::ValueType::Array(n),
        FlatType::Object(parsed, n) => json_flat_parser::ValueType::Object(parsed, n),
        FlatType::Number => json_flat_parser::ValueType::Number,
        FlatType::String => json_flat_parser::ValueType::String,
        FlatType::Bool => json_flat_parser::ValueType::Bool,
        FlatType::Null => json_flat_parser::ValueType::Null,
        FlatType::Unset => json_flat_parser::ValueType::None,
    }
}

fn from_crate(e: json_flat_parser::FlatJsonValue<String>) -> FlatValue {
    FlatValue {
        pointer: FlatPointer {
            pointer: e.pointer.pointer,
            value_type: flat_type(e.pointer.value_type),
            depth: e.pointer.depth,
            position: e.pointer.position,
            column_id: e.pointer.column_id,
        },
        value: e.value,
    }
}

fn to_crate(e: FlatValue) -> json_flat_parser::FlatJsonValue<String> {
    json_flat_parser::FlatJsonValue {
        pointer: json_flat_parser::PointerKey {
            pointer: e.pointer.pointer,
            value_type: value_type(e.pointer.value_type),
            depth: e.pointer.depth,
            position: e.pointer.position,
            column_id: e.pointer.column_id,
        },
        value: e.value,
    }
}

fn parse(json: &str, options: json_flat_parser::ParseOptions) -> (FlatParse, json_flat_parser::ParseResult<String>) {
    let r = json_flat_parser::JSONParser::parse(json, options).unwrap().to_owned();
    let meta = r.clone_except_json();
    let flat = FlatParse {
        json: r.json.into_iter().map(from_crate).collect(),
        max_json_depth: r.max_json_depth,
        parsing_max_depth: r.parsing_max_depth,
        started_parsing_at: r.started_parsing_at,
        started_parsing_at_index_start: r.started_parsing_at_index_start,
        started_parsing_at_index_end: r.started_parsing_at_index_end,
        parsing_prefix: r.parsing_prefix,
        depth_after_start_at: r.depth_after_start_at,
    };
    (flat, meta)
}

#[test]
fn selected_columns_at_depth() {
    let all = vec![
        column("/a", 1, FlatType::Number, 1),
        column("/o", 1, FlatType::Object(true, 1), 2),
        column("/o/x", 2, FlatType::String, 3),
        column("/deep/y", 3, FlatType::String, 4),
    ];
    let shown: Vec<String> = selected_columns(&all, 2).into_iter().map(|c| c.name).collect();
    assert_eq!(shown, vec!["/a", "/o/x"]);
    let top: Vec<String> = selected_columns(&all, 1).into_iter().map(|c| c.name).collect();
    assert_eq!(top, vec!["/a", "/o"]);
}

#[test]
fn filterable_columns() {
    assert!(is_filterable(&column("/a", 1, FlatType::String, 0)));
    assert!(is_filterable(&column("/a", 1, FlatType::Number, 0)));
    assert!(!is_filterable(&column("/a", 1, FlatType::Null, 0)));
    assert!(!is_filterable(&column("/a", 1, FlatType::Array(2), 0)));
    assert!(!is_filterable(&column("/a", 1, FlatType::Object(true, 2), 0)));
}

#[test]
fn cells_are_found_by_pointer() {
    assert_eq!(pointer_key("/items", 12, "/name"), "/items/12/name");
    let data = vec![value("/items/3/#", FlatType::Number, 0, Some("3")), value("/items/3/name", FlatType::String, 2, Some("x"))];
    let columns = vec![column("/name", 2, FlatType::String, 1), column("/other", 2, FlatType::String, 2)];
    let parent = FlatPointer { pointer: "/items".to_string(), value_type: FlatType::Array(4), depth: 1, position: 0, column_id: 0 };
    assert_eq!(get_pointer_index(&parent, &columns, &data, 0, 3), Some(1));
    assert_eq!(get_pointer_index(&parent, &columns, &data, 1, 3), None);
    assert_eq!(get_pointer_index(&parent, &columns, &data, 5, 3), None);
    assert_eq!(get_pointer("/items", &columns, &data, 0, 3).unwrap().value.as_deref(), Some("x"));
}

fn row(parent: &str, i: usize) -> ArrayEntries {
    ArrayEntries {
        entries: vec![
            value(&format!("{}/{}/#", parent, i), FlatType::Number, 0, Some(&i.to_string())),
            value(&format!("{}/{}/name", parent, i), FlatType::String, 2, Some("n")),
            value(&format!("{}/{}", parent, i), FlatType::Object(true, 1), 1, Some("{\"name\":\"n\"}")),
        ],
        index: i,
    }
}

#[test]
fn insert_row_renumbers_following_rows() {
    let mut nodes: Vec<ArrayEntries> = (0..3).map(|i| row("/data", i)).collect();
    let mut filtered = vec![0, 1, 2];
    insert_new_row(&mut nodes, &mut filtered, "/data", 1, 1);
    assert_eq!(nodes.len(), 4);
    assert_eq!(nodes.iter().map(|r| r.index).collect::<Vec<_>>(), vec![0, 1, 2, 3]);
    assert_eq!(nodes[2].entries[0].pointer.pointer, "/data/2/#");
    assert_eq!(nodes[2].entries[1].pointer.pointer, "/data/2");
    assert_eq!(nodes[2].entries[1].value.as_deref(), Some("{}"));
    assert_eq!(nodes[2].entries[1].pointer.depth, 1);
    assert_eq!(nodes[3].entries[1].pointer.pointer, "/data/3/name");
    assert_eq!(nodes[3].entries[2].pointer.pointer, "/data/3");
    assert_eq!(nodes[1].entries[1].pointer.pointer, "/data/1/name");
    assert_eq!(filtered, vec![0, 1, 2, 3]);
}

#[test]
fn insert_row_above_first() {
    let mut nodes: Vec<ArrayEntries> = (0..10).map(|i| row("", i)).collect();
    let mut filtered: Vec<usize> = (0..10).collect();
    insert_new_row(&mut nodes, &mut filtered, "", 0, 0);
    assert_eq!(nodes[0].entries[1].pointer.pointer, "/0");
    assert_eq!(nodes[10].entries[1].pointer.pointer, "/10/name");
    assert_eq!(nodes[1].entries[0].pointer.pointer, "/1/#");
    assert_eq!(filtered[0], 0);
    assert_eq!(filtered[1], 1);
    assert_eq!(filtered.len(), 11);
}

#[test]
fn filter_values_toggle() {
    let mut filters: Vec<(String, Vec<String>)> = vec![];
    on_filter_column_value(&mut filters, "/name".to_string(), "a".to_string());
    assert_eq!(filters, vec![("/name".to_string(), vec!["a".to_string()])]);
    on_filter_column_value(&mut filters, "/name".to_string(), "b".to_string());
    assert_eq!(filters[0].1, vec!["a".to_string(), "b".to_string()]);
    on_filter_column_value(&mut filters, "/name".to_string(), "a".to_string());
    assert_eq!(filters[0].1, vec!["b".to_string()]);
    on_filter_column_value(&mut filters, "/name".to_string(), "b".to_string());
    assert!(filters.is_empty());
}

#[test]
fn filters_choose_rows() {
    let nodes: Vec<ArrayEntries> = (0..3).map(|i| row("/data", i)).collect();
    assert_eq!(do_filter_column(&nodes, "/data", &vec![]), vec![0, 1, 2]);
    let filters = vec![("/name".to_string(), vec!["other".to_string()])];
    assert_eq!(do_filter_column(&nodes, "/data", &filters), Vec::<usize>::new());
}

#[test]
fn windows_open_and_close() {
    let mut open: Vec<String> = vec![];
    set_open(&mut open, "Replace", true);
    set_open(&mut open, "Replace", true);
    assert_eq!(open, vec!["Replace".to_string()]);
    set_open(&mut open, "About", true);
    set_open(&mut open, "Replace", false);
    assert_eq!(open, vec!["About".to_string()]);
    set_open(&mut open, "Missing", false);
    assert_eq!(open.len(), 1);
}

fn cell(row: usize, col: usize, pinned: bool) -> CellLocation {
    CellLocation { row_index: row, column_index: col, is_pinned_column_table: pinned }
}

#[test]
fn tab_moves_to_next_column_then_next_row() {
    let m = move_focus(cell(0, 0, false), NavigationKey::Tab, 3, 2, 5);
    assert_eq!(m.cell, cell(0, 1, false));
    assert_eq!(m.scroll_to_column, Some(1));
    let m = move_focus(cell(0, 2, false), NavigationKey::Tab, 3, 2, 5);
    assert_eq!(m.cell, cell(1, 0, false));
    assert_eq!(m.scroll_to_row, Some(1));
    let m = move_focus(cell(4, 2, false), NavigationKey::Tab, 3, 2, 5);
    assert_eq!(m.cell, cell(4, 2, false));
    let m = move_focus(cell(0, 1, true), NavigationKey::Tab, 3, 2, 5);
    assert_eq!(m.cell, cell(1, 1, true));
    assert_eq!(m.scroll_to_column, None);
}

#[test]
fn arrows_stop_at_edges() {
    assert_eq!(move_focus(cell(0, 0, false), NavigationKey::ArrowLeft, 3, 2, 5).cell, cell(0, 0, false));
    assert_eq!(move_focus(cell(0, 0, false), NavigationKey::ArrowUp, 3, 2, 5).cell, cell(0, 0, false));
    assert_eq!(move_focus(cell(4, 0, false), NavigationKey::ArrowDown, 3, 2, 5).cell, cell(4, 0, false));
    assert_eq!(move_focus(cell(1, 2, false), NavigationKey::ArrowRight, 3, 2, 5).cell, cell(1, 2, false));
    let m = move_focus(cell(1, 2, false), NavigationKey::ArrowLeft, 3, 2, 5);
    assert_eq!(m.cell, cell(1, 1, false));
    assert_eq!(m.scroll_to_column, Some(1));
    // the pinned table never goes left of its first data column
    assert_eq!(move_focus(cell(1, 1, true), NavigationKey::ArrowLeft, 3, 2, 5).cell, cell(1, 1, true));
    let m = move_focus(cell(1, 1, false), NavigationKey::ArrowDown, 3, 2, 5);
    assert_eq!(m.cell, cell(2, 1, false));
    assert_eq!(m.scroll_to_row, Some(2));
}

#[test]
fn scroll_mode_labels() {
    assert_eq!(ScrollToRowMode::RowNumber.as_str(), "row number");
    assert_eq!(ScrollToRowMode::MatchingTerm.as_str(), "matching term");
    assert_eq!(ScrollToRowMode::default(), ScrollToRowMode::RowNumber);
}

#[test]
fn cell_edits() {
    let obj = column("/o", 2, FlatType::Object(true, 3), 9);
    let pasted = pasted_cell_entry("/items", 4, &obj, "{\"k\":1}".to_string());
    assert_eq!(pasted.pointer.pointer, "/items/4/o");
    assert_eq!(pasted.pointer.value_type, FlatType::Object(false, 0));
    assert_eq!(pasted.pointer.column_id, 9);
    let text = column("/t", 2, FlatType::String, 5);
    let deleted = deleted_cell_entry("/items", 4, &text);
    assert_eq!(deleted.value, None);
    assert_eq!(deleted.pointer.value_type, FlatType::String);
    assert_eq!(pasted_cell_entry("", 0, &text, "v".to_string()).pointer.value_type, FlatType::String);
}

#[test]
fn update_row_in_sub_table() {
    let mut entries = vec![
        value("/0/name", FlatType::String, 2, Some("a")),
        value("/0/n", FlatType::Null, 2, None),
        value("/0", FlatType::Object(true, 2), 1, Some("{}")),
    ];
    assert!(!update_row(&mut entries, value("/0/name", FlatType::String, 2, Some("a")), true, 4));
    assert!(update_row(&mut entries, value("/0/n", FlatType::Number, 2, Some("3")), true, 4));
    assert_eq!(entries[1].value.as_deref(), Some("3"));
    assert_eq!(entries[1].pointer.value_type, FlatType::Number);
    // a new value goes before the row itself
    assert!(update_row(&mut entries, value("/0/z", FlatType::Bool, 2, Some("true")), true, 4));
    assert_eq!(entries[2].pointer.pointer, "/0/z");
    assert_eq!(entries[2].pointer.position, usize::MAX);
    assert_eq!(entries[3].pointer.pointer, "/0");
    // nothing to remove
    assert!(!update_row(&mut entries, value("/0/missing", FlatType::Null, 2, None), true, 4));
}

#[test]
fn update_row_rewrites_the_row_value() {
    let json = r#"[{"a": 1, "o": {"x": "y"}}]"#;
    let (flat, _) = parse(json, json_flat_parser::ParseOptions::default().parse_array(false).max_depth(4));
    let (mut rows, _) = as_array(flat).unwrap();
    let entries = &mut rows[0].entries;
    let changed = update_row(entries, value("/0/a", FlatType::Number, 2, Some("2")), false, 4);
    assert!(changed);
    let root = entries.last().unwrap();
    assert_eq!(root.pointer.pointer, "/0");
    let text: String = root.value.as_ref().unwrap().chars().filter(|c| !c.is_whitespace()).collect();
    assert!(text.contains("\"a\":2"));
    assert!(text.contains("\"x\":\"y\""));
}

#[test]
fn change_depth_gives_nested_columns() {
    let json = r#"[{"a": 1, "o": {"x": {"y": "z"}}}, {"a": 2, "o": {"x": {"y": "w"}}}]"#;
    let (flat, meta) = parse(json, json_flat_parser::ParseOptions::default().parse_array(false).max_depth(2));
    let (rows, _) = as_array(flat).unwrap();
    let mut deepened = vec![];
    for row in rows {
        let previous_len = row.entries.len();
        let mut r = meta.clone_except_json();
        r.json = row.entries.into_iter().map(to_crate).collect();
        let options = json_flat_parser::ParseOptions::default().parse_array(false).max_depth(3);
        json_flat_parser::JSONParser::change_depth_owned(&mut r, options).unwrap();
        deepened.push(DeepenedRow { entries: r.json.into_iter().map(from_crate).collect(), index: row.index, previous_len });
    }
    let (rows, columns, depth) = change_depth_array(&meta.started_parsing_at, &meta.parsing_prefix, deepened);
    assert_eq!(depth, 4);
    assert_eq!(rows.iter().map(|r| r.index).collect::<Vec<_>>(), vec![0, 1]);
    // the newly parsed value is in the row, and the row's own value is last again
    assert_eq!(rows[0].entries[3].pointer.pointer, "/0/o/x");
    assert_eq!(rows[0].entries.last().unwrap().pointer.pointer, "/0");
    // row numbers and the rows themselves give no column; with fewer than
    // eight rows each row is a chunk of its own, whose columns start with no
    // count; the column found last comes first
    let names: Vec<(&str, usize)> = columns.iter().map(|c| (c.name.as_str(), c.seen_count)).collect();
    assert_eq!(names, vec![("/o/x", 0), ("/a", 0), ("/o", 0)]);
    assert_eq!(rows[1].entries[3].pointer.column_id, columns[0].id);
}

#[test]
fn spans_add_and_subtract() {
    let a = Span::new(1, 600_000_000);
    let b = Span::new(0, 1_500_000_000);
    assert_eq!(b.as_secs(), 1);
    assert_eq!(b.subsec_nanos(), 500_000_000);
    let c = a.checked_add(b).unwrap();
    assert_eq!((c.as_secs(), c.subsec_nanos()), (3, 100_000_000));
    assert_eq!(c.checked_sub(b).unwrap(), a);
    assert!(a.checked_sub(c).is_none());
    assert!(Span::new(u64::MAX, 999_999_999).checked_add(Span::new(0, 1)).is_none());
}

#[test]
fn instants_measure_spans() {
    let start = InstantWrapper(Span::new(10, 0));
    let later = start.checked_add(Span::new(2, 250)).unwrap();
    assert_eq!(later.duration_since(start), Span::new(2, 250));
    assert_eq!(start.checked_duration_since(later), None);
    assert_eq!(start.saturating_duration_since(later), Span::zero());
    assert_eq!(later.checked_sub(Span::new(2, 250)), Some(start));
    assert!(start.checked_sub(Span::new(11, 0)).is_none());
}

#[test]
fn widget_state() {
    let r = ColumnResponse { clicked_col_index: Some(1), double_clicked_col_index: None, hovered_col_index: Some(2) };
    assert_eq!(r.clicked_col_index, Some(1));
    let mut reader = LfToCrlfReader::new(vec![1u8, 2, 3]);
    assert_eq!(reader.get_mut().len(), 3);
}

struct Counting {
    calls: usize,
}

impl json_table::cache::ComputerMut<u64, &'static str, String> for Counting {
    fn compute(&mut self, key: u64, param: &'static str) -> String {
        self.calls += 1;
        format!("{}-{}", param, key)
    }
}

#[test]
fn frame_cache_keeps_values_used_in_the_last_frame() {
    let mut cache = FrameCache::new(Counting { calls: 0 });
    assert_eq!(cache.get(7, 7, "a"), "a-7");
    // asked again in the same frame: answered from the cache
    assert_eq!(cache.get(7, 7, "b"), "a-7");
    assert_eq!(cache.len(), 1);
    cache.update();
    cache.get(8, 8, "c");
    assert_eq!(cache.len(), 2);
    // a frame passes where only 8 is used: 7 is dropped
    cache.update();
    assert_eq!(cache.len(), 1);
    assert_eq!(cache.get(7, 7, "d"), "d-7");
    cache.update();
    cache.update();
    assert_eq!(cache.len(), 0);
}

#[test]
fn update_row_writes_the_row_as_pretty_json() {
    let json = r#"[{"a": 1, "b": "x"}]"#;
    let (flat, _) = parse(json, json_flat_parser::ParseOptions::default().parse_array(false).max_depth(4));
    let (mut rows, _) = as_array(flat).unwrap();
    let entries = &mut rows[0].entries;
    assert!(update_row(entries, value("/0/a", FlatType::Number, 2, Some("2")), false, 4));
    let root = entries.last().unwrap();
    assert_eq!(root.value.as_deref(), Some("{\n  \"a\": 2,\n  \"b\": \"x\"\n}"));
}

#[test]
fn update_row_keeps_the_root_when_the_values_cannot_be_written() {
    let mut entries = vec![
        value("/0/o", FlatType::Object(false, 0), 2, Some("{bad")),
        value("/0/a", FlatType::Number, 2, Some("1")),
        value("/0", FlatType::Object(true, 2), 1, Some("{}")),
    ];
    assert!(update_row(&mut entries, value("/0/a", FlatType::Number, 2, Some("2")), false, 4));
    assert_eq!(entries[1].value.as_deref(), Some("2"));
    assert_eq!(entries[2].value.as_deref(), Some("{}"));
}

#[test]
fn open_document_shows_an_array_or_offers_arrays() {
    match open_document(br#"[{"a": 1}, {"a": 2}]"#, None, 10) {
        Opened::Table { rows, columns, .. } => {
            assert_eq!(rows.len(), 2);
            assert_eq!(columns.iter().map(|c| c.name.as_str()).collect::<Vec<_>>(), vec!["", "/a"]);
        }
        _ => panic!("expected a table"),
    }
    match open_document(br#"{"x": [1], "y": {"z": [2]}}"#, None, 10) {
        Opened::Arrays(pointers) => assert_eq!(pointers, vec!["/x".to_string(), "/y/z".to_string()]),
        _ => panic!("expected arrays"),
    }
    match open_document(br#"{"x": [{"b": 1}], "y": 2}"#, Some("/x".to_string()), 10) {
        Opened::Table { rows, .. } => assert_eq!(rows.len(), 1),
        _ => panic!("expected a table"),
    }
    match open_document(br#"[{"a": "x\"y\n{[z]}"}]"#, None, 10) {
        Opened::Table { rows, .. } => {
            assert_eq!(rows.len(), 1);
            let a = rows[0].entries.iter().find(|e| e.pointer.pointer == "/0/a").unwrap();
            assert_eq!(a.value.as_deref(), Some("x\\\"y\\n{[z]}"));
        }
        _ => panic!("expected a table"),
    }
    match open_document(br#"{"a":"x\ny"}"#, None, 10) {
        Opened::Arrays(pointers) => assert!(pointers.is_empty()),
        _ => panic!("expected no array"),
    }
    // the crate's lexer reads the quote after an escaped backslash as escaped
    match open_document(br#"[{"a": "x\\"}]"#, None, 10) {
        Opened::Failed(e) => assert_eq!(e, "the parser cannot read this document"),
        _ => panic!("expected a failure"),
    }
}

#[test]
fn deepen_rows_parses_objects_further() {
    let json = br#"[{"a": 1, "o": {"x": {"y": "z"}}}, {"a": 2, "o": {"x": {"y": "w"}}}]"#;
    let (rows, meta) = match open_document(json, None, 2) {
        Opened::Table { rows, meta, .. } => (rows, meta),
        _ => panic!("expected a table"),
    };
    let deepened = deepen_rows(rows, &meta, 3).unwrap();
    assert_eq!(deepened[0].previous_len, 4);
    let (rows, _, _) = change_depth_array(&meta.started_parsing_at, &meta.parsing_prefix, deepened);
    assert_eq!(rows[0].entries[3].pointer.pointer, "/0/o/x");
    assert_eq!(rows[0].entries.last().unwrap().pointer.pointer, "/0");
}

#[test]
fn parse_deeper_shows_the_new_columns() {
    let json = br#"[{"a": 1, "o": {"x": {"y": "z"}}}, {"a": 2, "o": {"x": {"y": "w"}}}]"#;
    let (rows, columns, meta) = match open_document(json, None, 2) {
        Opened::Table { rows, columns, meta, .. } => (rows, columns, meta),
        _ => panic!("expected a table"),
    };
    let parent = FlatPointer { pointer: String::new(), value_type: FlatType::Array(2), depth: 0, position: 0, column_id: 0 };
    let mut t = ArrayTable::new(Some(meta.parsing_max_depth), rows, columns, 2, parent);
    assert!(t.update_selected_columns(3));
    assert!(t.parse_deeper(&meta, 3));
    assert!(t.nodes()[0].entries.iter().any(|e| e.pointer.pointer == "/0/o/x"));
    assert!(t.all_columns().iter().any(|c| c.name == "/o/x"));
    assert!(!t.update_selected_columns(3));
}

#[test]
fn rows_hold_their_own_values() {
    let json = r#"[{"a": 1, "o": {"x": "y"}}, {"a": 2}]"#;
    let (flat, _) = parse(json, json_flat_parser::ParseOptions::default().parse_array(false).max_depth(4));
    let (rows, _) = as_array(flat).unwrap();
    for row in &rows {
        let prefix = format!("/{}", row.index);
        assert!(row.entries.iter().all(|e| e.pointer.pointer.starts_with(&prefix)));
    }
}

#[test]
fn an_instant_moved_later_then_earlier_comes_back() {
    let a = InstantWrapper(Span::new(3, 200));
    let d = Span::new(1, 999_999_900);
    let b = a.checked_add(d).unwrap();
    assert_eq!(b.checked_sub(d), Some(a));
}

#[test]
fn array_columns_have_distinct_names() {
    let json = r#"[{"a": 1, "b": 2}, {"b": 3, "c": null}, {"a": 4}]"#;
    let (flat, _) = parse(json, json_flat_parser::ParseOptions::default().parse_array(false).max_depth(4));
    let (_, columns) = as_array(flat).unwrap();
    let mut names: Vec<&str> = columns.iter().map(|c| c.name.as_str()).collect();
    let total = names.len();
    names.sort();
    names.dedup();
    assert_eq!(names.len(), total);
}
