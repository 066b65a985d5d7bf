use json_table::array_table::ArrayTable;
use json_table::object_table::ObjectTable;
use json_table::panels::{PanelButton, SearchReplacePanel};
use json_table::replace::ReplaceMode;
use json_table::rows::{ArrayEntries, Column, FlatPointer, FlatType, FlatValue};
use json_table::table::{CellLocation, ScrollToRowMode};
use json_table::time::{InstantWrapper, Span};

fn column(name: &str, depth: u8, t: FlatType, id: usize) -> Column {
    Column { name: name.to_string(), depth, value_type: t, seen_count: 0, order: 0, id }
}

fn counted(name: &str, seen_count: usize, order: usize) -> Column {
    Column { name: name.to_string(), depth: 1, value_type: FlatType::String, seen_count, order, id: order }
}

fn pointer(p: &str, t: FlatType, depth: u8) -> FlatPointer {
    FlatPointer { pointer: p.to_string(), value_type: t, depth, position: 0, column_id: 0 }
}

fn value(p: &str, t: FlatType, depth: u8, v: Option<&str>) -> FlatValue {
    FlatValue { pointer: pointer(p, t, depth), value: v.map(|s| s.to_string()) }
}

fn names(columns: &[Column]) -> Vec<&str> {
    columns.iter().map(|c| c.name.as_str()).collect()
}

fn rows() -> Vec<ArrayEntries> {
    vec![
        ArrayEntries {
            entries: vec![
                value("/data/0/name", FlatType::String, 2, Some("a")),
                value("/data/0", FlatType::Object(true, 1), 1, Some("{}")),
            ],
            index: 0,
        },
        ArrayEntries {
            entries: vec![
                value("/data/1/name", FlatType::String, 2, Some("b")),
                value("/data/1", FlatType::Object(true, 1), 1, Some("{}")),
            ],
            index: 1,
        },
    ]
}

fn table() -> ArrayTable {
    let columns = vec![
        column("/name", 1, FlatType::String, 1),
        column("/address", 1, FlatType::Object(true, 1), 2),
        column("/address/city", 2, FlatType::String, 3),
    ];
    ArrayTable::new(Some(2), rows(), columns, 1, pointer("/data", FlatType::Array(2), 0))
}

// ---------------------------------------------------------------------------
// Find and replace window
// ---------------------------------------------------------------------------

#[test]
fn panel_lists_replaceable_named_columns() {
    let mut panel = SearchReplacePanel::default();
    assert_eq!(panel.window_title(), "Replace");
    panel.set_columns(vec![
        column("/name", 1, FlatType::String, 1),
        column("/tags", 1, FlatType::Array(2), 2),
        column("/address", 1, FlatType::Object(true, 1), 3),
        column("", 1, FlatType::Unset, 0),
        column("/age", 1, FlatType::Number, 4),
    ]);
    assert_eq!(names(&panel.offered_columns()), vec!["/name", "/age"]);
    assert!(SearchReplacePanel::can_be_replaced(&column("/n", 1, FlatType::Null, 5)));
    assert!(!SearchReplacePanel::can_be_replaced(&column("/t", 1, FlatType::Array(0), 6)));
    panel.set_title("Replace in /data/3/tags".to_string());
    assert_eq!(panel.window_title(), "Replace in /data/3/tags");
}

#[test]
fn panel_checks_and_unchecks_columns() {
    let mut panel = SearchReplacePanel::default();
    let name = column("/name", 1, FlatType::String, 1);
    let age = column("/age", 1, FlatType::Number, 2);
    assert!(!panel.is_checked(&name));
    panel.toggle_column(&name);
    panel.toggle_column(&age);
    assert!(panel.is_checked(&name));
    assert_eq!(panel.selection_label(), "/name, /age");
    panel.toggle_column(&name);
    assert!(!panel.is_checked(&name));
    assert_eq!(panel.selection_label(), "/age");
    panel.toggle_column(&age);
    assert_eq!(panel.selection_label(), "no column selected");
    panel.set_select_column(name.clone());
    assert_eq!(panel.selection_label(), "/name");
}

#[test]
fn panel_counts_many_selected_columns() {
    let mut panel = SearchReplacePanel::default();
    for i in 0..6 {
        panel.toggle_column(&column(&format!("/c{}", i), 1, FlatType::String, i));
    }
    assert_eq!(panel.selection_label(), "6 columns selected");
}

#[test]
fn panel_mode_buttons_toggle() {
    let mut panel = SearchReplacePanel::default();
    panel.toggle_column(&column("/name", 1, FlatType::String, 1));
    panel.toggle_mode(ReplaceMode::Regex);
    assert_eq!(panel.press(PanelButton::ReplaceAll).unwrap().replace_mode, ReplaceMode::Regex);
    panel.toggle_mode(ReplaceMode::ExactWord);
    assert_eq!(panel.press(PanelButton::ReplaceAll).unwrap().replace_mode, ReplaceMode::ExactWord);
    panel.toggle_mode(ReplaceMode::ExactWord);
    assert_eq!(panel.press(PanelButton::ReplaceAll).unwrap().replace_mode, ReplaceMode::Simple);
}

#[test]
fn panel_buttons_send_requests_when_enabled() {
    let mut panel = SearchReplacePanel::default();
    assert!(!panel.is_enabled(PanelButton::ReplaceAll));
    assert!(panel.press(PanelButton::ReplaceAll).is_none());
    panel.set_search_criteria("foo".to_string());
    panel.toggle_column(&column("/name", 1, FlatType::String, 7));
    let request = panel.press(PanelButton::SetToNull).unwrap();
    assert_eq!(request.search_criteria, "foo");
    assert_eq!(request.replace_value, None);
    assert_eq!(request.selected_column.unwrap()[0].id, 7);
    panel.set_replace_value("bar".to_string());
    assert!(!panel.is_enabled(PanelButton::SetToNull));
    assert!(panel.press(PanelButton::SetToNull).is_none());
    let request = panel.press(PanelButton::ReplaceAll).unwrap();
    assert_eq!(request.replace_value, Some("bar".to_string()));
    assert_eq!(request.replace_mode, ReplaceMode::Simple);
}

// ---------------------------------------------------------------------------
// Array table state
// ---------------------------------------------------------------------------

#[test]
fn array_table_starts_with_row_numbers_pinned() {
    let t = table();
    assert_eq!(names(t.columns(true)), vec!["/#"]);
    assert_eq!(t.columns(true)[0].value_type, FlatType::Number);
    assert_eq!(names(t.columns(false)), vec!["/name", "/address"]);
    assert_eq!(t.filtered_nodes(), &vec![0, 1]);
    assert_eq!(t.all_columns().len(), 3);
    assert!(!t.is_open("Replace"));
}

#[test]
fn array_table_depth_change_skips_pinned_columns() {
    let mut t = table();
    assert!(!t.update_selected_columns(2));
    assert_eq!(names(t.columns(false)), vec!["/name", "/address/city"]);
    t.pin_column(false, 0);
    assert_eq!(names(t.columns(true)), vec!["/#", "/name"]);
    assert!(!t.update_max_depth(1));
    assert_eq!(names(t.columns(false)), vec!["/address"]);
    assert!(t.update_selected_columns(3));
    assert_eq!(names(t.columns(false)), vec!["/address"]);
}

#[test]
fn array_table_shows_a_placeholder_when_no_column_is_left() {
    let columns = vec![column("/name", 1, FlatType::String, 1)];
    let mut t = ArrayTable::new(None, rows(), columns, 1, pointer("/data", FlatType::Array(2), 0));
    t.pin_column(false, 0);
    assert!(!t.update_selected_columns(1));
    assert_eq!(t.columns(false).len(), 1);
    assert_eq!(t.columns(false)[0].name, "");
    assert_eq!(t.columns(false)[0].value_type, FlatType::Unset);
}

#[test]
fn array_table_takes_deeper_columns() {
    let mut t = table();
    t.open_replace_panel(None);
    assert!(t.update_selected_columns(3));
    let deeper = vec![column("/name", 1, FlatType::String, 1), column("/address/geo/lat", 3, FlatType::Number, 9)];
    t.apply_deeper_parse(rows(), deeper, 3);
    assert_eq!(names(t.columns(false)), vec!["/name", "/address/geo/lat"]);
    assert_eq!(names(&t.search_replace_panel().offered_columns()), vec!["/name", "/address/geo/lat"]);
    assert!(!t.update_selected_columns(3));
}

#[test]
fn unpinned_columns_go_back_in_table_order() {
    let columns = vec![counted("/a", 5, 0), counted("/b", 3, 1), counted("/c", 1, 2)];
    let mut t = ArrayTable::new(None, rows(), columns, 1, pointer("/data", FlatType::Array(2), 0));
    assert_eq!(names(t.columns(false)), vec!["/a", "/b", "/c"]);
    t.pin_column(false, 1);
    assert_eq!(names(t.columns(false)), vec!["/a", "/c"]);
    t.pin_column(true, 1);
    assert_eq!(names(t.columns(true)), vec!["/#"]);
    assert_eq!(names(t.columns(false)), vec!["/a", "/b", "/c"]);
}

#[test]
fn array_table_filters_rows() {
    let mut t = table();
    t.on_filter_column_value("/name".to_string(), "b".to_string());
    assert_eq!(t.filtered_nodes(), &vec![1]);
    t.on_filter_column_value("/name".to_string(), "b".to_string());
    assert_eq!(t.filtered_nodes(), &vec![0, 1]);
}

#[test]
fn replace_window_of_a_nested_table_names_the_array() {
    let mut t = table();
    t.set_sub_table(true);
    t.open_replace_panel(Some(column("/name", 1, FlatType::String, 1)));
    assert!(t.is_open("Replace"));
    assert_eq!(t.search_replace_panel().window_title(), "Replace in /data");
    assert_eq!(t.search_replace_panel().selection_label(), "/name");
    t.set_open("Replace", false);
    assert!(!t.is_open("Replace"));
}

#[test]
fn reset_search_marks_the_change_a_second_earlier() {
    let mut t = table();
    t.reset_search(InstantWrapper(Span::new(5, 0)));
    assert_eq!(t.scroll_to_row(), "");
    assert!(t.matching_rows().0.is_empty());
    assert_eq!(t.matching_rows().1, 0);
    assert_eq!(t.changed_scroll_to_row_value().unwrap().0.as_secs(), 4);
}

#[test]
fn scroll_to_row_number() {
    let mut t = table();
    assert_eq!(t.search_rows(InstantWrapper(Span::new(10, 0))), None);
    t.scroll_to_row_edited("+1".to_string(), InstantWrapper(Span::new(10, 0)));
    assert_eq!(t.search_rows(InstantWrapper(Span::new(10, 0))), Some(1));
    assert_eq!(t.search_rows(InstantWrapper(Span::new(10, 0))), None);
    t.scroll_to_row_edited("x1".to_string(), InstantWrapper(Span::new(11, 0)));
    assert_eq!(t.search_rows(InstantWrapper(Span::new(11, 0))), Some(0));
    assert_eq!(t.scroll_to_row(), "");
}

#[test]
fn scroll_to_matching_rows_after_a_pause() {
    let mut t = table();
    t.set_scroll_to_row_mode(ScrollToRowMode::MatchingTerm, InstantWrapper(Span::new(10, 0)));
    assert_eq!(t.scroll_to_row_mode(), ScrollToRowMode::MatchingTerm);
    t.scroll_to_row_edited("B".to_string(), InstantWrapper(Span::new(10, 0)));
    assert_eq!(t.search_rows(InstantWrapper(Span::new(10, 100_000_000))), None);
    assert!(t.matching_rows().0.is_empty());
    assert_eq!(t.search_rows(InstantWrapper(Span::new(10, 300_000_000))), None);
    assert_eq!(t.matching_rows().0, &vec![1]);
    assert_eq!(t.matching_row_to_show(), Some(1));
    assert_eq!(t.matching_row_to_show(), None);
    assert!(t.goto_next_matching_row_occurrence());
    assert_eq!(t.matching_rows().1, 0);
    t.scroll_to_row_edited("".to_string(), InstantWrapper(Span::new(12, 0)));
    assert!(t.matching_rows().0.is_empty());
    assert!(!t.goto_next_matching_row_occurrence());
    assert!(!t.goto_previous_matching_row_occurrence());
}

#[test]
fn scroll_to_matching_columns() {
    let columns = vec![
        column("/name", 1, FlatType::String, 1),
        column("/address", 1, FlatType::Object(true, 1), 2),
        column("/address/city", 2, FlatType::String, 3),
        column("/mail_address", 1, FlatType::String, 4),
    ];
    let mut t = ArrayTable::new(None, rows(), columns, 2, pointer("/data", FlatType::Array(2), 0));
    assert_eq!(names(t.columns(false)), vec!["/name", "/address/city", "/mail_address"]);
    t.scroll_to_column_edited("ADDRESS".to_string());
    t.search_columns();
    assert_eq!(t.matching_columns().0, &vec![1, 2]);
    assert_eq!(t.matching_column_to_show(), Some(1));
    assert!(t.goto_next_matching_column_occurrence());
    assert_eq!(t.matching_columns().1, 1);
    assert!(t.goto_next_matching_column_occurrence());
    assert_eq!(t.matching_columns().1, 0);
    assert!(t.goto_previous_matching_column_occurrence());
    assert_eq!(t.matching_columns().1, 1);
    assert_eq!(t.matching_column_to_show(), Some(2));
    t.scroll_to_column_edited("name".to_string());
    t.search_columns();
    assert_eq!(t.matching_columns().0, &vec![0]);
    t.scroll_to_column_edited("".to_string());
    t.search_columns();
    assert!(t.matching_columns().0.is_empty());
    assert!(!t.goto_next_matching_column_occurrence());
}

#[test]
fn filtering_scrolls_back_to_the_first_row() {
    let mut t = table();
    assert!(!t.take_reset_scroll());
    t.do_filter_column();
    assert!(t.take_reset_scroll());
    assert!(!t.take_reset_scroll());
}

// ---------------------------------------------------------------------------
// Object table state
// ---------------------------------------------------------------------------

fn object_nodes() -> Vec<FlatValue> {
    vec![
        value("/id", FlatType::Number, 1, Some("1")),
        value("/tags/0", FlatType::String, 2, Some("x")),
        value("/tags/1", FlatType::String, 2, Some("y")),
        value("/tags", FlatType::Array(2), 1, None),
        value("/meta", FlatType::Object(true, 0), 1, None),
        value("", FlatType::Object(true, 3), 0, None),
    ]
}

#[test]
fn object_table_rows_skip_arrays_and_objects() {
    let t = ObjectTable::new(object_nodes());
    assert_eq!(t.filtered_nodes(), &vec![0, 1, 2]);
    assert_eq!(t.nodes().len(), 6);
    assert_eq!(t.copy(1), Some("x".to_string()));
}

#[test]
fn object_table_edits_a_value() {
    let mut t = ObjectTable::new(object_nodes());
    let (unchanged, edited) = t.update_value(pointer("/id", FlatType::Number, 1), "1".to_string(), 0);
    assert!(unchanged);
    assert!(edited.is_none());
    let (unchanged, edited) = t.update_value(pointer("/id", FlatType::Number, 1), "2".to_string(), 0);
    assert!(!unchanged);
    let edited = edited.unwrap();
    assert_eq!(edited.pointer.pointer, "/id");
    assert_eq!(edited.value, Some("2".to_string()));
    assert_eq!(t.copy(0), Some("2".to_string()));
    let (_, edited) = t.update_value(pointer("/id", FlatType::Number, 1), "".to_string(), 0);
    assert_eq!(edited.unwrap().value, None);
    assert_eq!(t.copy(0), None);
}

#[test]
fn object_table_edit_in_an_array_hands_back_the_array() {
    let mut t = ObjectTable::new(object_nodes());
    let (unchanged, edited) = t.paste(1, "z".to_string());
    assert!(!unchanged);
    let edited = edited.unwrap();
    assert_eq!(edited.pointer.pointer, "/tags");
    assert_eq!(edited.pointer.value_type, FlatType::Array(2));
    let text = edited.value.unwrap();
    assert!(text.contains("\"z\""));
    assert!(text.contains("\"y\""));
    assert!(!text.contains("\"x\""));
}

#[test]
fn object_table_inserts_a_new_value_before_the_root() {
    let mut t = ObjectTable::new(object_nodes());
    let (unchanged, edited) = t.update_value(pointer("/name", FlatType::String, 1), "n".to_string(), 6);
    assert!(!unchanged);
    assert_eq!(edited.unwrap().pointer.pointer, "/name");
    assert_eq!(t.nodes().len(), 7);
    assert_eq!(t.nodes()[5].pointer.pointer, "/name");
    assert_eq!(t.nodes()[6].pointer.pointer, "");
    let (unchanged, edited) = t.update_value(pointer("/other", FlatType::String, 1), "".to_string(), 9);
    assert!(unchanged);
    assert!(edited.is_none());
}

#[test]
fn object_table_editing_cycle() {
    let mut t = ObjectTable::new(object_nodes());
    assert!(t.commit_edit().is_none());
    t.start_editing(0);
    t.set_editing_value("42".to_string());
    let (unchanged, edited) = t.commit_edit().unwrap();
    assert!(!unchanged);
    assert_eq!(edited.unwrap().value, Some("42".to_string()));
    assert_eq!(t.copy(0), Some("42".to_string()));
    assert!(t.commit_edit().is_none());
    t.focus_value(2);
    t.menu_closed(1);
    t.menu_closed(2);
}

// ---------------------------------------------------------------------------
// Opening a document
// ---------------------------------------------------------------------------

#[test]
fn documents_are_parsed_fully_unless_large() {
    assert_eq!(json_table::document::initial_max_depth(0), u8::MAX);
    assert_eq!(json_table::document::initial_max_depth(99 * 1024 * 1024 + 5), u8::MAX);
    assert_eq!(json_table::document::initial_max_depth(100 * 1024 * 1024), 1);
}

#[test]
fn first_bracket_tells_an_array() {
    assert!(json_table::document::root_is_array(b"  [{\"a\": 1}]"));
    assert!(!json_table::document::root_is_array(b"{\"a\": [1]}"));
    assert!(!json_table::document::root_is_array(b"42"));
    assert!(!json_table::document::root_is_array(b""));
}

#[test]
fn table_starts_below_the_start_pointer() {
    assert_eq!(json_table::document::table_depths(0, 10, 3), (3, 1));
    assert_eq!(json_table::document::table_depths(0, 2, 5), (2, 1));
    assert_eq!(json_table::document::table_depths(2, 1, 5), (3, 3));
    assert_eq!(json_table::document::table_depths(0, 0, 0), (1, 1));
}

#[test]
fn arrays_of_an_object_document_are_offered() {
    let values = vec![
        value("/name", FlatType::String, 1, Some("x")),
        value("/items", FlatType::Array(2), 1, None),
        value("/nested/list", FlatType::Array(0), 2, None),
        value("/nested", FlatType::Object(true, 1), 1, None),
    ];
    assert_eq!(json_table::document::array_pointers(&values), vec!["/items".to_string(), "/nested/list".to_string()]);
}

// ---------------------------------------------------------------------------
// Writing values in an array table
// ---------------------------------------------------------------------------

fn named(p: &str, v: &str, column_id: usize) -> FlatValue {
    FlatValue {
        pointer: FlatPointer { pointer: p.to_string(), value_type: FlatType::String, depth: 2, position: 0, column_id },
        value: Some(v.to_string()),
    }
}

fn editable_table() -> ArrayTable {
    let rows = vec![
        ArrayEntries {
            entries: vec![named("/data/0/name", "alpha", 1), value("/data/0", FlatType::Object(true, 1), 1, Some("{\"name\": \"alpha\"}"))],
            index: 0,
        },
        ArrayEntries {
            entries: vec![named("/data/1/name", "beta", 1), value("/data/1", FlatType::Object(true, 1), 1, Some("{\"name\": \"beta\"}"))],
            index: 1,
        },
    ];
    let columns = vec![column("/name", 1, FlatType::String, 1)];
    ArrayTable::new(Some(2), rows, columns, 1, pointer("/data", FlatType::Array(2), 0))
}

fn request(criteria: &str, replacement: Option<&str>, mode: ReplaceMode) -> json_table::replace::SearchReplaceResponse {
    json_table::replace::SearchReplaceResponse {
        search_criteria: criteria.to_string(),
        replace_value: replacement.map(|s| s.to_string()),
        selected_column: Some(vec![column("/name", 1, FlatType::String, 1)]),
        replace_mode: mode,
    }
}

#[test]
fn edit_cell_hands_back_the_changed_value() {
    let mut t = editable_table();
    assert!(t.can_edit());
    assert!(t.edit_cell(named("/data/1/name", "beta", 1), 1).is_none());
    let edited = t.edit_cell(named("/data/1/name", "gamma", 1), 1).unwrap();
    assert_eq!(edited.pointer.pointer, "/data/1/name");
    assert_eq!(edited.value, Some("gamma".to_string()));
    assert_eq!(t.nodes()[1].entries[0].value, Some("gamma".to_string()));
    assert!(t.nodes()[1].entries.last().unwrap().value.as_ref().unwrap().contains("gamma"));
}

#[test]
fn edit_cell_in_a_nested_table_hands_back_the_array() {
    let entry = |p: &str, v: &str| FlatValue {
        pointer: FlatPointer { pointer: p.to_string(), value_type: FlatType::String, depth: 3, position: 0, column_id: 1 },
        value: Some(v.to_string()),
    };
    let rows = vec![
        ArrayEntries { entries: vec![entry("/data/0/name", "alpha"), value("/data/0", FlatType::Object(true, 1), 2, None)], index: 0 },
        ArrayEntries { entries: vec![entry("/data/1/name", "beta"), value("/data/1", FlatType::Object(true, 1), 2, None)], index: 1 },
    ];
    let columns = vec![column("/name", 3, FlatType::String, 1)];
    let mut t = ArrayTable::new(None, rows, columns, 10, pointer("/data", FlatType::Array(2), 1));
    t.set_sub_table(true);
    assert!(t.can_edit());
    let edited = t.edit_cell(entry("/data/0/name", "omega"), 0).unwrap();
    assert_eq!(edited.pointer.pointer, "/data");
    assert_eq!(edited.pointer.value_type, FlatType::Array(2));
    let text = edited.value.unwrap();
    assert!(text.contains("omega"));
    assert!(text.contains("beta"));
    assert!(!text.contains("alpha"));
}

#[test]
fn replace_columns_writes_each_match_and_drops_the_filters() {
    let mut t = editable_table();
    t.on_filter_column_value("/name".to_string(), "beta".to_string());
    assert_eq!(t.filtered_nodes(), &vec![1]);
    let edited = t.replace_columns(request("ALPH", Some("x"), ReplaceMode::Simple));
    assert_eq!(edited.len(), 1);
    assert_eq!(edited[0].pointer.pointer, "/data/0/name");
    assert_eq!(edited[0].value, Some("xa".to_string()));
    assert_eq!(t.nodes()[0].entries[0].value, Some("xa".to_string()));
    assert_eq!(t.nodes()[1].entries[0].value, Some("beta".to_string()));
    assert!(t.columns_filter().is_empty());
    assert_eq!(t.filtered_nodes(), &vec![0, 1]);
}

#[test]
fn replace_with_nothing_sets_matches_to_null() {
    let mut t = editable_table();
    let edited = t.replace_columns(request("beta", None, ReplaceMode::MatchingCase));
    assert_eq!(edited.len(), 1);
    assert_eq!(edited[0].value, None);
    assert_eq!(t.nodes()[1].entries[0].value, None);
}

#[test]
fn replace_with_a_broken_pattern_changes_nothing() {
    let mut t = editable_table();
    assert!(t.try_replace_columns(request("(", Some("x"), ReplaceMode::Regex)).is_none());
    assert_eq!(t.nodes()[0].entries[0].value, Some("alpha".to_string()));
    let edited = t.try_replace_columns(request("^b.*", Some("B"), ReplaceMode::Regex)).unwrap();
    assert_eq!(edited.len(), 1);
    assert_eq!(t.nodes()[1].entries[0].value, Some("B".to_string()));
}

#[test]
fn cells_are_pasted_deleted_and_copied() {
    let mut t = editable_table();
    let cell = CellLocation { row_index: 1, column_index: 0, is_pinned_column_table: false };
    assert_eq!(t.copy_cell(cell), Some("beta".to_string()));
    let edited = t.paste_cell(cell, "delta".to_string()).unwrap();
    assert_eq!(edited.pointer.pointer, "/data/1/name");
    assert_eq!(t.copy_cell(cell), Some("delta".to_string()));
    t.delete_cell(cell);
    assert_eq!(t.copy_cell(cell), None);
    let row_number = CellLocation { row_index: 0, column_index: 0, is_pinned_column_table: true };
    assert_eq!(t.copy_cell(row_number), None);
}

#[test]
fn update_value_writes_a_value_in_a_row() {
    let mut t = editable_table();
    assert!(!t.update_value(named("/data/0/name", "alpha", 1), 0));
    assert!(t.update_value(named("/data/0/name", "zeta", 1), 0));
    assert_eq!(t.nodes()[0].entries[0].value, Some("zeta".to_string()));
}

#[test]
fn object_table_second_identical_write_changes_nothing() {
    let mut t = ObjectTable::new(object_nodes());
    let (unchanged, _) = t.update_value(pointer("/id", FlatType::Number, 1), "7".to_string(), 0);
    assert!(!unchanged);
    let (unchanged, edited) = t.update_value(pointer("/id", FlatType::Number, 1), "7".to_string(), 0);
    assert!(unchanged);
    assert!(edited.is_none());
}

// ---------------------------------------------------------------------------
// Nested windows
// ---------------------------------------------------------------------------

fn flat_type_of(t: json_flat_parser::ValueType) -> FlatType {
    match t {
        json_flat_parser::ValueType::Array(n) => FlatType::Array(n),
        json_flat_parser::ValueType::Object(parsed, n) => FlatType::Object(parsed, n),
        json_flat_parser::ValueType::Number => FlatType::Number,
        json_flat_parser::ValueType::String => FlatType::String,
        json_flat_parser::ValueType::Bool => FlatType::Bool,
        json_flat_parser::ValueType::Null => FlatType::Null,
        json_flat_parser::ValueType::None => FlatType::Unset,
    }
}

fn nested_parse(content: &str, name: &str, depth: u8, array: bool) -> json_table::rows::FlatParse {
    let options = json_flat_parser::ParseOptions::default()
        .parse_array(!array)
        .keep_object_raw_data(array)
        .start_parse_at(name.to_string())
        .prefix(name.to_string())
        .start_depth(depth + 1)
        .max_depth(10);
    let mut lexer = json_flat_parser::lexer::Lexer::new(content.as_bytes());
    let mut parser = json_flat_parser::parser::Parser::new(&mut lexer);
    parser.state_seen_start_parse_at = !array;
    let r = parser.parse(&options, options.start_depth).unwrap().to_owned();
    json_table::rows::FlatParse {
        json: r
            .json
            .into_iter()
            .map(|e| FlatValue {
                pointer: FlatPointer {
                    pointer: e.pointer.pointer,
                    value_type: flat_type_of(e.pointer.value_type),
                    depth: e.pointer.depth,
                    position: e.pointer.position,
                    column_id: e.pointer.column_id,
                },
                value: e.value,
            })
            .collect(),
        max_json_depth: r.max_json_depth,
        parsing_max_depth: r.parsing_max_depth,
        started_parsing_at: r.started_parsing_at,
        started_parsing_at_index_start: r.started_parsing_at_index_start,
        started_parsing_at_index_end: r.started_parsing_at_index_end,
        parsing_prefix: r.parsing_prefix,
        depth_after_start_at: r.depth_after_start_at,
    }
}

#[test]
fn nested_array_window_shows_its_elements() {
    let parsed = nested_parse("[{\"a\": 1}, {\"a\": 2}, {\"a\": 3}]", "/items", 1, true);
    let mut window = json_table::subtable_window::SubTable::from_parse(
        pointer("/items", FlatType::Array(3), 1),
        parsed,
        FlatType::Array(3),
        2,
    )
    .unwrap();
    assert_eq!(window.name(), "/items");
    assert_eq!(window.id(), 2);
    assert!(window.object_table().is_none());
    let table = window.array_table().unwrap();
    assert_eq!(table.nodes().len(), 3);
    assert_eq!(names(table.columns(false)), vec!["/a"]);
    assert_eq!(table.parent_pointer().pointer, "/items");
    window.update_nodes(pointer("/items/2/a", FlatType::Number, 3), Some("9".to_string()));
    let row = &window.array_table().unwrap().nodes()[2];
    assert!(row.entries.iter().any(|e| e.pointer.pointer == "/items/2/a" && e.value == Some("9".to_string())));
}

#[test]
fn nested_object_window_shows_its_values() {
    let parsed = nested_parse("{\"x\": 1, \"l\": [true]}", "/obj", 1, false);
    let mut window = json_table::subtable_window::SubTable::from_parse(
        pointer("/obj", FlatType::Object(true, 2), 1),
        parsed,
        FlatType::Object(true, 2),
        0,
    )
    .unwrap();
    assert!(window.array_table().is_none());
    let table = window.object_table().unwrap();
    assert!(table.nodes().iter().any(|e| e.pointer.pointer == "/obj/x"));
    window.update_nodes(pointer("/obj/x", FlatType::Number, 2), Some("5".to_string()));
    let table = window.object_table().unwrap();
    assert!(table.nodes().iter().any(|e| e.pointer.pointer == "/obj/x" && e.value == Some("5".to_string())));
    window.update_nodes(pointer("/obj/new", FlatType::String, 2), Some("n".to_string()));
    assert_eq!(window.object_table().unwrap().nodes().last().unwrap().pointer.pointer, "/obj/new");
}

// ---------------------------------------------------------------------------
// Filter options
// ---------------------------------------------------------------------------

fn scored_rows() -> Vec<ArrayEntries> {
    let row = |i: usize, name: &str, score: &str| ArrayEntries {
        entries: vec![
            FlatValue {
                pointer: FlatPointer { pointer: format!("/data/{}/name", i), value_type: FlatType::String, depth: 2, position: 0, column_id: 1 },
                value: Some(name.to_string()),
            },
            FlatValue {
                pointer: FlatPointer { pointer: format!("/data/{}/score", i), value_type: FlatType::Number, depth: 2, position: 0, column_id: 2 },
                value: Some(score.to_string()),
            },
            value(&format!("/data/{}", i), FlatType::Object(true, 2), 1, None),
        ],
        index: i,
    };
    vec![row(0, "pear", "10"), row(1, "apple", "9"), row(2, "pear", "10"), row(3, "Zoo", "2.5")]
}

#[test]
fn filter_options_of_a_text_column_are_sorted() {
    let values = json_table::filter_options::filter_options(&column("/name", 2, FlatType::String, 1), "/data", &scored_rows());
    assert_eq!(values, vec!["Zoo".to_string(), "apple".to_string(), "pear".to_string()]);
}

#[test]
fn filter_options_of_a_number_column_keep_their_first_order() {
    let values = json_table::filter_options::filter_options(&column("/score", 2, FlatType::Number, 2), "/data", &scored_rows());
    assert_eq!(values, vec!["10".to_string(), "9".to_string(), "2.5".to_string()]);
}

#[test]
fn objects_offer_no_filter_options() {
    let values = json_table::filter_options::filter_options(&column("", 1, FlatType::Object(true, 2), 0), "/data", &scored_rows());
    assert!(values.is_empty());
}
