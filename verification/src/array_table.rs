//! The state of an array table outside of drawing it: its columns (all of
//! them, those shown at the chosen depth, and those pinned to the left),
//! its rows and the rows the filters keep, the filters, the open windows,
//! the find-and-replace window and the search position.  Each action of the
//! user is a method from the state to the next state; re-parsing the rows
//! deeper is done by the caller, which hands the result back.
use vstd::prelude::*;
use crate::table::lemma_filter_push;
use crate::flat_json::{
    array_marker, flat_parse, flat_parse_safe, raw_json_valid, raw_texts_valid, row_compact_text, row_json_text, row_pretty_text, serializer_safe,
    serializer_safe_check,
};
use vstd::utf8::encode_utf8;
use crate::object_table::{clone_value, entry_set, set_entry_value, value_view};
use crate::panels::{PanelView, SearchReplacePanel, clone_columns};
use crate::replace::{
    ReplaceMode, SearchReplaceResponse, pattern_fails, pattern_works, replace_occurrences, replacement_views, replacements,
    row_replacements, selected_ids,
};
use crate::depth::{DeepenedRow, can_deepen, can_deepen_check, change_depth_array, change_depth_spec, deepen_rows, deepened_as, rows_deepen_check, rows_deepen_safe};
use crate::rows::{
    ArrayEntries, Column, ColumnView, FlatParse, opt_text, FlatPointer, FlatType, FlatValue, FlatValueView, RowView, cv, cvs, filtered_rows, first_at,
    fv, fvs, matching_rows, rv, rvs, search_occurrences, sort_columns, sorted_columns, text_of, texts,
};
use crate::table::{
    CellLocation, ScrollToRowMode, cell_pointer, clone_column, contains_name, deleted_cell_entry, distinct_keys, do_filter_column,
    filters_view, get_pointer_index, has_name, lemma_view_at, pasted_cell_entry, refreshed, reserialized, rewritten, row_written,
    selected_columns, set_open, toggled, update_row, visible_columns,
};
use crate::text::{concat2, contains_text, lowercase_text, parse_usize, parsed_usize, str_contains, str_eq, to_lowercase};
use crate::time::{InstantWrapper, Span};

verus! {

/// The name of the find-and-replace window.
pub open spec fn replace_panel_name() -> Seq<char> {
    "Replace"@
}

/// The table's state, as plain values.
pub struct ArrayTableView {
    pub all_columns: Seq<ColumnView>,
    pub column_selected: Seq<ColumnView>,
    pub column_pinned: Seq<ColumnView>,
    pub max_depth: u8,
    pub last_parsed_max_depth: u8,
    pub nodes: Seq<ArrayEntries>,
    pub filtered_nodes: Seq<usize>,
    pub columns_filter: Seq<(String, Vec<String>)>,
    pub parent_pointer: Seq<char>,
    pub parent_depth: u8,
    pub is_sub_table: bool,
    pub opened_windows: Set<Seq<char>>,
    pub panel: PanelView,
    pub scroll_to_row: Seq<char>,
    pub matching_rows: Seq<usize>,
    pub matching_row_selected: usize,
    /// When the row to scroll to last changed, in nanoseconds.
    pub changed_scroll_to_row_value: Option<int>,
    pub scroll_to_row_mode: ScrollToRowMode,
    pub scroll_to_column: Seq<char>,
    pub matching_columns: Seq<usize>,
    pub matching_column_selected: usize,
    pub changed_scroll_to_column_value: bool,
    pub changed_matching_column_selected: bool,
    pub changed_matching_row_selected: bool,
    pub next_frame_reset_scroll: bool,
}

/// An array shown as a table: one row per element, one column per pointer
/// below an element.
pub struct ArrayTable {
    all_columns: Vec<Column>,
    column_selected: Vec<Column>,
    column_pinned: Vec<Column>,
    max_depth: u8,
    last_parsed_max_depth: u8,
    nodes: Vec<ArrayEntries>,
    filtered_nodes: Vec<usize>,
    columns_filter: Vec<(String, Vec<String>)>,
    parent_pointer: FlatPointer,
    is_sub_table: bool,
    opened_windows: Vec<String>,
    search_replace_panel: SearchReplacePanel,
    scroll_to_row: String,
    matching_rows: Vec<usize>,
    matching_row_selected: usize,
    changed_scroll_to_row_value: Option<InstantWrapper>,
    scroll_to_row_mode: ScrollToRowMode,
    scroll_to_column: String,
    matching_columns: Vec<usize>,
    matching_column_selected: usize,
    changed_scroll_to_column_value: bool,
    changed_matching_column_selected: bool,
    changed_matching_row_selected: bool,
    next_frame_reset_scroll: bool,
}

impl View for ArrayTable {
    type V = ArrayTableView;

    closed spec fn view(&self) -> ArrayTableView {
        ArrayTableView {
            all_columns: cvs(self.all_columns@),
            column_selected: cvs(self.column_selected@),
            column_pinned: cvs(self.column_pinned@),
            max_depth: self.max_depth,
            last_parsed_max_depth: self.last_parsed_max_depth,
            nodes: self.nodes@,
            filtered_nodes: self.filtered_nodes@,
            columns_filter: self.columns_filter@,
            parent_pointer: self.parent_pointer.pointer@,
            parent_depth: self.parent_pointer.depth,
            is_sub_table: self.is_sub_table,
            opened_windows: texts(self.opened_windows@).to_set(),
            panel: self.search_replace_panel@,
            scroll_to_row: self.scroll_to_row@,
            matching_rows: self.matching_rows@,
            matching_row_selected: self.matching_row_selected,
            changed_scroll_to_row_value: match self.changed_scroll_to_row_value {
                Some(i) => Some(i.0.total()),
                None => None,
            },
            scroll_to_row_mode: self.scroll_to_row_mode,
            scroll_to_column: self.scroll_to_column@,
            matching_columns: self.matching_columns@,
            matching_column_selected: self.matching_column_selected,
            changed_scroll_to_column_value: self.changed_scroll_to_column_value,
            changed_matching_column_selected: self.changed_matching_column_selected,
            changed_matching_row_selected: self.changed_matching_row_selected,
            next_frame_reset_scroll: self.next_frame_reset_scroll,
        }
    }
}

impl ArrayTable {
    /// No column has two filters, and no window is listed twice as open.
    #[verifier::type_invariant]
    closed spec fn wf(self) -> bool {
        &&& distinct_keys(filters_view(self.columns_filter@))
        &&& texts(self.opened_windows@).no_duplicates()
        &&& (self.matching_row_selected < self.matching_rows@.len() || self.matching_row_selected == 0)
        &&& (self.matching_column_selected < self.matching_columns@.len() || self.matching_column_selected == 0)
    }

    /// The columns of a table are equal when their names are.
    pub open spec fn unpinned(cols: Seq<ColumnView>, pinned: Seq<ColumnView>) -> Seq<ColumnView> {
        cols.filter(|c: ColumnView| !has_name(pinned, c.name))
    }

    /// The column shown when no column is left to show at a depth.
    pub open spec fn placeholder(depth: u8) -> ColumnView {
        ColumnView { name: seq![], depth, value_type: FlatType::Unset, seen_count: 0, order: 0, id: 0 }
    }

    /// The columns shown at `depth` that are not pinned, or a placeholder
    /// column when there are none.
    pub open spec fn selection_at(all: Seq<ColumnView>, pinned: Seq<ColumnView>, depth: u8) -> Seq<ColumnView> {
        let s = Self::unpinned(visible_columns(all, depth), pinned);
        if s.len() == 0 {
            seq![Self::placeholder(depth)]
        } else {
            s
        }
    }

    /// The column of row numbers, pinned to the left of every table.
    pub open spec fn row_number_column() -> ColumnView {
        ColumnView { name: "/#"@, depth: 0, value_type: FlatType::Number, seen_count: 0, order: 0, id: 0 }
    }
}

/// The numbers `0..n`, in order.
fn all_rows(n: usize) -> (r: Vec<usize>)
    ensures
        r@ == Seq::new(n as nat, |i: int| i as usize),
{
    let mut r: Vec<usize> = Vec::new();
    let mut i: usize = 0;
    while i < n
        invariant
            i <= n,
            r@ == Seq::new(i as nat, |j: int| j as usize),
        decreases n - i,
    {
        r.push(i);
        i += 1;
        proof {
            assert(r@ =~= Seq::new(i as nat, |j: int| j as usize));
        }
    }
    r
}

impl ArrayTable {
    /// A new table's state (see `new`).
    pub open spec fn initial(
        parsing_max_depth: Option<u8>,
        nodes: Seq<ArrayEntries>,
        all_columns: Seq<ColumnView>,
        depth: u8,
        parent_pointer: Seq<char>,
        parent_depth: u8,
    ) -> ArrayTableView {
        ArrayTableView {
            all_columns,
            column_selected: visible_columns(all_columns, depth),
            column_pinned: seq![Self::row_number_column()],
            max_depth: depth,
            last_parsed_max_depth: match parsing_max_depth {
                Some(d) => d,
                None => depth,
            },
            nodes,
            filtered_nodes: Seq::new(nodes.len(), |i: int| i as usize),
            columns_filter: seq![],
            parent_pointer,
            parent_depth,
            is_sub_table: false,
            opened_windows: Set::empty(),
            panel: PanelView {
                search_criteria: seq![],
                replace_value: seq![],
                selected: seq![],
                columns: seq![],
                mode: crate::replace::ReplaceMode::Simple,
                title: None,
            },
            scroll_to_row: seq![],
            matching_rows: seq![],
            matching_row_selected: 0,
            changed_scroll_to_row_value: None,
            scroll_to_row_mode: ScrollToRowMode::RowNumber,
            scroll_to_column: seq![],
            matching_columns: seq![],
            matching_column_selected: 0,
            changed_scroll_to_column_value: false,
            changed_matching_column_selected: false,
            changed_matching_row_selected: false,
            next_frame_reset_scroll: false,
        }
    }

    /// A table of `nodes` with the columns `all_columns`, showing the columns
    /// of `depth`; the rows were parsed down to `parsing_max_depth` (to
    /// `depth` when not given).  The row-number column is pinned, and no
    /// filter, window or search is active.
    pub fn new(
        parsing_max_depth: Option<u8>,
        nodes: Vec<ArrayEntries>,
        all_columns: Vec<Column>,
        depth: u8,
        parent_pointer: FlatPointer,
    ) -> (r: Self)
        ensures
            r@ == Self::initial(parsing_max_depth, nodes@, cvs(all_columns@), depth, parent_pointer.pointer@, parent_pointer.depth),
    {
        let last_parsed_max_depth = match parsing_max_depth {
            Some(d) => d,
            None => depth,
        };
        let column_selected = selected_columns(&all_columns, depth);
        let filtered_nodes = all_rows(nodes.len());
        let pinned = vec![Column::new("/#".to_owned(), FlatType::Number)];
        let r = ArrayTable {
            all_columns,
            column_selected,
            column_pinned: pinned,
            max_depth: depth,
            last_parsed_max_depth,
            nodes,
            filtered_nodes,
            columns_filter: Vec::new(),
            parent_pointer,
            is_sub_table: false,
            opened_windows: Vec::new(),
            search_replace_panel: SearchReplacePanel::default(),
            scroll_to_row: String::new(),
            matching_rows: Vec::new(),
            matching_row_selected: 0,
            changed_scroll_to_row_value: None,
            scroll_to_row_mode: ScrollToRowMode::RowNumber,
            scroll_to_column: String::new(),
            matching_columns: Vec::new(),
            matching_column_selected: 0,
            changed_scroll_to_column_value: false,
            changed_matching_column_selected: false,
            changed_matching_row_selected: false,
            next_frame_reset_scroll: false,
        };
        proof {
            assert(cvs(r.column_pinned@) =~= seq![Self::row_number_column()]);
            assert(texts(r.opened_windows@) =~= seq![]);
            assert(texts(r.opened_windows@).to_set() =~= Set::empty());
        }
        r
    }

    /// Marks the table as the table of a window opened on a nested array.
    pub fn set_sub_table(&mut self, is_sub_table: bool)
        ensures
            final(self)@ == (ArrayTableView { is_sub_table, ..old(self)@ }),
    {
        proof {
            use_type_invariant(&*self);
        }
        self.is_sub_table = is_sub_table;
    }

    /// Every column of the table.
    pub fn all_columns(&self) -> (r: &Vec<Column>)
        ensures
            cvs(r@) == self@.all_columns,
    {
        &self.all_columns
    }

    /// The columns of the pinned table, or of the scrolling one.
    pub fn columns(&self, pinned_column_table: bool) -> (r: &Vec<Column>)
        ensures
            cvs(r@) == if pinned_column_table {
                self@.column_pinned
            } else {
                self@.column_selected
            },
    {
        if pinned_column_table {
            &self.column_pinned
        } else {
            &self.column_selected
        }
    }

    /// The rows of the table.
    pub fn nodes(&self) -> (r: &Vec<ArrayEntries>)
        ensures
            r@ == self@.nodes,
    {
        &self.nodes
    }

    /// The positions, in `nodes`, of the rows the filters keep.
    pub fn filtered_nodes(&self) -> (r: &Vec<usize>)
        ensures
            r@ == self@.filtered_nodes,
    {
        &self.filtered_nodes
    }

    /// The find-and-replace window.
    pub fn search_replace_panel(&self) -> (r: &SearchReplacePanel)
        ensures
            r@ == self@.panel,
    {
        &self.search_replace_panel
    }

    /// The find-and-replace window, after the user acted on it.
    pub fn set_search_replace_panel(&mut self, panel: SearchReplacePanel)
        ensures
            final(self)@ == (ArrayTableView { panel: panel@, ..old(self)@ }),
    {
        proof {
            use_type_invariant(&*self);
        }
        self.search_replace_panel = panel;
    }
}

/// The columns of `cols` whose name no pinned column has, in order.
fn unpinned_columns(cols: Vec<Column>, pinned: &Vec<Column>) -> (r: Vec<Column>)
    ensures
        cvs(r@) == ArrayTable::unpinned(cvs(cols@), cvs(pinned@)),
{
    let ghost all = cvs(cols@);
    let ghost pin = cvs(pinned@);
    let mut r: Vec<Column> = Vec::new();
    let mut k: usize = 0;
    proof {
        assert(all.take(0).filter(|c: ColumnView| !has_name(pin, c.name)) =~= seq![]);
        assert(cvs(r@) =~= seq![]);
    }
    while k < cols.len()
        invariant
            k <= cols@.len(),
            all == cvs(cols@),
            pin == cvs(pinned@),
            cvs(r@) == all.take(k as int).filter(|c: ColumnView| !has_name(pin, c.name)),
        decreases cols@.len() - k,
    {
        proof {
            assert(all.take(k + 1) =~= all.take(k as int).push(all[k as int]));
            lemma_filter_push(all.take(k as int), |c: ColumnView| !has_name(pin, c.name), all[k as int]);
        }
        if !contains_name(pinned, cols[k].name.as_str()) {
            let ghost before = r@;
            r.push(clone_column(&cols[k]));
            proof {
                assert(cvs(r@) =~= cvs(before).push(cv(r@.last())));
            }
        }
        k += 1;
    }
    proof {
        assert(all.take(cols@.len() as int) =~= all);
    }
    r
}


proof fn lemma_cvs_remove(s: Seq<Column>, i: int)
    requires
        0 <= i < s.len(),
    ensures
        cvs(s.remove(i)) == cvs(s).remove(i),
{
    assert(cvs(s.remove(i)) =~= cvs(s).remove(i));
}

impl ArrayTable {
    /// The find-and-replace window after it is opened: on `selected` alone
    /// when given, titled after the array for a nested table, listing
    /// `columns`.
    pub open spec fn opened_panel(
        p: PanelView,
        selected: Option<ColumnView>,
        is_sub_table: bool,
        parent_pointer: Seq<char>,
        columns: Seq<ColumnView>,
    ) -> PanelView {
        PanelView {
            selected: match selected {
                Some(c) => seq![c],
                None => p.selected,
            },
            title: if is_sub_table {
                Some("Replace in "@ + parent_pointer)
            } else {
                p.title
            },
            columns,
            ..p
        }
    }

    /// The window `name` is open.
    pub fn is_open(&self, name: &str) -> (r: bool)
        ensures
            r == self@.opened_windows.contains(name@),
    {
        let ghost s = texts(self.opened_windows@);
        let mut k: usize = 0;
        while k < self.opened_windows.len()
            invariant
                k <= self.opened_windows@.len(),
                s == texts(self.opened_windows@),
                forall|m: int| 0 <= m < k ==> s[m] != name@,
            decreases self.opened_windows@.len() - k,
        {
            if crate::text::str_eq(self.opened_windows[k].as_str(), name) {
                proof {
                    assert(s[k as int] == name@);
                    assert(s.contains(name@));
                }
                return true;
            }
            k += 1;
        }
        proof {
            if s.contains(name@) {
                let j = choose|j: int| 0 <= j < s.len() && s[j] == name@;
                assert(s[j] == name@);
            }
        }
        false
    }

    /// Marks the window `name` open or closed.
    pub fn set_open(&mut self, name: &str, is_open: bool)
        ensures
            final(self)@ == (ArrayTableView {
                opened_windows: if is_open {
                    old(self)@.opened_windows.insert(name@)
                } else {
                    old(self)@.opened_windows.remove(name@)
                },
                ..old(self)@
            }),
    {
        proof {
            use_type_invariant(&*self);
        }
        let mut open: Vec<String> = Vec::new();
        std::mem::swap(&mut open, &mut self.opened_windows);
        set_open(&mut open, name, is_open);
        self.opened_windows = open;
    }

    /// Opens the find-and-replace window on the table's columns, with
    /// `selected_column` alone selected when given.  In a nested table the
    /// title names the array.
    pub fn open_replace_panel(&mut self, selected_column: Option<Column>)
        ensures
            final(self)@ == (ArrayTableView {
                opened_windows: old(self)@.opened_windows.insert(replace_panel_name()),
                panel: Self::opened_panel(
                    old(self)@.panel,
                    match selected_column {
                        Some(c) => Some(cv(c)),
                        None => None,
                    },
                    old(self)@.is_sub_table,
                    old(self)@.parent_pointer,
                    old(self)@.all_columns,
                ),
                ..old(self)@
            }),
    {
        proof {
            use_type_invariant(&*self);
        }
        let mut open: Vec<String> = Vec::new();
        std::mem::swap(&mut open, &mut self.opened_windows);
        set_open(&mut open, "Replace", true);
        self.opened_windows = open;
        let mut panel = SearchReplacePanel::default();
        std::mem::swap(&mut panel, &mut self.search_replace_panel);
        if let Some(c) = selected_column {
            panel.set_select_column(c);
        }
        if self.is_sub_table {
            panel.set_title(concat2("Replace in ", self.parent_pointer.pointer.as_str()));
        }
        panel.set_columns(clone_columns(&self.all_columns));
        self.search_replace_panel = panel;
    }

    /// Shows the columns of `depth` that are not pinned, or a placeholder
    /// column when none is left.  When the rows were not parsed that deep,
    /// nothing changes and the answer is `true`: the rows are then parsed
    /// down to `depth` with `parse_deeper`.
    pub fn update_selected_columns(&mut self, depth: u8) -> (needs_deeper_parse: bool)
        ensures
            needs_deeper_parse == (depth > old(self)@.last_parsed_max_depth),
            needs_deeper_parse ==> final(self)@ == old(self)@,
            !needs_deeper_parse ==> final(self)@ == (ArrayTableView {
                column_selected: Self::selection_at(old(self)@.all_columns, old(self)@.column_pinned, depth),
                ..old(self)@
            }),
    {
        proof {
            use_type_invariant(&*self);
        }
        if depth <= self.last_parsed_max_depth {
            let shown = selected_columns(&self.all_columns, depth);
            let mut selected = unpinned_columns(shown, &self.column_pinned);
            if selected.len() == 0 {
                selected.push(Column {
                    name: String::new(),
                    depth,
                    value_type: FlatType::Unset,
                    seen_count: 0,
                    order: 0,
                    id: 0,
                });
                proof {
                    assert(cvs(selected@) =~= seq![Self::placeholder(depth)]);
                }
            }
            self.column_selected = selected;
            false
        } else {
            true
        }
    }

    /// The table after its rows were parsed again down to `depth`: the new
    /// rows and columns, the columns of `depth` that are not pinned shown,
    /// and the find-and-replace window, when open, listing the new columns.
    pub fn apply_deeper_parse(&mut self, nodes: Vec<ArrayEntries>, all_columns: Vec<Column>, depth: u8)
        ensures
            final(self)@ == (ArrayTableView {
                all_columns: cvs(all_columns@),
                column_selected: Self::unpinned(visible_columns(cvs(all_columns@), depth), old(self)@.column_pinned),
                nodes: nodes@,
                last_parsed_max_depth: depth,
                panel: if old(self)@.opened_windows.contains(replace_panel_name()) {
                    Self::opened_panel(
                        old(self)@.panel,
                        None,
                        old(self)@.is_sub_table,
                        old(self)@.parent_pointer,
                        cvs(all_columns@),
                    )
                } else {
                    old(self)@.panel
                },
                ..old(self)@
            }),
    {
        proof {
            use_type_invariant(&*self);
        }
        let shown = selected_columns(&all_columns, depth);
        self.column_selected = unpinned_columns(shown, &self.column_pinned);
        self.all_columns = all_columns;
        self.nodes = nodes;
        self.last_parsed_max_depth = depth;
        if self.is_open("Replace") {
            let ghost before = self@.opened_windows;
            self.open_replace_panel(None);
            proof {
                assert(before.insert(replace_panel_name()) =~= before);
            }
        }
    }

    /// The table after its rows were parsed down to `depth`, from the
    /// deepened rows `d` (see `change_depth_spec`), under the parse `meta`.
    pub open spec fn deeper_table(t: ArrayTableView, final_t: ArrayTableView, meta: FlatParse, d: Seq<DeepenedRow>, depth: u8) -> bool {
        let (rows, cols) = change_depth_spec(opt_text(meta.started_parsing_at), opt_text(meta.parsing_prefix), d);
        &&& rvs(final_t.nodes) == rows
        &&& final_t == (ArrayTableView {
            all_columns: cols,
            column_selected: Self::unpinned(visible_columns(cols, depth), t.column_pinned),
            nodes: final_t.nodes,
            last_parsed_max_depth: depth,
            panel: if t.opened_windows.contains(replace_panel_name()) {
                Self::opened_panel(t.panel, None, t.is_sub_table, t.parent_pointer, cols)
            } else {
                t.panel
            },
            ..t
        })
    }

    /// The rows were not parsed down to `depth`: parses every row deeper
    /// (see `deepen_rows`), gathers the rows and columns again (see
    /// `change_depth_array`) and shows them (see `apply_deeper_parse`).
    /// The answer tells whether that was done; it is not done, and nothing
    /// changes, where the crate's parser would not return on some row, or
    /// the deepened rows cannot be gathered.
    pub fn parse_deeper(&mut self, meta: &FlatParse, depth: u8) -> (parsed: bool)
        ensures
            parsed ==> exists|d: Seq<DeepenedRow>|
                deepened_as(d, rvs(old(self)@.nodes), *meta, depth) && can_deepen(
                    opt_text(meta.started_parsing_at),
                    opt_text(meta.parsing_prefix),
                    d,
                ) && #[trigger] Self::deeper_table(old(self)@, final(self)@, *meta, d, depth),
            !parsed ==> final(self)@ == old(self)@ && (!rows_deepen_safe(rvs(old(self)@.nodes), *meta, depth) || exists|
                d: Seq<DeepenedRow>,
            |
                #[trigger] deepened_as(d, rvs(old(self)@.nodes), *meta, depth) && !can_deepen(
                    opt_text(meta.started_parsing_at),
                    opt_text(meta.parsing_prefix),
                    d,
                )),
    {
        if !rows_deepen_check(&self.nodes, meta, depth) {
            return false;
        }
        let copy = copy_rows(&self.nodes);
        let deepened = match deepen_rows(copy, meta, depth) {
            Some(d) => d,
            None => {
                return false;
            },
        };
        if !can_deepen_check(&meta.started_parsing_at, &meta.parsing_prefix, &deepened) {
            return false;
        }
        let ghost d = deepened@;
        let (rows, columns, _) = change_depth_array(&meta.started_parsing_at, &meta.parsing_prefix, deepened);
        self.apply_deeper_parse(rows, columns, depth);
        proof {
            assert(Self::deeper_table(old(self)@, self@, *meta, d, depth));
        }
        true
    }

    /// Shows the columns of `depth`, as `update_selected_columns` does,
    /// and remembers `depth` as the one chosen.
    pub fn update_max_depth(&mut self, depth: u8) -> (needs_deeper_parse: bool)
        ensures
            needs_deeper_parse == (depth > old(self)@.last_parsed_max_depth),
            needs_deeper_parse ==> final(self)@ == (ArrayTableView { max_depth: depth, ..old(self)@ }),
            !needs_deeper_parse ==> final(self)@ == (ArrayTableView {
                max_depth: depth,
                column_selected: Self::selection_at(old(self)@.all_columns, old(self)@.column_pinned, depth),
                ..old(self)@
            }),
    {
        proof {
            use_type_invariant(&*self);
        }
        self.max_depth = depth;
        self.update_selected_columns(depth)
    }

    /// A click on the pin of column `index`: in the pinned table it goes
    /// back to the scrolling one, which is sorted again (see
    /// `sort_columns`); in the scrolling table it moves to the end of the
    /// pinned one.
    pub fn pin_column(&mut self, pinned_column_table: bool, index: usize)
        requires
            index < if pinned_column_table {
                old(self)@.column_pinned.len()
            } else {
                old(self)@.column_selected.len()
            },
        ensures
            pinned_column_table ==> final(self)@ == (ArrayTableView {
                column_pinned: old(self)@.column_pinned.remove(index as int),
                column_selected: sorted_columns(old(self)@.column_selected.push(old(self)@.column_pinned[index as int])),
                ..old(self)@
            }),
            !pinned_column_table ==> final(self)@ == (ArrayTableView {
                column_selected: old(self)@.column_selected.remove(index as int),
                column_pinned: old(self)@.column_pinned.push(old(self)@.column_selected[index as int]),
                ..old(self)@
            }),
    {
        proof {
            use_type_invariant(&*self);
        }
        let mut pinned: Vec<Column> = Vec::new();
        let mut selected: Vec<Column> = Vec::new();
        std::mem::swap(&mut pinned, &mut self.column_pinned);
        std::mem::swap(&mut selected, &mut self.column_selected);
        let ghost p0 = pinned@;
        let ghost s0 = selected@;
        if pinned_column_table {
            let column = pinned.remove(index);
            selected.push(column);
            proof {
                lemma_cvs_remove(p0, index as int);
                assert(cvs(selected@) =~= cvs(s0).push(cvs(p0)[index as int]));
            }
            self.column_selected = sort_columns(selected);
            self.column_pinned = pinned;
        } else {
            let column = selected.remove(index);
            pinned.push(column);
            proof {
                lemma_cvs_remove(s0, index as int);
                assert(cvs(pinned@) =~= cvs(p0).push(cvs(s0)[index as int]));
            }
            self.column_selected = selected;
            self.column_pinned = pinned;
        }
    }

    /// Toggles `value` in the filter of `column` (see `toggled`), then keeps
    /// the rows that pass the filters (see `do_filter_column`).
    pub fn on_filter_column_value(&mut self, column: String, value: String)
        ensures
            filters_view(final(self)@.columns_filter) == toggled(filters_view(old(self)@.columns_filter), column@, value@),
            final(self)@.filtered_nodes == if final(self)@.columns_filter.len() == 0 {
                Seq::new(old(self)@.nodes.len(), |i: int| i as usize)
            } else {
                filtered_rows(old(self)@.nodes, old(self)@.parent_pointer, final(self)@.columns_filter)
            },
            final(self)@ == (ArrayTableView {
                columns_filter: final(self)@.columns_filter,
                filtered_nodes: final(self)@.filtered_nodes,
                next_frame_reset_scroll: true,
                ..old(self)@
            }),
    {
        proof {
            use_type_invariant(&*self);
        }
        let mut filters: Vec<(String, Vec<String>)> = Vec::new();
        std::mem::swap(&mut filters, &mut self.columns_filter);
        crate::table::on_filter_column_value(&mut filters, column, value);
        self.columns_filter = filters;
        self.do_filter_column();
    }

    /// Keeps the rows that pass the filters (every row when there is no
    /// filter), and scrolls back to the first row in the next frame.
    pub fn do_filter_column(&mut self)
        ensures
            final(self)@ == (ArrayTableView {
                filtered_nodes: if old(self)@.columns_filter.len() == 0 {
                    Seq::new(old(self)@.nodes.len(), |i: int| i as usize)
                } else {
                    filtered_rows(old(self)@.nodes, old(self)@.parent_pointer, old(self)@.columns_filter)
                },
                next_frame_reset_scroll: true,
                ..old(self)@
            }),
    {
        proof {
            use_type_invariant(&*self);
        }
        self.filtered_nodes = do_filter_column(&self.nodes, self.parent_pointer.pointer.as_str(), &self.columns_filter);
        self.next_frame_reset_scroll = true;
    }

    /// Clears the search: no row to scroll to, no matching row, the first
    /// match selected, and the row to scroll to marked as changed a second
    /// before `now`.
    pub fn reset_search(&mut self, now: InstantWrapper)
        requires
            now.0.total() >= 1_000_000_000,
        ensures
            final(self)@ == (ArrayTableView {
                scroll_to_row: seq![],
                matching_rows: seq![],
                matching_row_selected: 0,
                changed_scroll_to_row_value: Some(now.0.total() - 1_000_000_000),
                ..old(self)@
            }),
    {
        proof {
            use_type_invariant(&*self);
        }
        self.matching_row_selected = 0;
        self.scroll_to_row = String::new();
        self.matching_rows = Vec::new();
        self.changed_scroll_to_row_value = now.checked_sub(Span::new(1, 0));
    }
}

/// A column matches a search for `term`: its name, lowercased, is `/`
/// followed by the lowercased term, or holds the lowercased term.
pub open spec fn column_matches(name: Seq<char>, term: Seq<char>) -> bool {
    lowercase_text(name) == "/"@ + lowercase_text(term) || contains_text(lowercase_text(name), lowercase_text(term))
}

/// The positions of the columns that match a search for `term`, in order.
pub open spec fn matching_column_positions(cols: Seq<ColumnView>, term: Seq<char>) -> Seq<usize>
    decreases cols.len(),
{
    if cols.len() == 0 {
        seq![]
    } else {
        let r = matching_column_positions(cols.drop_last(), term);
        if column_matches(cols.last().name, term) {
            r.push((cols.len() - 1) as usize)
        } else {
            r
        }
    }
}

/// The next of `len` occurrences after `selected`, back to the first after
/// the last.
pub open spec fn next_occurrence(selected: usize, len: nat) -> usize {
    if selected + 1 >= len {
        0
    } else {
        (selected + 1) as usize
    }
}

/// The occurrence before `selected`, back to the last before the first.
pub open spec fn previous_occurrence(selected: usize, len: nat) -> usize {
    if selected == 0 {
        (len - 1) as usize
    } else {
        (selected - 1) as usize
    }
}

impl ArrayTable {
    /// The text of the scroll-to-row box was edited: it is kept, with the
    /// time of the change; an emptied box clears the search (see
    /// `reset_search`).
    pub fn scroll_to_row_edited(&mut self, text: String, now: InstantWrapper)
        requires
            text@.len() == 0 ==> now.0.total() >= 1_000_000_000,
        ensures
            text@.len() > 0 ==> final(self)@ == (ArrayTableView {
                scroll_to_row: text@,
                changed_scroll_to_row_value: Some(now.0.total()),
                ..old(self)@
            }),
            text@.len() == 0 ==> final(self)@ == (ArrayTableView {
                scroll_to_row: seq![],
                matching_rows: seq![],
                matching_row_selected: 0,
                changed_scroll_to_row_value: Some(now.0.total() - 1_000_000_000),
                ..old(self)@
            }),
    {
        proof {
            use_type_invariant(&*self);
        }
        let empty = text.as_str().is_empty();
        self.scroll_to_row = text;
        self.changed_scroll_to_row_value = Some(now);
        if empty {
            self.reset_search(now);
        }
    }

    /// Another mode was chosen for the scroll-to-row box: the search is
    /// cleared (see `reset_search`).  Choosing the mode in use changes
    /// nothing.
    pub fn set_scroll_to_row_mode(&mut self, mode: ScrollToRowMode, now: InstantWrapper)
        requires
            mode != old(self)@.scroll_to_row_mode ==> now.0.total() >= 1_000_000_000,
        ensures
            mode == old(self)@.scroll_to_row_mode ==> final(self)@ == old(self)@,
            mode != old(self)@.scroll_to_row_mode ==> final(self)@ == (ArrayTableView {
                scroll_to_row_mode: mode,
                scroll_to_row: seq![],
                matching_rows: seq![],
                matching_row_selected: 0,
                changed_scroll_to_row_value: Some(now.0.total() - 1_000_000_000),
                ..old(self)@
            }),
    {
        proof {
            use_type_invariant(&*self);
        }
        if mode != self.scroll_to_row_mode {
            self.scroll_to_row_mode = mode;
            self.reset_search(now);
        }
    }

    /// The text of the scroll-to-column box was edited: the columns are
    /// searched again in the next frame.
    pub fn scroll_to_column_edited(&mut self, text: String)
        ensures
            final(self)@ == (ArrayTableView { scroll_to_column: text@, changed_scroll_to_column_value: true, ..old(self)@ }),
    {
        proof {
            use_type_invariant(&*self);
        }
        self.scroll_to_column = text;
        self.changed_scroll_to_column_value = true;
    }

    /// After an edit of the scroll-to-column box, finds the shown columns
    /// that match it (see `column_matches`), none for an empty box, and
    /// selects the first.
    pub fn search_columns(&mut self)
        ensures
            !old(self)@.changed_scroll_to_column_value ==> final(self)@ == old(self)@,
            old(self)@.changed_scroll_to_column_value ==> final(self)@ == (ArrayTableView {
                changed_scroll_to_column_value: false,
                changed_matching_column_selected: true,
                matching_columns: if old(self)@.scroll_to_column.len() == 0 {
                    seq![]
                } else {
                    matching_column_positions(old(self)@.column_selected, old(self)@.scroll_to_column)
                },
                matching_column_selected: 0,
                ..old(self)@
            }),
    {
        proof {
            use_type_invariant(&*self);
        }
        if !self.changed_scroll_to_column_value {
            return;
        }
        self.changed_scroll_to_column_value = false;
        self.changed_matching_column_selected = true;
        self.matching_column_selected = 0;
        let mut found: Vec<usize> = Vec::new();
        if !self.scroll_to_column.as_str().is_empty() {
            let ghost cols = cvs(self.column_selected@);
            let term = to_lowercase(self.scroll_to_column.as_str());
            let named = concat2("/", term.as_str());
            let mut k: usize = 0;
            proof {
                assert(cols.take(0) =~= seq![]);
            }
            while k < self.column_selected.len()
                invariant
                    k <= self.column_selected@.len(),
                    cols == cvs(self.column_selected@),
                    term@ == lowercase_text(self.scroll_to_column@),
                    named@ == "/"@ + term@,
                    found@ == matching_column_positions(cols.take(k as int), self.scroll_to_column@),
                decreases self.column_selected@.len() - k,
            {
                proof {
                    assert(cols.take(k + 1).drop_last() =~= cols.take(k as int));
                    assert(cols.take(k + 1).last() == cols[k as int]);
                }
                let name = to_lowercase(self.column_selected[k].name.as_str());
                if str_eq(name.as_str(), named.as_str()) || str_contains(name.as_str(), term.as_str()) {
                    found.push(k);
                }
                k += 1;
            }
            proof {
                assert(cols.take(self.column_selected@.len() as int) =~= cols);
            }
        }
        self.matching_columns = found;
    }

    /// In each frame: once the scroll-to-row box changed, a row number is
    /// scrolled to at once (the row number typed, or the first row, the box
    /// then emptied, when it holds no number); a term is searched once 300
    /// milliseconds passed since the last change (see `search_occurrences`),
    /// selecting the first matching row.  The answer is the row to scroll
    /// to.
    pub fn search_rows(&mut self, now: InstantWrapper) -> (r: Option<usize>)
        ensures
            old(self)@.changed_scroll_to_row_value is None ==> r is None && final(self)@ == old(self)@,
            old(self)@.changed_scroll_to_row_value is Some && old(self)@.scroll_to_row_mode == ScrollToRowMode::RowNumber
                ==> {
                match parsed_usize(old(self)@.scroll_to_row) {
                    Some(n) => r == Some(n) && final(self)@ == (ArrayTableView {
                        changed_scroll_to_row_value: None,
                        ..old(self)@
                    }),
                    None => r == Some(0usize) && final(self)@ == (ArrayTableView {
                        changed_scroll_to_row_value: None,
                        scroll_to_row: seq![],
                        ..old(self)@
                    }),
                }
            },
            old(self)@.changed_scroll_to_row_value is Some && old(self)@.scroll_to_row_mode
                == ScrollToRowMode::MatchingTerm ==> {
                let t = old(self)@.changed_scroll_to_row_value->0;
                &&& r is None
                &&& now.0.total() - t < 300_000_000 ==> final(self)@ == old(self)@
                &&& now.0.total() - t >= 300_000_000 && old(self)@.scroll_to_row.len() == 0 ==> final(self)@ == (
                ArrayTableView { changed_scroll_to_row_value: None, ..old(self)@ })
                &&& now.0.total() - t >= 300_000_000 && old(self)@.scroll_to_row.len() > 0 ==> {
                    let rows = matching_rows(old(self)@.nodes, lowercase_text(old(self)@.scroll_to_row));
                    final(self)@ == (ArrayTableView {
                        changed_scroll_to_row_value: None,
                        matching_rows: rows,
                        matching_row_selected: 0,
                        changed_matching_row_selected: old(self)@.changed_matching_row_selected || rows.len() > 0,
                        ..old(self)@
                    })
                }
            },
    {
        proof {
            use_type_invariant(&*self);
        }
        let changed = match &self.changed_scroll_to_row_value {
            None => {
                return None;
            },
            Some(t) => InstantWrapper(t.0),
        };
        match self.scroll_to_row_mode {
            ScrollToRowMode::RowNumber => {
                self.changed_scroll_to_row_value = None;
                match parse_usize(self.scroll_to_row.as_str()) {
                    Some(n) => Some(n),
                    None => {
                        self.scroll_to_row = String::new();
                        Some(0)
                    },
                }
            },
            ScrollToRowMode::MatchingTerm => {
                let elapsed = now.saturating_duration_since(changed);
                let wait = Span::new(0, 300_000_000);
                if !wait.total_gt(&elapsed) {
                    self.changed_scroll_to_row_value = None;
                    if !self.scroll_to_row.as_str().is_empty() {
                        let term = to_lowercase(self.scroll_to_row.as_str());
                        let rows = search_occurrences(self.nodes.as_slice(), term.as_str());
                        let found = rows.len() > 0;
                        self.matching_row_selected = 0;
                        self.matching_rows = rows;
                        if found {
                            self.changed_matching_row_selected = true;
                        }
                    }
                }
                None
            },
        }
    }

    /// Selects the next matching row, back to the first after the last;
    /// `false` when no row matches.
    pub fn goto_next_matching_row_occurrence(&mut self) -> (r: bool)
        ensures
            r == (old(self)@.matching_rows.len() > 0),
            !r ==> final(self)@ == old(self)@,
            r ==> final(self)@ == (ArrayTableView {
                matching_row_selected: next_occurrence(old(self)@.matching_row_selected, old(self)@.matching_rows.len()),
                changed_matching_row_selected: true,
                ..old(self)@
            }),
    {
        proof {
            use_type_invariant(&*self);
        }
        if self.matching_rows.len() == 0 {
            return false;
        }
        if self.matching_row_selected + 1 >= self.matching_rows.len() {
            self.matching_row_selected = 0;
        } else {
            self.matching_row_selected = self.matching_row_selected + 1;
        }
        self.changed_matching_row_selected = true;
        true
    }

    /// Selects the previous matching row, back to the last before the
    /// first; `false` when no row matches.
    pub fn goto_previous_matching_row_occurrence(&mut self) -> (r: bool)
        ensures
            r == (old(self)@.matching_rows.len() > 0),
            !r ==> final(self)@ == old(self)@,
            r ==> final(self)@ == (ArrayTableView {
                matching_row_selected: previous_occurrence(old(self)@.matching_row_selected, old(self)@.matching_rows.len()),
                changed_matching_row_selected: true,
                ..old(self)@
            }),
    {
        proof {
            use_type_invariant(&*self);
        }
        if self.matching_rows.len() == 0 {
            return false;
        }
        if self.matching_row_selected == 0 {
            self.matching_row_selected = self.matching_rows.len() - 1;
        } else {
            self.matching_row_selected = self.matching_row_selected - 1;
        }
        self.changed_matching_row_selected = true;
        true
    }

    /// Selects the next matching column, back to the first after the last;
    /// `false` when no column matches.
    pub fn goto_next_matching_column_occurrence(&mut self) -> (r: bool)
        ensures
            r == (old(self)@.matching_columns.len() > 0),
            !r ==> final(self)@ == old(self)@,
            r ==> final(self)@ == (ArrayTableView {
                matching_column_selected: next_occurrence(old(self)@.matching_column_selected, old(self)@.matching_columns.len()),
                changed_matching_column_selected: true,
                ..old(self)@
            }),
    {
        proof {
            use_type_invariant(&*self);
        }
        if self.matching_columns.len() == 0 {
            return false;
        }
        if self.matching_column_selected + 1 >= self.matching_columns.len() {
            self.matching_column_selected = 0;
        } else {
            self.matching_column_selected = self.matching_column_selected + 1;
        }
        self.changed_matching_column_selected = true;
        true
    }

    /// Selects the previous matching column, back to the last before the
    /// first; `false` when no column matches.
    pub fn goto_previous_matching_column_occurrence(&mut self) -> (r: bool)
        ensures
            r == (old(self)@.matching_columns.len() > 0),
            !r ==> final(self)@ == old(self)@,
            r ==> final(self)@ == (ArrayTableView {
                matching_column_selected: previous_occurrence(old(self)@.matching_column_selected, old(self)@.matching_columns.len()),
                changed_matching_column_selected: true,
                ..old(self)@
            }),
    {
        proof {
            use_type_invariant(&*self);
        }
        if self.matching_columns.len() == 0 {
            return false;
        }
        if self.matching_column_selected == 0 {
            self.matching_column_selected = self.matching_columns.len() - 1;
        } else {
            self.matching_column_selected = self.matching_column_selected - 1;
        }
        self.changed_matching_column_selected = true;
        true
    }

    /// Once the selected matching row changed: the row to scroll to.
    pub fn matching_row_to_show(&mut self) -> (r: Option<usize>)
        ensures
            !old(self)@.changed_matching_row_selected ==> r is None && final(self)@ == old(self)@,
            old(self)@.changed_matching_row_selected ==> final(self)@ == (ArrayTableView {
                changed_matching_row_selected: false,
                ..old(self)@
            }) && r == if old(self)@.matching_rows.len() > 0 {
                Some(old(self)@.matching_rows[old(self)@.matching_row_selected as int])
            } else {
                None
            },
    {
        proof {
            use_type_invariant(&*self);
        }
        if !self.changed_matching_row_selected {
            return None;
        }
        self.changed_matching_row_selected = false;
        if self.matching_rows.len() > 0 {
            Some(self.matching_rows[self.matching_row_selected])
        } else {
            None
        }
    }

    /// Once the selected matching column changed: the position, among the
    /// shown columns, of the column to scroll to.
    pub fn matching_column_to_show(&mut self) -> (r: Option<usize>)
        ensures
            !old(self)@.changed_matching_column_selected ==> r is None && final(self)@ == old(self)@,
            old(self)@.changed_matching_column_selected ==> final(self)@ == (ArrayTableView {
                changed_matching_column_selected: false,
                ..old(self)@
            }) && r == if old(self)@.matching_columns.len() > 0 {
                Some(old(self)@.matching_columns[old(self)@.matching_column_selected as int])
            } else {
                None
            },
    {
        proof {
            use_type_invariant(&*self);
        }
        if !self.changed_matching_column_selected {
            return None;
        }
        self.changed_matching_column_selected = false;
        if self.matching_columns.len() > 0 {
            Some(self.matching_columns[self.matching_column_selected])
        } else {
            None
        }
    }

    /// The first row is scrolled to in this frame, once.
    pub fn take_reset_scroll(&mut self) -> (r: bool)
        ensures
            r == old(self)@.next_frame_reset_scroll,
            final(self)@ == (ArrayTableView { next_frame_reset_scroll: false, ..old(self)@ }),
    {
        proof {
            use_type_invariant(&*self);
        }
        let r = self.next_frame_reset_scroll;
        self.next_frame_reset_scroll = false;
        r
    }
}

impl ArrayTable {
    /// The pointer of the array the table shows.
    pub fn parent_pointer(&self) -> (r: &FlatPointer)
        ensures
            r.pointer@ == self@.parent_pointer,
            r.depth == self@.parent_depth,
    {
        &self.parent_pointer
    }

    /// The depth chosen for the table.
    pub fn max_depth(&self) -> (r: u8)
        ensures
            r == self@.max_depth,
    {
        self.max_depth
    }

    /// How deep the rows were parsed.
    pub fn last_parsed_max_depth(&self) -> (r: u8)
        ensures
            r == self@.last_parsed_max_depth,
    {
        self.last_parsed_max_depth
    }

    /// The filters, by column.
    pub fn columns_filter(&self) -> (r: &Vec<(String, Vec<String>)>)
        ensures
            r@ == self@.columns_filter,
    {
        &self.columns_filter
    }

    /// The text of the scroll-to-row box.
    pub fn scroll_to_row(&self) -> (r: &str)
        ensures
            r@ == self@.scroll_to_row,
    {
        self.scroll_to_row.as_str()
    }

    /// The text of the scroll-to-column box.
    pub fn scroll_to_column(&self) -> (r: &str)
        ensures
            r@ == self@.scroll_to_column,
    {
        self.scroll_to_column.as_str()
    }

    /// What the scroll-to-row box scrolls to.
    pub fn scroll_to_row_mode(&self) -> (r: ScrollToRowMode)
        ensures
            r == self@.scroll_to_row_mode,
    {
        self.scroll_to_row_mode
    }

    /// The rows matching the searched term, and the selected one.
    pub fn matching_rows(&self) -> (r: (&Vec<usize>, usize))
        ensures
            r.0@ == self@.matching_rows,
            r.1 == self@.matching_row_selected,
    {
        (&self.matching_rows, self.matching_row_selected)
    }

    /// The shown columns matching the searched name, and the selected one.
    pub fn matching_columns(&self) -> (r: (&Vec<usize>, usize))
        ensures
            r.0@ == self@.matching_columns,
            r.1 == self@.matching_column_selected,
    {
        (&self.matching_columns, self.matching_column_selected)
    }

    /// When the scroll-to-row box last changed.
    pub fn changed_scroll_to_row_value(&self) -> (r: Option<InstantWrapper>)
        ensures
            r matches Some(i) ==> self@.changed_scroll_to_row_value == Some(i.0.total()),
            r is None ==> self@.changed_scroll_to_row_value is None,
    {
        match &self.changed_scroll_to_row_value {
            Some(i) => Some(InstantWrapper(i.0)),
            None => None,
        }
    }
}

// ---------------------------------------------------------------------------
// Writing values
// ---------------------------------------------------------------------------

/// Rows the table can write values in: each row's index is a position in
/// the table, each row has entries, and its last entry (the row itself) is
/// not at the deepest depth.
pub open spec fn rows_ok(nodes: Seq<ArrayEntries>) -> bool {
    forall|i: int|
        0 <= i < nodes.len() ==> {
            &&& (#[trigger] nodes[i]).index < nodes.len()
            &&& nodes[i].entries@.len() > 0
            &&& nodes[i].entries@.last().pointer.depth < u8::MAX
        }
}

/// The entries of a row after `u` was written in it (see `update_row`):
/// outside a nested table, a change also writes the row again as JSON text
/// and takes the nested objects back from it.
pub open spec fn row_after_write(before: Seq<FlatValueView>, u: FlatValueView, is_sub_table: bool, depth: u8, after: Seq<FlatValueView>) -> bool {
    let w = row_written(before, u);
    if w.1 && !is_sub_table {
        after == rewritten(w.0, depth)
    } else {
        after == w.0
    }
}

/// The rows after writing `u` in row `i`, the others unchanged.
pub open spec fn write_step(before: Seq<RowView>, u: FlatValueView, i: usize, is_sub_table: bool, depth: u8, after: Seq<RowView>) -> bool {
    &&& i < before.len()
    &&& after.len() == before.len()
    &&& forall|j: int| 0 <= j < before.len() && j != i ==> after[j] == before[j]
    &&& after[i as int].index == before[i as int].index
    &&& row_after_write(before[i as int].entries, u, is_sub_table, depth, after[i as int].entries)
}

/// Copies of the rows.
fn copy_rows(rows: &Vec<ArrayEntries>) -> (r: Vec<ArrayEntries>)
    ensures
        rvs(r@) == rvs(rows@),
{
    let mut out: Vec<ArrayEntries> = Vec::new();
    let mut i: usize = 0;
    while i < rows.len()
        invariant
            i <= rows@.len(),
            rvs(out@) == rvs(rows@).take(i as int),
        decreases rows@.len() - i,
    {
        let mut entries: Vec<FlatValue> = Vec::new();
        let mut k: usize = 0;
        while k < rows[i].entries.len()
            invariant
                i < rows@.len(),
                k <= rows@[i as int].entries@.len(),
                fvs(entries@) == fvs(rows@[i as int].entries@).take(k as int),
            decreases rows@[i as int].entries@.len() - k,
        {
            let ghost before = entries@;
            let c = clone_value(&rows[i].entries[k]);
            entries.push(c);
            proof {
                assert(fvs(entries@) =~= fvs(before).push(fv(c)));
                assert(fvs(rows@[i as int].entries@).take(k + 1int) =~= fvs(rows@[i as int].entries@).take(k as int).push(
                    fv(rows@[i as int].entries@[k as int]),
                ));
            }
            k += 1;
        }
        proof {
            assert(fvs(rows@[i as int].entries@).take(k as int) =~= fvs(rows@[i as int].entries@));
        }
        let ghost before = out@;
        let row = ArrayEntries { entries, index: rows[i].index };
        out.push(row);
        proof {
            assert(rvs(out@) =~= rvs(before).push(rv(row)));
            assert(rvs(rows@).take(i + 1int) =~= rvs(rows@).take(i as int).push(rv(rows@[i as int])));
        }
        i += 1;
    }
    proof {
        assert(rvs(rows@).take(rows@.len() as int) =~= rvs(rows@));
    }
    out
}

/// The values of all rows, one row after the other.
pub open spec fn flat_rows(rows: Seq<RowView>) -> Seq<FlatValueView>
    decreases rows.len(),
{
    if rows.len() == 0 {
        seq![]
    } else {
        flat_rows(rows.drop_last()) + rows.last().entries
    }
}

/// The text a nested table hands back for its array of rows, under the
/// array's pointer `parent` at depth `pd`: the JSON text the crate writes
/// for all the rows' values (`row_compact_text`), where its serializer
/// returns on them (`serializer_safe`); else none.
pub open spec fn sub_table_text(rows: Seq<RowView>, parent: Seq<char>, pd: u8) -> Option<Seq<char>> {
    let es = flat_rows(rows).push(array_marker(rows.len()));
    if serializer_safe(es, parent, (pd + 1) as u8) {
        Some(row_compact_text(es, (pd + 1) as u8))
    } else {
        None
    }
}

/// The value a table hands back after writing `u` in a row: the value
/// itself, or, in a nested table, the whole array under the table's pointer
/// at depth `pd`, with the text of its rows `after` the write (see
/// `sub_table_text`).
pub open spec fn reported_value(u: FlatValueView, is_sub_table: bool, parent: Seq<char>, rows: nat, pd: u8, after: Seq<RowView>) -> FlatValueView {
    if is_sub_table {
        FlatValueView {
            pointer: parent,
            value_type: FlatType::Array(rows as usize),
            depth: 0,
            position: 0,
            column_id: 0,
            value: sub_table_text(after, parent, pd),
        }
    } else {
        u
    }
}

/// A value handed back, as values.
pub open spec fn as_reported(e: FlatValue, is_sub_table: bool) -> FlatValueView {
    fv(e)
}

proof fn lemma_refreshed_len(s: Seq<FlatValueView>, reparsed: Seq<FlatValueView>)
    ensures
        refreshed(s, reparsed).len() == s.len(),
    decreases reparsed.len(),
{
    if reparsed.len() > 0 {
        lemma_refreshed_len(s, reparsed.drop_last());
        lemma_view_at(refreshed(s, reparsed.drop_last()), reparsed.last().pointer);
    }
}

proof fn lemma_written_last(s: Seq<FlatValueView>, u: FlatValueView)
    requires
        s.len() > 0,
    ensures
        row_written(s, u).0.len() >= s.len(),
        row_written(s, u).0.last().depth == s.last().depth,
{
    lemma_view_at(s, u.pointer);
}

proof fn lemma_write_keeps_row(before: Seq<FlatValueView>, u: FlatValueView, is_sub_table: bool, depth: u8, after: Seq<FlatValueView>)
    requires
        before.len() > 0,
        row_after_write(before, u, is_sub_table, depth, after),
    ensures
        after.len() >= before.len(),
        after.last().depth == before.last().depth,
{
    lemma_written_last(before, u);
    let w = row_written(before, u);
    if w.1 && !is_sub_table {
        let root = w.0.last();
        let rows = w.0.drop_last();
        let rd = (root.depth + 1) as u8;
        let text = row_pretty_text(rows, rd);
        if serializer_safe(rows, root.pointer, rd) && raw_texts_valid(rows, rd) {
            let reparsed = if flat_parse_safe(encode_utf8(text), rd) && (depth >= rd || raw_json_valid(text)) {
                match flat_parse(text, root.pointer, rd, depth) {
                    Some(v) => v,
                    None => seq![],
                }
            } else {
                seq![]
            };
            lemma_refreshed_len(w.0.drop_last(), reparsed);
        }
    }
}

impl ArrayTable {
    /// A value of row `row_index` changed elsewhere: it is set here too
    /// (see `entry_set`).
    pub fn set_row_entry(&mut self, row_index: usize, pointer: FlatPointer, value: Option<String>)
        requires
            row_index < old(self)@.nodes.len(),
        ensures
            final(self)@ == (ArrayTableView { nodes: final(self)@.nodes, ..old(self)@ }),
            final(self)@.nodes.len() == old(self)@.nodes.len(),
            forall|j: int| 0 <= j < old(self)@.nodes.len() && j != row_index ==> final(self)@.nodes[j] == old(self)@.nodes[j],
            final(self)@.nodes[row_index as int].index == old(self)@.nodes[row_index as int].index,
            fvs(final(self)@.nodes[row_index as int].entries@) == entry_set(
                fvs(old(self)@.nodes[row_index as int].entries@),
                value_view(pointer, text_of(value)),
            ),
    {
        proof {
            use_type_invariant(&*self);
        }
        let mut nodes: Vec<ArrayEntries> = Vec::new();
        std::mem::swap(&mut nodes, &mut self.nodes);
        let mut row = ArrayEntries { entries: Vec::new(), index: 0 };
        std::mem::swap(&mut row, &mut nodes[row_index]);
        set_entry_value(&mut row.entries, pointer, value);
        std::mem::swap(&mut row, &mut nodes[row_index]);
        self.nodes = nodes;
    }
}

impl ArrayTable {
    /// Values can be written in the table: its rows can take them (see
    /// `rows_ok`), and a nested table's array is not at the deepest depth.
    pub fn can_edit(&self) -> (r: bool)
        ensures
            r == (rows_ok(self@.nodes) && (self@.is_sub_table ==> self@.parent_depth < u8::MAX)),
    {
        let n = self.nodes.len();
        let mut k: usize = 0;
        while k < n
            invariant
                n == self.nodes@.len(),
                k <= n,
                forall|i: int|
                    0 <= i < k ==> {
                        &&& (#[trigger] self.nodes@[i]).index < n
                        &&& self.nodes@[i].entries@.len() > 0
                        &&& self.nodes@[i].entries@.last().pointer.depth < u8::MAX
                    },
            decreases n - k,
        {
            let row = &self.nodes[k];
            let m = row.entries.len();
            if row.index >= n || m == 0 || row.entries[m - 1].pointer.depth == u8::MAX {
                proof {
                    assert(self.nodes@[k as int] == *row);
                }
                return false;
            }
            k += 1;
        }
        !self.is_sub_table || self.parent_pointer.depth < u8::MAX
    }
}

impl ArrayTable {
    /// Writes `new_entry` in row `row_index` (see `update_row`), and tells
    /// whether a value changed.
    pub fn update_value(&mut self, new_entry: FlatValue, row_index: usize) -> (changed: bool)
        requires
            rows_ok(old(self)@.nodes),
            row_index < old(self)@.nodes.len(),
        ensures
            final(self)@ == (ArrayTableView { nodes: final(self)@.nodes, ..old(self)@ }),
            rows_ok(final(self)@.nodes),
            write_step(
                rvs(old(self)@.nodes),
                fv(new_entry),
                row_index,
                old(self)@.is_sub_table,
                old(self)@.last_parsed_max_depth,
                rvs(final(self)@.nodes),
            ),
            changed == row_written(fvs(old(self)@.nodes[row_index as int].entries@), fv(new_entry)).1,
    {
        proof {
            use_type_invariant(&*self);
        }
        let ghost before = self.nodes@;
        let mut nodes: Vec<ArrayEntries> = Vec::new();
        std::mem::swap(&mut nodes, &mut self.nodes);
        let mut row = ArrayEntries { entries: Vec::new(), index: 0 };
        std::mem::swap(&mut row, &mut nodes[row_index]);
        let ghost old_row = row;
        proof {
            assert(old_row == before[row_index as int]);
            lemma_written_last(fvs(old_row.entries@), fv(new_entry));
            assert(fvs(old_row.entries@).last() == fv(old_row.entries@.last()));
        }
        let changed = update_row(&mut row.entries, new_entry, self.is_sub_table, self.last_parsed_max_depth);
        let ghost new_row = row;
        std::mem::swap(&mut row, &mut nodes[row_index]);
        proof {
            lemma_write_keeps_row(fvs(old_row.entries@), fv(new_entry), self.is_sub_table, self.last_parsed_max_depth, fvs(new_row.entries@));
            assert(nodes@ == before.update(row_index as int, new_row));
            assert forall|i: int| 0 <= i < nodes@.len() implies {
                &&& (#[trigger] nodes@[i]).index < nodes@.len()
                &&& nodes@[i].entries@.len() > 0
                &&& nodes@[i].entries@.last().pointer.depth < u8::MAX
            } by {
                if i == row_index {
                    assert(fvs(new_row.entries@).last() == fv(new_row.entries@.last()));
                    assert(fvs(old_row.entries@).last() == fv(old_row.entries@.last()));
                }
            }
            assert(rvs(nodes@) =~= rvs(before).update(row_index as int, rv(new_row)));
        }
        self.nodes = nodes;
        changed
    }

    /// Writes `new_entry` in row `row_index` (see `update_row`).  When a
    /// value changed, the answer is what the table hands back: the value,
    /// or, in a nested table, the whole array written again as JSON text,
    /// under the table's pointer.
    pub fn edit_cell(&mut self, new_entry: FlatValue, row_index: usize) -> (r: Option<FlatValue>)
        requires
            rows_ok(old(self)@.nodes),
            row_index < old(self)@.nodes.len(),
            old(self)@.is_sub_table ==> old(self)@.parent_depth < u8::MAX,
        ensures
            final(self)@ == (ArrayTableView { nodes: final(self)@.nodes, ..old(self)@ }),
            rows_ok(final(self)@.nodes),
            write_step(
                rvs(old(self)@.nodes),
                fv(new_entry),
                row_index,
                old(self)@.is_sub_table,
                old(self)@.last_parsed_max_depth,
                rvs(final(self)@.nodes),
            ),
            r is Some <==> row_written(fvs(old(self)@.nodes[row_index as int].entries@), fv(new_entry)).1,
            r matches Some(e) ==> as_reported(e, old(self)@.is_sub_table) == reported_value(
                fv(new_entry),
                old(self)@.is_sub_table,
                old(self)@.parent_pointer,
                old(self)@.nodes.len(),
                old(self)@.parent_depth,
                rvs(final(self)@.nodes),
            ),
    {
        let reported = if self.is_sub_table {
            None
        } else {
            Some(clone_value(&new_entry))
        };
        let changed = self.update_value(new_entry, row_index);
        if !changed {
            return None;
        }
        if self.is_sub_table {
            let mut entries: Vec<FlatValue> = Vec::new();
            let ghost rows = rvs(self.nodes@);
            let mut i: usize = 0;
            while i < self.nodes.len()
                invariant
                    i <= self.nodes@.len(),
                    rows == rvs(self.nodes@),
                    fvs(entries@) == flat_rows(rows.take(i as int)),
                decreases self.nodes@.len() - i,
            {
                let ghost at_start = fvs(entries@);
                let mut k: usize = 0;
                while k < self.nodes[i].entries.len()
                    invariant
                        i < self.nodes@.len(),
                        rows == rvs(self.nodes@),
                        k <= self.nodes@[i as int].entries@.len(),
                        fvs(entries@) == at_start + fvs(self.nodes@[i as int].entries@).take(k as int),
                    decreases self.nodes@[i as int].entries@.len() - k,
                {
                    let ghost before = entries@;
                    let c = clone_value(&self.nodes[i].entries[k]);
                    entries.push(c);
                    proof {
                        assert(fvs(entries@) =~= fvs(before).push(fv(c)));
                        assert(fvs(self.nodes@[i as int].entries@).take(k + 1int) =~= fvs(
                            self.nodes@[i as int].entries@,
                        ).take(k as int).push(fv(self.nodes@[i as int].entries@[k as int])));
                    }
                    k += 1;
                }
                proof {
                    assert(fvs(self.nodes@[i as int].entries@).take(k as int) =~= fvs(self.nodes@[i as int].entries@));
                    assert(rows.take(i + 1int).drop_last() =~= rows.take(i as int));
                    assert(rows.take(i + 1int).last() == rows[i as int]);
                }
                i += 1;
            }
            proof {
                assert(rows.take(self.nodes@.len() as int) =~= rows);
            }
            let n = self.nodes.len();
            let ghost flat = fvs(entries@);
            let marker = FlatValue {
                pointer: FlatPointer { pointer: String::new(), value_type: FlatType::Array(n), depth: 0, position: 0, column_id: 0 },
                value: None,
            };
            entries.push(marker);
            proof {
                assert(fvs(entries@) =~= flat.push(fv(marker)));
                assert(fv(marker) == array_marker(n as nat));
            }
            let rd = self.parent_pointer.depth + 1;
            let text = if serializer_safe_check(&entries, self.parent_pointer.pointer.as_str(), rd) {
                Some(row_json_text(&entries, rd))
            } else {
                None
            };
            Some(FlatValue {
                pointer: FlatPointer {
                    pointer: self.parent_pointer.pointer.clone(),
                    value_type: FlatType::Array(n),
                    depth: 0,
                    position: 0,
                    column_id: 0,
                },
                value: text,
            })
        } else {
            reported
        }
    }
}

/// The cell can be written: its shown row is a row of the table, and its
/// column exists.
pub open spec fn cell_ok(t: ArrayTableView, cell: CellLocation) -> bool {
    &&& cell.row_index < t.filtered_nodes.len()
    &&& t.filtered_nodes[cell.row_index as int] < t.nodes.len()
    &&& cell.column_index < if cell.is_pinned_column_table {
        t.column_pinned.len()
    } else {
        t.column_selected.len()
    }
}

/// The column of a cell.
pub open spec fn cell_column(t: ArrayTableView, cell: CellLocation) -> ColumnView {
    if cell.is_pinned_column_table {
        t.column_pinned[cell.column_index as int]
    } else {
        t.column_selected[cell.column_index as int]
    }
}

impl ArrayTable {
    /// Text pasted on a cell: written there (see `pasted_cell_entry` and
    /// `edit_cell`), and what the table hands back.
    pub fn paste_cell(&mut self, cell: CellLocation, text: String) -> (r: Option<FlatValue>)
        requires
            rows_ok(old(self)@.nodes),
            old(self)@.is_sub_table ==> old(self)@.parent_depth < u8::MAX,
            cell_ok(old(self)@, cell),
        ensures
            ({
                let row_index = old(self)@.filtered_nodes[cell.row_index as int];
                let c = cell_column(old(self)@, cell);
                let u = FlatValueView {
                    pointer: cell_pointer(old(self)@.parent_pointer, row_index as nat, c.name),
                    value_type: if c.value_type is Object {
                        FlatType::Object(false, 0)
                    } else {
                        c.value_type
                    },
                    depth: c.depth,
                    position: 0,
                    column_id: c.id,
                    value: Some(text@),
                };
                &&& final(self)@ == (ArrayTableView { nodes: final(self)@.nodes, ..old(self)@ })
                &&& rows_ok(final(self)@.nodes)
                &&& write_step(rvs(old(self)@.nodes), u, row_index, old(self)@.is_sub_table, old(self)@.last_parsed_max_depth, rvs(final(self)@.nodes))
                &&& r is Some <==> row_written(fvs(old(self)@.nodes[row_index as int].entries@), u).1
                &&& r matches Some(e) ==> as_reported(e, old(self)@.is_sub_table) == reported_value(
                    u,
                    old(self)@.is_sub_table,
                    old(self)@.parent_pointer,
                    old(self)@.nodes.len(),
                    old(self)@.parent_depth,
                    rvs(final(self)@.nodes),
                )
            }),
    {
        let row_index = self.filtered_nodes[cell.row_index];
        let entry = if cell.is_pinned_column_table {
            pasted_cell_entry(self.parent_pointer.pointer.as_str(), row_index, &self.column_pinned[cell.column_index], text)
        } else {
            pasted_cell_entry(self.parent_pointer.pointer.as_str(), row_index, &self.column_selected[cell.column_index], text)
        };
        self.edit_cell(entry, row_index)
    }

    /// The delete key on a cell: its value is removed (see
    /// `deleted_cell_entry`); nothing is handed back.
    pub fn delete_cell(&mut self, cell: CellLocation)
        requires
            rows_ok(old(self)@.nodes),
            cell_ok(old(self)@, cell),
        ensures
            ({
                let row_index = old(self)@.filtered_nodes[cell.row_index as int];
                let c = cell_column(old(self)@, cell);
                let u = FlatValueView {
                    pointer: cell_pointer(old(self)@.parent_pointer, row_index as nat, c.name),
                    value_type: c.value_type,
                    depth: c.depth,
                    position: 0,
                    column_id: c.id,
                    value: None,
                };
                &&& final(self)@ == (ArrayTableView { nodes: final(self)@.nodes, ..old(self)@ })
                &&& rows_ok(final(self)@.nodes)
                &&& write_step(rvs(old(self)@.nodes), u, row_index, old(self)@.is_sub_table, old(self)@.last_parsed_max_depth, rvs(final(self)@.nodes))
            }),
    {
        let row_index = self.filtered_nodes[cell.row_index];
        let entry = if cell.is_pinned_column_table {
            deleted_cell_entry(self.parent_pointer.pointer.as_str(), row_index, &self.column_pinned[cell.column_index])
        } else {
            deleted_cell_entry(self.parent_pointer.pointer.as_str(), row_index, &self.column_selected[cell.column_index])
        };
        let _ = self.update_value(entry, row_index);
    }

    /// The text copied from a cell: the value at the cell's pointer in its
    /// row, none when the row has no value there.
    pub fn copy_cell(&self, cell: CellLocation) -> (r: Option<String>)
        requires
            cell_ok(self@, cell),
        ensures
            ({
                let row = self@.nodes[self@.filtered_nodes[cell.row_index as int] as int];
                let p = cell_pointer(self@.parent_pointer, row.index as nat, cell_column(self@, cell).name);
                text_of(r) == match first_at(row.entries@, p) {
                    Some(k) => text_of(row.entries@[k].value),
                    None => None,
                }
            }),
    {
        let row = &self.nodes[self.filtered_nodes[cell.row_index]];
        let index = get_pointer_index(&self.parent_pointer, self.columns(cell.is_pinned_column_table), &row.entries, cell.column_index, row.index);
        proof {
            crate::rows::lemma_first_at_bounds(
                row.entries@,
                cell_pointer(self@.parent_pointer, row.index as nat, cell_column(self@, cell).name),
            );
        }
        match index {
            Some(k) => match &row.entries[k].value {
                Some(v) => Some(v.clone()),
                None => None,
            },
            None => None,
        }
    }
}

/// The filters without those of the named columns.
pub open spec fn filters_without(f: Seq<(String, Vec<String>)>, columns: Option<Vec<Column>>) -> Seq<(String, Vec<String>)> {
    match columns {
        Some(c) => f.filter(|p: (String, Vec<String>)| !has_name(cvs(c@), p.0@)),
        None => f,
    }
}

/// `states` are the rows before each write of `occ` and after the last.
pub open spec fn written_chain(states: Seq<Seq<RowView>>, occ: Seq<(FlatValueView, usize)>, is_sub_table: bool, depth: u8) -> bool {
    &&& states.len() == occ.len() + 1
    &&& forall|k: int|
        0 <= k < occ.len() ==> write_step(#[trigger] states[k], occ[k].0, occ[k].1, is_sub_table, depth, states[k + 1])
}

/// What the table hands back for the first `k` writes of `occ`, one value
/// per write that changed a value (see `reported_value`).
pub open spec fn reported_in_turn(
    states: Seq<Seq<RowView>>,
    occ: Seq<(FlatValueView, usize)>,
    is_sub_table: bool,
    parent: Seq<char>,
    rows: nat,
    pd: u8,
    k: nat,
) -> Seq<FlatValueView>
    decreases k,
{
    if k == 0 {
        seq![]
    } else {
        let prev = reported_in_turn(states, occ, is_sub_table, parent, rows, pd, (k - 1) as nat);
        let u = occ[k - 1].0;
        let i = occ[k - 1].1;
        if row_written(states[k - 1][i as int].entries, u).1 {
            prev.push(reported_value(u, is_sub_table, parent, rows, pd, states[k as int]))
        } else {
            prev
        }
    }
}

/// What carrying out a find-and-replace request does (see
/// `replace_columns`): `t` before, `after` after, `r` handed back.
pub open spec fn replace_result(t: ArrayTableView, request: SearchReplaceResponse, after: ArrayTableView, r: Seq<FlatValue>) -> bool {
    ({
        let occ = replacements(
            t.nodes,
            request.replace_mode,
            request.search_criteria@,
            text_of(request.replace_value),
            selected_ids(request.selected_column),
        );
        let filters = filters_without(t.columns_filter, request.selected_column);
        let sub = t.is_sub_table;
        let bulk = !sub && occ.len() >= 100;
        &&& rows_ok(after.nodes)
        &&& exists|states: Seq<Seq<RowView>>|
            {
                &&& #[trigger] written_chain(states, occ, sub, t.last_parsed_max_depth)
                &&& states[0] == rvs(t.nodes)
                &&& states[occ.len() as int] == rvs(after.nodes)
                &&& bulk ==> r.len() == 0
                &&& !bulk ==> r.map_values(|e: FlatValue| as_reported(e, sub)) == reported_in_turn(
                    states,
                    occ,
                    sub,
                    t.parent_pointer,
                    t.nodes.len(),
                    t.parent_depth,
                    occ.len(),
                )
            }
        &&& after == (ArrayTableView {
            nodes: after.nodes,
            columns_filter: filters,
            filtered_nodes: if filters.len() == 0 {
                Seq::new(after.nodes.len(), |i: int| i as usize)
            } else {
                filtered_rows(after.nodes, t.parent_pointer, filters)
            },
            next_frame_reset_scroll: true,
            ..t
        })
    })
}

proof fn lemma_row_replacements_index(
    entries: Seq<FlatValue>,
    index: usize,
    mode: ReplaceMode,
    criteria: Seq<char>,
    replacement: Option<Seq<char>>,
    ids: Seq<usize>,
)
    ensures
        forall|k: int|
            0 <= k < row_replacements(entries, index, mode, criteria, replacement, ids).len() ==> (#[trigger] row_replacements(
                entries,
                index,
                mode,
                criteria,
                replacement,
                ids,
            )[k]).1 == index,
    decreases entries.len(),
{
    if entries.len() > 0 {
        lemma_row_replacements_index(entries.drop_last(), index, mode, criteria, replacement, ids);
        let rest = row_replacements(entries.drop_last(), index, mode, criteria, replacement, ids);
        let all = row_replacements(entries, index, mode, criteria, replacement, ids);
        assert forall|k: int| 0 <= k < all.len() implies (#[trigger] all[k]).1 == index by {
            if k < rest.len() {
                assert(all[k] == rest[k]);
            }
        }
    }
}

proof fn lemma_replacements_rows(
    rows: Seq<ArrayEntries>,
    mode: ReplaceMode,
    criteria: Seq<char>,
    replacement: Option<Seq<char>>,
    ids: Seq<usize>,
)
    ensures
        forall|k: int|
            0 <= k < replacements(rows, mode, criteria, replacement, ids).len() ==> exists|j: int|
                0 <= j < rows.len() && (#[trigger] replacements(rows, mode, criteria, replacement, ids)[k]).1 == rows[j].index,
    decreases rows.len(),
{
    if rows.len() > 0 {
        let d = rows.drop_last();
        lemma_replacements_rows(d, mode, criteria, replacement, ids);
        let last = rows.last();
        lemma_row_replacements_index(last.entries@, last.index, mode, criteria, replacement, ids);
        let a = replacements(d, mode, criteria, replacement, ids);
        let b = row_replacements(last.entries@, last.index, mode, criteria, replacement, ids);
        assert forall|k: int| 0 <= k < (a + b).len() implies exists|j: int|
            0 <= j < rows.len() && (#[trigger] (a + b)[k]).1 == rows[j].index by {
            if k < a.len() {
                assert((a + b)[k] == a[k]);
                let j = choose|j: int| 0 <= j < d.len() && a[k].1 == d[j].index;
                assert(rows[j] == d[j]);
            } else {
                assert((a + b)[k] == b[k - a.len()]);
                assert(rows[rows.len() - 1] == last);
            }
        }
    }
}

impl ArrayTable {
    /// Carries out a find-and-replace request: the filters of the selected
    /// columns are dropped, each replacement (see `replace_occurrences`) is
    /// written in its row in turn (see `edit_cell`), and the rows are
    /// filtered again.  The answer is what the table hands back for each
    /// write that changed a value; nothing for a large batch (a hundred
    /// replacements or more) outside a nested table.
    #[verifier::spinoff_prover]
    #[verifier::rlimit(40)]
    pub fn replace_columns(&mut self, search_replace_response: SearchReplaceResponse) -> (r: Vec<FlatValue>)
        requires
            !pattern_fails(old(self)@.nodes, search_replace_response),
            rows_ok(old(self)@.nodes),
            old(self)@.is_sub_table ==> old(self)@.parent_depth < u8::MAX,
        ensures
            replace_result(old(self)@, search_replace_response, final(self)@, r@),
    {
        proof {
            use_type_invariant(&*self);
        }
        let ghost t0 = self@;
        if let Some(ref columns) = search_replace_response.selected_column {
            self.drop_filters(columns);
        }
        let ghost t1 = self@;
        let occurrences = replace_occurrences(self.nodes.as_slice(), search_replace_response);
        let ghost occ = replacement_views(occurrences@);
        let ghost sub = self.is_sub_table;
        let ghost depth = self.last_parsed_max_depth;
        let ghost parent = self@.parent_pointer;
        let ghost pd = self@.parent_depth;
        let ghost n = t0.nodes.len();
        let bulk = !self.is_sub_table && occurrences.len() >= 100;
        proof {
            lemma_replacements_rows(
                t0.nodes,
                search_replace_response.replace_mode,
                search_replace_response.search_criteria@,
                text_of(search_replace_response.replace_value),
                selected_ids(search_replace_response.selected_column),
            );
        }
        let ghost mut states: Seq<Seq<RowView>> = seq![rvs(t0.nodes)];
        let mut edited: Vec<FlatValue> = Vec::new();
        let mut k: usize = 0;
        while k < occurrences.len()
            invariant
                k <= occurrences@.len(),
                occ == replacement_views(occurrences@),
                forall|m: int| 0 <= m < occ.len() ==> exists|j: int| 0 <= j < t0.nodes.len() && (#[trigger] occ[m]).1 == t0.nodes[j].index,
                rows_ok(t0.nodes),
                rows_ok(self@.nodes),
                self@.nodes.len() == n,
                n == t0.nodes.len(),
                sub == self@.is_sub_table,
                depth == self@.last_parsed_max_depth,
                parent == self@.parent_pointer,
                pd == self@.parent_depth,
                pd == t0.parent_depth,
                bulk == (!sub && occ.len() >= 100),
                sub ==> self@.parent_depth < u8::MAX,
                self@ == (ArrayTableView { nodes: self@.nodes, ..t1 }),
                states.len() == k + 1,
                states[0] == rvs(t0.nodes),
                states[k as int] == rvs(self@.nodes),
                forall|m: int| 0 <= m < k ==> write_step(#[trigger] states[m], occ[m].0, occ[m].1, sub, depth, states[m + 1]),
                bulk ==> edited@.len() == 0,
                !bulk ==> edited@.map_values(|e: FlatValue| as_reported(e, sub)) == reported_in_turn(states, occ, sub, parent, n, pd, k as nat),
            decreases occurrences@.len() - k,
        {
            let ghost before = self@;
            let row_index = occurrences[k].1;
            proof {
                assert(occ[k as int].1 == row_index);
                let j = choose|j: int| 0 <= j < t0.nodes.len() && occ[k as int].1 == t0.nodes[j].index;
                assert(row_index < n);
            }
            let entry = clone_value(&occurrences[k].0);
            let reported = self.edit_cell(entry, row_index);
            proof {
                assert(occ[k as int].0 == fv(entry));
                let next = rvs(self@.nodes);
                let old_states = states;
                states = states.push(next);
                assert(states[k as int] == old_states[k as int]);
                assert forall|m: int| 0 <= m < k + 1 implies write_step(#[trigger] states[m], occ[m].0, occ[m].1, sub, depth, states[m + 1]) by {
                    if m < k {
                        assert(states[m] == old_states[m] && states[m + 1] == old_states[m + 1]);
                    }
                }
                assert(rvs(before.nodes)[row_index as int].entries == fvs(before.nodes[row_index as int].entries@));
                lemma_reported_prefix(old_states, states, occ, sub, parent, n, pd, k as nat);
            }
            if !bulk {
                if let Some(e) = reported {
                    let ghost prev = edited@;
                    edited.push(e);
                    proof {
                        assert(edited@.map_values(|e: FlatValue| as_reported(e, sub)) =~= prev.map_values(|e: FlatValue| as_reported(e, sub)).push(
                            as_reported(e, sub),
                        ));
                    }
                }
            }
            k += 1;
        }
        self.do_filter_column();
        proof {
            assert(written_chain(states, occ, sub, depth));
        }
        edited
    }

    /// Carries out the request as `replace_columns` does, unless its
    /// pattern does not compile (see `pattern_works`): then nothing changes
    /// and the answer is `None`.
    pub fn try_replace_columns(&mut self, search_replace_response: SearchReplaceResponse) -> (r: Option<Vec<FlatValue>>)
        requires
            rows_ok(old(self)@.nodes),
            old(self)@.is_sub_table ==> old(self)@.parent_depth < u8::MAX,
        ensures
            r is None <==> pattern_fails(old(self)@.nodes, search_replace_response),
            r is None ==> final(self)@ == old(self)@,
            r matches Some(v) ==> replace_result(old(self)@, search_replace_response, final(self)@, v@),
    {
        if !pattern_works(self.nodes.as_slice(), &search_replace_response) {
            return None;
        }
        Some(self.replace_columns(search_replace_response))
    }

    /// Drops the filters of the named columns.
    fn drop_filters(&mut self, columns: &Vec<Column>)
        ensures
            final(self)@ == (ArrayTableView {
                columns_filter: filters_without(old(self)@.columns_filter, Some(*columns)),
                ..old(self)@
            }),
    {
        proof {
            use_type_invariant(&*self);
        }
        let ghost f = self.columns_filter@;
        let ghost names = cvs(columns@);
        let mut filters: Vec<(String, Vec<String>)> = Vec::new();
        std::mem::swap(&mut filters, &mut self.columns_filter);
        let mut kept: Vec<(String, Vec<String>)> = Vec::new();
        let ghost mut k: int = 0;
        proof {
            assert(f.take(0).filter(|p: (String, Vec<String>)| !has_name(names, p.0@)) =~= seq![]);
            assert(f.skip(0) =~= f);
        }
        while filters.len() > 0
            invariant
                0 <= k <= f.len(),
                filters@ == f.skip(k),
                names == cvs(columns@),
                distinct_keys(filters_view(f)),
                kept@ == f.take(k).filter(|p: (String, Vec<String>)| !has_name(names, p.0@)),
                forall|a: int| 0 <= a < kept@.len() ==> exists|j: int| 0 <= j < k && #[trigger] kept@[a] == f[j],
                distinct_keys(filters_view(kept@)),
            decreases filters@.len(),
        {
            let pair = filters.remove(0);
            proof {
                assert(pair == f[k]);
                assert(f.skip(k).remove(0) =~= f.skip(k + 1));
                assert(f.take(k + 1) =~= f.take(k).push(f[k]));
                lemma_filter_push(f.take(k), |p: (String, Vec<String>)| !has_name(names, p.0@), f[k]);
            }
            if !contains_name(columns, pair.0.as_str()) {
                let ghost before = kept@;
                kept.push(pair);
                proof {
                    assert(kept@ =~= before.push(f[k]));
                    assert forall|a: int| 0 <= a < kept@.len() implies exists|j: int| 0 <= j < k + 1 && #[trigger] kept@[a] == f[j] by {
                        if a < before.len() {
                            let j = choose|j: int| 0 <= j < k && before[a] == f[j];
                            assert(kept@[a] == f[j]);
                        } else {
                            assert(kept@[a] == f[k]);
                        }
                    }
                    assert forall|a: int, b: int| 0 <= a < b < filters_view(kept@).len() implies (#[trigger] filters_view(kept@)[a]).0
                        != (#[trigger] filters_view(kept@)[b]).0 by {
                        if b == before.len() {
                            let j = choose|j: int| 0 <= j < k && before[a] == f[j];
                            assert(filters_view(f)[j].0 != filters_view(f)[k].0);
                        } else {
                            assert(filters_view(before)[a] == filters_view(kept@)[a]);
                            assert(filters_view(before)[b] == filters_view(kept@)[b]);
                        }
                    }
                }
            }
            proof {
                k = k + 1;
            }
        }
        proof {
            assert(f.take(k) =~= f);
        }
        self.columns_filter = kept;
    }
}

proof fn lemma_reported_prefix(
    a: Seq<Seq<RowView>>,
    b: Seq<Seq<RowView>>,
    occ: Seq<(FlatValueView, usize)>,
    sub: bool,
    parent: Seq<char>,
    n: nat,
    pd: u8,
    k: nat,
)
    requires
        k < a.len() <= b.len(),
        forall|m: int| 0 <= m <= k ==> a[m] == b[m],
    ensures
        reported_in_turn(a, occ, sub, parent, n, pd, k) == reported_in_turn(b, occ, sub, parent, n, pd, k),
    decreases k,
{
    if k > 0 {
        lemma_reported_prefix(a, b, occ, sub, parent, n, pd, (k - 1) as nat);
    }
}

} // verus!
