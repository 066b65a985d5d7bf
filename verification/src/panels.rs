//! The find-and-replace window's state: the columns it offers, those the
//! user selected, the text to look for and the text to put instead, and
//! how the text is matched.  Each user action is a method from the state to
//! the next state, or to the request that the window hands to the table.
use vstd::prelude::*;
use crate::table::lemma_filter_push;
use crate::model::decimal;
use crate::replace::{ReplaceMode, SearchReplaceResponse};
use crate::rows::{Column, ColumnView, cv, cvs, text_of};
use crate::table::{clone_column, contains_name, has_name};
use crate::text::{concat2, str_eq, usize_text};

verus! {

/// What the window holds, as plain values.
pub struct PanelView {
    pub search_criteria: Seq<char>,
    pub replace_value: Seq<char>,
    pub selected: Seq<ColumnView>,
    pub columns: Seq<ColumnView>,
    pub mode: ReplaceMode,
    pub title: Option<Seq<char>>,
}

/// The find-and-replace window.
pub struct SearchReplacePanel {
    search_criteria: String,
    replace_value: String,
    selected_columns: Vec<Column>,
    columns: Vec<Column>,
    replace_mode: ReplaceMode,
    title: Option<String>,
}

impl View for SearchReplacePanel {
    type V = PanelView;

    closed spec fn view(&self) -> PanelView {
        PanelView {
            search_criteria: self.search_criteria@,
            replace_value: self.replace_value@,
            selected: cvs(self.selected_columns@),
            columns: cvs(self.columns@),
            mode: self.replace_mode,
            title: text_of(self.title),
        }
    }
}

/// The two buttons that send a request.
#[derive(PartialEq, Eq, Structural, Debug, Clone, Copy)]
pub enum PanelButton {
    /// "Replace all": put the replacement text in place of each match.
    ReplaceAll,
    /// "Set to null": set each matching value to `null`.
    SetToNull,
}

/// Values of this column can be replaced: it holds neither arrays nor
/// objects.
pub open spec fn replaceable(c: ColumnView) -> bool {
    !(c.value_type is Array || c.value_type is Object)
}

/// The window lists this column as one to choose: it can be replaced and
/// it has a name.
pub open spec fn offered(c: ColumnView) -> bool {
    replaceable(c) && c.name.len() > 0
}

/// The selection after a click on the box of column `c`: without the
/// columns of that name if it was checked, with `c` added at the end if it
/// was not.
pub open spec fn toggled_selection(selected: Seq<ColumnView>, c: ColumnView) -> Seq<ColumnView> {
    if has_name(selected, c.name) {
        selected.filter(|s: ColumnView| s.name != c.name)
    } else {
        selected.push(c)
    }
}

/// The mode after a click on the button of mode `clicked`: a click on the
/// mode in use goes back to the default mode.
pub open spec fn toggled_mode(current: ReplaceMode, clicked: ReplaceMode) -> ReplaceMode {
    if current == clicked {
        ReplaceMode::Simple
    } else {
        clicked
    }
}

/// The names, separated by a comma and a space.
pub open spec fn joined(names: Seq<Seq<char>>) -> Seq<char>
    decreases names.len(),
{
    if names.len() == 0 {
        seq![]
    } else if names.len() == 1 {
        names[0]
    } else {
        joined(names.drop_last()) + ", "@ + names.last()
    }
}

/// The text of the button that opens the list of columns.
pub open spec fn selection_label(selected: Seq<ColumnView>) -> Seq<char> {
    if selected.len() == 0 {
        "no column selected"@
    } else if selected.len() > 5 {
        decimal(selected.len()) + " columns selected"@
    } else {
        joined(selected.map_values(|c: ColumnView| c.name))
    }
}

/// A button sends a request: "Replace all" once a column is selected, "Set
/// to null" while the replacement text is empty.
pub open spec fn enabled(v: PanelView, button: PanelButton) -> bool {
    match button {
        PanelButton::ReplaceAll => v.selected.len() > 0,
        PanelButton::SetToNull => v.replace_value.len() == 0,
    }
}

/// Copies of the columns, in order.
pub fn clone_columns(columns: &Vec<Column>) -> (r: Vec<Column>)
    ensures
        cvs(r@) == cvs(columns@),
{
    let mut r: Vec<Column> = Vec::new();
    let mut k: usize = 0;
    while k < columns.len()
        invariant
            k <= columns@.len(),
            cvs(r@) == cvs(columns@).take(k as int),
        decreases columns@.len() - k,
    {
        let ghost before = r@;
        r.push(clone_column(&columns[k]));
        k += 1;
        proof {
            assert(cvs(r@) =~= cvs(before).push(cv(columns@[k - 1])));
            assert(cvs(columns@).take(k as int) =~= cvs(columns@).take(k - 1).push(cv(columns@[k - 1])));
        }
    }
    proof {
        assert(cvs(columns@).take(columns@.len() as int) =~= cvs(columns@));
    }
    r
}

impl Default for SearchReplacePanel {
    fn default() -> (r: Self)
        ensures
            r@ == (PanelView {
                search_criteria: seq![],
                replace_value: seq![],
                selected: seq![],
                columns: seq![],
                mode: ReplaceMode::Simple,
                title: None,
            }),
    {
        let r = SearchReplacePanel {
            search_criteria: String::new(),
            replace_value: String::new(),
            selected_columns: Vec::new(),
            columns: Vec::new(),
            replace_mode: ReplaceMode::Simple,
            title: None,
        };
        proof {
            assert(cvs(r.selected_columns@) =~= seq![]);
            assert(cvs(r.columns@) =~= seq![]);
        }
        r
    }
}

impl SearchReplacePanel {
    /// The columns the window can act on.
    pub fn set_columns(&mut self, columns: Vec<Column>)
        ensures
            final(self)@ == (PanelView { columns: cvs(columns@), ..old(self)@ }),
    {
        self.columns = columns;
    }

    /// The window's title, in place of "Replace".
    pub fn set_title(&mut self, title: String)
        ensures
            final(self)@ == (PanelView { title: Some(title@), ..old(self)@ }),
    {
        self.title = Some(title);
    }

    /// Selects this column alone.
    pub fn set_select_column(&mut self, selected_column: Column)
        ensures
            final(self)@ == (PanelView { selected: seq![cv(selected_column)], ..old(self)@ }),
    {
        self.selected_columns = vec![selected_column];
        proof {
            assert(cvs(self.selected_columns@) =~= seq![cv(selected_column)]);
        }
    }

    /// The text to look for, as typed.
    pub fn set_search_criteria(&mut self, text: String)
        ensures
            final(self)@ == (PanelView { search_criteria: text@, ..old(self)@ }),
    {
        self.search_criteria = text;
    }

    /// The text to put instead, as typed.
    pub fn set_replace_value(&mut self, text: String)
        ensures
            final(self)@ == (PanelView { replace_value: text@, ..old(self)@ }),
    {
        self.replace_value = text;
    }

    /// Values of this column can be replaced: it holds neither arrays nor
    /// objects.
    pub fn can_be_replaced(c: &Column) -> (r: bool)
        ensures
            r == replaceable(cv(*c)),
    {
        match c.value_type {
            crate::rows::FlatType::Array(_) => false,
            crate::rows::FlatType::Object(_, _) => false,
            _ => true,
        }
    }

    /// The title the window shows.
    pub fn window_title(&self) -> (r: &str)
        ensures
            r@ == match self@.title {
                Some(t) => t,
                None => "Replace"@,
            },
    {
        match &self.title {
            Some(t) => t.as_str(),
            None => "Replace",
        }
    }

    /// The columns listed to choose from, in order.
    pub fn offered_columns(&self) -> (r: Vec<Column>)
        ensures
            cvs(r@) == self@.columns.filter(|c: ColumnView| offered(c)),
    {
        let ghost all = cvs(self.columns@);
        let mut r: Vec<Column> = Vec::new();
        let mut k: usize = 0;
        proof {
            assert(all.take(0).filter(|c: ColumnView| offered(c)) =~= seq![]);
            assert(cvs(r@) =~= seq![]);
        }
        while k < self.columns.len()
            invariant
                k <= self.columns@.len(),
                all == cvs(self.columns@),
                cvs(r@) == all.take(k as int).filter(|c: ColumnView| offered(c)),
            decreases self.columns@.len() - k,
        {
            let c = &self.columns[k];
            proof {
                assert(all.take(k + 1) =~= all.take(k as int).push(all[k as int]));
                lemma_filter_push(all.take(k as int), |c: ColumnView| offered(c), all[k as int]);
            }
            if Self::can_be_replaced(c) && !c.name.as_str().is_empty() {
                let ghost before = r@;
                r.push(clone_column(c));
                proof {
                    assert(cvs(r@) =~= cvs(before).push(cv(r@.last())));
                }
            }
            k += 1;
        }
        proof {
            assert(all.take(self.columns@.len() as int) =~= all);
        }
        r
    }

    /// A selected column has the name of `column`.
    pub fn is_checked(&self, column: &Column) -> (r: bool)
        ensures
            r == has_name(self@.selected, column.name@),
    {
        contains_name(&self.selected_columns, column.name.as_str())
    }

    /// A click on the box of `column`: unchecks it (drops the selected
    /// columns of its name) if it was checked, checks it otherwise.
    pub fn toggle_column(&mut self, column: &Column)
        ensures
            final(self)@ == (PanelView { selected: toggled_selection(old(self)@.selected, cv(*column)), ..old(self)@ }),
    {
        let ghost sel = self@.selected;
        if self.is_checked(column) {
            let mut kept: Vec<Column> = Vec::new();
            let mut k: usize = 0;
            proof {
                assert(sel.take(0).filter(|s: ColumnView| s.name != column.name@) =~= seq![]);
                assert(cvs(kept@) =~= seq![]);
            }
            while k < self.selected_columns.len()
                invariant
                    k <= self.selected_columns@.len(),
                    sel == cvs(self.selected_columns@),
                    cvs(kept@) == sel.take(k as int).filter(|s: ColumnView| s.name != column.name@),
                decreases self.selected_columns@.len() - k,
            {
                proof {
                    assert(sel.take(k + 1) =~= sel.take(k as int).push(sel[k as int]));
                    lemma_filter_push(sel.take(k as int), |s: ColumnView| s.name != column.name@, sel[k as int]);
                }
                if !str_eq(self.selected_columns[k].name.as_str(), column.name.as_str()) {
                    let ghost before = kept@;
                    kept.push(clone_column(&self.selected_columns[k]));
                    proof {
                        assert(cvs(kept@) =~= cvs(before).push(cv(kept@.last())));
                    }
                }
                k += 1;
            }
            proof {
                assert(sel.take(self.selected_columns@.len() as int) =~= sel);
            }
            self.selected_columns = kept;
        } else {
            let ghost before = self.selected_columns@;
            self.selected_columns.push(clone_column(column));
            proof {
                assert(cvs(self.selected_columns@) =~= cvs(before).push(cv(*column)));
            }
        }
    }

    /// A click on the button of mode `mode`: turns it on, or back to the
    /// default mode if it was on.
    pub fn toggle_mode(&mut self, mode: ReplaceMode)
        ensures
            final(self)@ == (PanelView { mode: toggled_mode(old(self)@.mode, mode), ..old(self)@ }),
    {
        if self.replace_mode == mode {
            self.replace_mode = ReplaceMode::Simple;
        } else {
            self.replace_mode = mode;
        }
    }

    /// The text of the button that opens the list of columns: how many
    /// columns are selected when more than five, their names otherwise.
    pub fn selection_label(&self) -> (r: String)
        ensures
            r@ == selection_label(self@.selected),
    {
        let n = self.selected_columns.len();
        if n == 0 {
            "no column selected".to_owned()
        } else if n > 5 {
            concat2(usize_text(n).as_str(), " columns selected")
        } else {
            let ghost names = self@.selected.map_values(|c: ColumnView| c.name);
            let mut r = String::new();
            let mut k: usize = 0;
            proof {
                assert(names.take(0) =~= seq![]);
            }
            while k < n
                invariant
                    n == self.selected_columns@.len(),
                    k <= n,
                    names == cvs(self.selected_columns@).map_values(|c: ColumnView| c.name),
                    r@ == joined(names.take(k as int)),
                decreases n - k,
            {
                proof {
                    assert(names.take(k + 1).drop_last() =~= names.take(k as int));
                    assert(names[k as int] == self.selected_columns@[k as int].name@);
                }
                if k > 0 {
                    r.append(", ");
                }
                r.append(self.selected_columns[k].name.as_str());
                k += 1;
                proof {
                    if k == 1 {
                        assert(names.take(1) =~= seq![names[0]]);
                    }
                }
            }
            proof {
                assert(names.take(n as int) =~= names);
            }
            r
        }
    }

    /// A button sends a request: "Replace all" once a column is selected,
    /// "Set to null" while the replacement text is empty.
    pub fn is_enabled(&self, button: PanelButton) -> (r: bool)
        ensures
            r == enabled(self@, button),
    {
        match button {
            PanelButton::ReplaceAll => self.selected_columns.len() > 0,
            PanelButton::SetToNull => self.replace_value.as_str().is_empty(),
        }
    }

    /// A click on `button`: the request the window sends, if the button is
    /// enabled.  "Replace all" puts the replacement text in place of each
    /// match; "Set to null" sets each matching value to `null`.
    pub fn press(&self, button: PanelButton) -> (r: Option<SearchReplaceResponse>)
        ensures
            r is Some <==> enabled(self@, button),
            r matches Some(resp) ==> {
                &&& resp.search_criteria@ == self@.search_criteria
                &&& text_of(resp.replace_value) == match button {
                    PanelButton::ReplaceAll => Some(self@.replace_value),
                    PanelButton::SetToNull => None,
                }
                &&& resp.selected_column matches Some(cols) && cvs(cols@) == self@.selected
                &&& resp.replace_mode == self@.mode
            },
    {
        if !self.is_enabled(button) {
            return None;
        }
        let replace_value = match button {
            PanelButton::ReplaceAll => Some(self.replace_value.clone()),
            PanelButton::SetToNull => None,
        };
        Some(SearchReplaceResponse {
            search_criteria: self.search_criteria.clone(),
            replace_value,
            selected_column: Some(clone_columns(&self.selected_columns)),
            replace_mode: self.replace_mode,
        })
    }
}

/// Law: checking a column that was not checked, then clicking its box
/// again, gives back the selection.
pub proof fn law_toggle_column_twice(selected: Seq<ColumnView>, c: ColumnView)
    requires
        !has_name(selected, c.name),
    ensures
        toggled_selection(toggled_selection(selected, c), c) == selected,
{
    let once = selected.push(c);
    assert(once[selected.len() as int].name == c.name);
    assert(has_name(once, c.name));
    let keep = |s: ColumnView| s.name != c.name;
    lemma_filter_push(selected, keep, c);
    lemma_filter_all(selected, keep);
}

/// Law: a click on the button of a mode that is off, then a second click on
/// it, goes back to the default mode.
pub proof fn law_toggle_mode_twice(current: ReplaceMode, clicked: ReplaceMode)
    requires
        current != clicked,
    ensures
        toggled_mode(toggled_mode(current, clicked), clicked) == ReplaceMode::Simple,
{
}


proof fn lemma_filter_all<A>(s: Seq<A>, p: spec_fn(A) -> bool)
    requires
        forall|i: int| 0 <= i < s.len() ==> p(#[trigger] s[i]),
    ensures
        s.filter(p) == s,
    decreases s.len(),
{
    reveal(Seq::filter);
    if s.len() > 0 {
        lemma_filter_all(s.drop_last(), p);
        assert(s.drop_last().push(s.last()) =~= s);
        lemma_filter_push(s.drop_last(), p, s.last());
    } else {
        assert(s.filter(p) =~= s);
    }
}

} // verus!
