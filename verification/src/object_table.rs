//! A JSON object shown as a table of two columns: the pointer of each
//! value and the value.  The user edits a value, pastes over it or copies
//! it; an edit inside an array hands back the whole array, written again as
//! JSON text.
use vstd::prelude::*;
use crate::table::lemma_filter_push;
use crate::model::is_prefix;
use crate::rows::{FlatPointer, FlatType, FlatValue, FlatValueView, fv, fvs, text_of};
use crate::table::{CellLocation, lemma_view_at, lemma_view_at_fvs, opt_text_eq, position_of, view_at};
use crate::replace::clone_pointer;
use crate::text::str_starts_with;
use crate::flat_json::{array_marker, row_compact_text, row_json_text, serializer_safe, serializer_safe_check};

verus! {

/// The table's state, as plain values.
pub struct ObjectTableView {
    pub nodes: Seq<FlatValueView>,
    pub filtered_nodes: Seq<usize>,
    pub arrays: Seq<FlatValueView>,
    pub editing_index: Option<usize>,
    pub editing_value: Seq<char>,
    pub focused_cell: Option<CellLocation>,
}

/// The values of an object, one row each.
pub struct ObjectTable {
    nodes: Vec<FlatValue>,
    filtered_nodes: Vec<usize>,
    arrays: Vec<FlatValue>,
    editing_index: Option<usize>,
    editing_value: String,
    focused_cell: Option<CellLocation>,
}

impl View for ObjectTable {
    type V = ObjectTableView;

    closed spec fn view(&self) -> ObjectTableView {
        ObjectTableView {
            nodes: fvs(self.nodes@),
            filtered_nodes: self.filtered_nodes@,
            arrays: fvs(self.arrays@),
            editing_index: self.editing_index,
            editing_value: self.editing_value@,
            focused_cell: self.focused_cell,
        }
    }
}

/// An array or an object: shown through its members, not as a row.
pub open spec fn is_container(t: FlatType) -> bool {
    t is Array || t is Object
}

/// The positions of the values that are neither arrays nor objects, in
/// order.
pub open spec fn scalar_positions(nodes: Seq<FlatValueView>) -> Seq<usize>
    decreases nodes.len(),
{
    if nodes.len() == 0 {
        seq![]
    } else {
        let r = scalar_positions(nodes.drop_last());
        if is_container(nodes.last().value_type) {
            r
        } else {
            r.push((nodes.len() - 1) as usize)
        }
    }
}

/// The arrays among the values, in order.
pub open spec fn arrays_of(nodes: Seq<FlatValueView>) -> Seq<FlatValueView> {
    nodes.filter(|e: FlatValueView| e.value_type is Array)
}

/// The value typed in a cell: empty text stands for no value.
pub open spec fn entered(text: Seq<char>) -> Option<Seq<char>> {
    if text.len() == 0 {
        None
    } else {
        Some(text)
    }
}

/// The values after writing `u` at row `row_index`, and whether a value
/// changed.  A row that exists takes the new value when it differs; past
/// the last row, a value is inserted before the last entry (the object
/// itself).
pub open spec fn written(nodes: Seq<FlatValueView>, u: FlatValueView, row_index: int) -> (Seq<FlatValueView>, bool) {
    if 0 <= row_index < nodes.len() {
        if nodes[row_index].value != u.value {
            (nodes.update(row_index, FlatValueView { value: u.value, ..nodes[row_index] }), true)
        } else {
            (nodes, false)
        }
    } else if u.value is Some {
        (nodes.insert(nodes.len() - 1, u), true)
    } else {
        (nodes, false)
    }
}

/// The first array whose pointer starts `pointer`: the array an edited
/// value belongs to.
pub open spec fn parent_array(arrays: Seq<FlatValueView>, pointer: Seq<char>) -> Option<int>
    decreases arrays.len(),
{
    if arrays.len() == 0 {
        None
    } else if is_prefix(arrays[0].pointer, pointer) {
        Some(0)
    } else {
        match parent_array(arrays.drop_first(), pointer) {
            Some(k) => Some(k + 1),
            None => None,
        }
    }
}

/// The view of a value with pointer `p` and value `value`.
pub open spec fn value_view(p: FlatPointer, value: Option<Seq<char>>) -> FlatValueView {
    FlatValueView {
        pointer: p.pointer@,
        value_type: p.value_type,
        depth: p.depth,
        position: p.position,
        column_id: p.column_id,
        value,
    }
}

proof fn lemma_parent_array(arrays: Seq<FlatValueView>, pointer: Seq<char>)
    ensures
        parent_array(arrays, pointer) matches Some(k) ==> 0 <= k < arrays.len() && is_prefix(arrays[k].pointer, pointer)
            && forall|j: int| 0 <= j < k ==> !is_prefix(#[trigger] arrays[j].pointer, pointer),
        parent_array(arrays, pointer) is None ==> forall|j: int| 0 <= j < arrays.len() ==> !is_prefix(#[trigger] arrays[j].pointer, pointer),
    decreases arrays.len(),
{
    if arrays.len() > 0 && !is_prefix(arrays[0].pointer, pointer) {
        let rest = arrays.drop_first();
        lemma_parent_array(rest, pointer);
        assert forall|j: int| 1 <= j < arrays.len() implies arrays[j] == rest[j - 1] by {}
        if parent_array(rest, pointer) is None {
            assert forall|j: int| 0 <= j < arrays.len() implies !is_prefix(#[trigger] arrays[j].pointer, pointer) by {
                if j > 0 {
                    assert(arrays[j] == rest[j - 1]);
                }
            }
        } else {
            let k = parent_array(rest, pointer)->0;
            assert forall|j: int| 0 <= j < k + 1 implies !is_prefix(#[trigger] arrays[j].pointer, pointer) by {
                if j > 0 {
                    assert(arrays[j] == rest[j - 1]);
                }
            }
        }
    }
}

/// A copy of a value.
pub fn clone_value(e: &FlatValue) -> (r: FlatValue)
    ensures
        fv(r) == fv(*e),
{
    let value = match &e.value {
        Some(v) => Some(v.clone()),
        None => None,
    };
    FlatValue { pointer: clone_pointer(&e.pointer), value }
}

/// Writing `value` at row `row_index` changes the values (see `written`).
pub open spec fn changes(nodes: Seq<FlatValueView>, value: Option<Seq<char>>, row_index: int) -> bool {
    if 0 <= row_index < nodes.len() {
        nodes[row_index].value != value
    } else {
        value is Some
    }
}

/// What writing a value needs to run without panicking: a value inserted
/// past the last row needs a last entry to go before, and the array an
/// edited value belongs to must not be at the deepest depth.
pub open spec fn can_write(t: ObjectTableView, pointer: Seq<char>, value: Option<Seq<char>>, row_index: int) -> bool {
    &&& (row_index >= t.nodes.len() && value is Some ==> t.nodes.len() > 0)
    &&& (changes(t.nodes, value, row_index) && parent_array(t.arrays, pointer) is Some ==> t.arrays[parent_array(
        t.arrays,
        pointer,
    )->0].depth < u8::MAX)
}

/// What writing `u` at row `row_index` answers: whether nothing changed,
/// and the value the table hands back when something did: the array the
/// value belongs to, with its text written again (the text itself is not
/// described here), or else the value itself.
/// The values under an array's pointer `p` (the array's own value too).
pub open spec fn under_pointer(nodes: Seq<FlatValueView>, p: Seq<char>) -> Seq<FlatValueView> {
    nodes.filter(|e: FlatValueView| is_prefix(p, e.pointer))
}

/// The text handed back for array `arr` of the values `nodes`: the JSON text
/// the crate writes for the values under its pointer (`row_compact_text`,
/// the root being an array), where its serializer returns on them
/// (`serializer_safe`); else none.
pub open spec fn array_text(nodes: Seq<FlatValueView>, arr: FlatValueView) -> Option<Seq<char>> {
    let es = under_pointer(nodes, arr.pointer);
    let all = es.push(array_marker(es.len()));
    if serializer_safe(all, arr.pointer, (arr.depth + 1) as u8) {
        Some(row_compact_text(all, (arr.depth + 1) as u8))
    } else {
        None
    }
}

pub open spec fn edit_result(t: ObjectTableView, u: FlatValueView, row_index: int, r: (bool, Option<FlatValue>)) -> bool {
    let changed = written(t.nodes, u, row_index).1;
    &&& r.0 == !changed
    &&& !changed ==> r.1 is None
    &&& changed ==> match parent_array(t.arrays, u.pointer) {
        Some(k) => r.1 matches Some(e) && fv(e).value == array_text(written(t.nodes, u, row_index).0, t.arrays[k])
            && fv(e).pointer == t.arrays[k].pointer
            && e.pointer.value_type == t.arrays[k].value_type && e.pointer.depth == t.arrays[k].depth
            && e.pointer.position == t.arrays[k].position && e.pointer.column_id == t.arrays[k].column_id,
        None => r.1 matches Some(e) && fv(e) == u,
    }
}

impl ObjectTable {
    /// A table of the values of an object: its rows are the values that
    /// are neither arrays nor objects; the arrays are kept aside, to write
    /// back an array whose member changes.
    pub fn new(nodes: Vec<FlatValue>) -> (r: Self)
        ensures
            r@ == (ObjectTableView {
                nodes: fvs(nodes@),
                filtered_nodes: scalar_positions(fvs(nodes@)),
                arrays: arrays_of(fvs(nodes@)),
                editing_index: None,
                editing_value: seq![],
                focused_cell: None,
            }),
    {
        let ghost all = fvs(nodes@);
        let mut filtered_nodes: Vec<usize> = Vec::new();
        let mut arrays: Vec<FlatValue> = Vec::new();
        let mut index: usize = 0;
        proof {
            assert(all.take(0) =~= seq![]);
            assert(arrays_of(all.take(0)) =~= seq![]);
            assert(fvs(arrays@) =~= seq![]);
        }
        while index < nodes.len()
            invariant
                index <= nodes@.len(),
                all == fvs(nodes@),
                filtered_nodes@ == scalar_positions(all.take(index as int)),
                fvs(arrays@) == arrays_of(all.take(index as int)),
            decreases nodes@.len() - index,
        {
            let entry = &nodes[index];
            proof {
                assert(all.take(index + 1).drop_last() =~= all.take(index as int));
                assert(all.take(index + 1) =~= all.take(index as int).push(all[index as int]));
                lemma_filter_push(all.take(index as int), |e: FlatValueView| e.value_type is Array, all[index as int]);
            }
            match entry.pointer.value_type {
                FlatType::Array(_) => {
                    let ghost before = arrays@;
                    arrays.push(clone_value(entry));
                    proof {
                        assert(fvs(arrays@) =~= fvs(before).push(fv(*entry)));
                    }
                },
                FlatType::Object(_, _) => {},
                _ => {
                    filtered_nodes.push(index);
                },
            }
            index += 1;
        }
        proof {
            assert(all.take(nodes@.len() as int) =~= all);
        }
        ObjectTable {
            nodes,
            filtered_nodes,
            arrays,
            editing_index: None,
            editing_value: String::new(),
            focused_cell: None,
        }
    }

    /// The values of the object.
    pub fn nodes(&self) -> (r: &Vec<FlatValue>)
        ensures
            fvs(r@) == self@.nodes,
    {
        &self.nodes
    }

    /// The positions, in `nodes`, of the values shown as rows.
    pub fn filtered_nodes(&self) -> (r: &Vec<usize>)
        ensures
            r@ == self@.filtered_nodes,
    {
        &self.filtered_nodes
    }

    /// Writes the typed `value` (empty: no value) at row `row_index` of the
    /// values (see `written`); a value past the last row takes the pointer
    /// `updated_pointer`.  The first answer tells that nothing changed; the
    /// second is the value to hand back when something did (see
    /// `edit_result`).
    pub fn update_value(&mut self, updated_pointer: FlatPointer, value: String, row_index: usize) -> (r: (bool, Option<FlatValue>))
        requires
            can_write(old(self)@, updated_pointer.pointer@, entered(value@), row_index as int),
        ensures
            final(self)@ == (ObjectTableView {
                nodes: written(old(self)@.nodes, value_view(updated_pointer, entered(value@)), row_index as int).0,
                ..old(self)@
            }),
            edit_result(old(self)@, value_view(updated_pointer, entered(value@)), row_index as int, r),
    {
        let ghost t = self@;
        let ghost u = value_view(updated_pointer, entered(value@));
        let value: Option<String> = if value.as_str().is_empty() {
            None
        } else {
            Some(value)
        };
        let mut value_changed = false;
        if row_index < self.nodes.len() {
            if !opt_text_eq(&self.nodes[row_index].value, &value) {
                let copy = match &value {
                    Some(v) => Some(v.clone()),
                    None => None,
                };
                let ghost before = self.nodes@;
                self.nodes[row_index].value = copy;
                value_changed = true;
                proof {
                    assert(fvs(self.nodes@) =~= written(t.nodes, u, row_index as int).0);
                }
            }
        } else if value.is_some() {
            value_changed = true;
            let copy = match &value {
                Some(v) => Some(v.clone()),
                None => None,
            };
            let at = self.nodes.len() - 1;
            let entry = FlatValue { pointer: clone_pointer(&updated_pointer), value: copy };
            let ghost before = self.nodes@;
            self.nodes.insert(at, entry);
            proof {
                assert(fvs(self.nodes@) =~= fvs(before).insert(at as int, fv(entry)));
            }
        }
        if !value_changed {
            return (true, None);
        }
        proof {
            lemma_parent_array(t.arrays, u.pointer);
        }
        let mut k: usize = 0;
        let mut found: Option<usize> = None;
        while k < self.arrays.len() && found.is_none()
            invariant
                k <= self.arrays@.len(),
                t.arrays == fvs(self.arrays@),
                u.pointer == updated_pointer.pointer@,
                found is None ==> forall|j: int| 0 <= j < k ==> !is_prefix(#[trigger] t.arrays[j].pointer, u.pointer),
                found matches Some(j) ==> j == k && k < t.arrays.len() && is_prefix(t.arrays[j as int].pointer, u.pointer)
                    && forall|m: int| 0 <= m < j ==> !is_prefix(#[trigger] t.arrays[m].pointer, u.pointer),
            decreases self.arrays@.len() - k + if found is None { 1int } else { 0int },
        {
            if str_starts_with(updated_pointer.pointer.as_str(), self.arrays[k].pointer.pointer.as_str()) {
                found = Some(k);
            } else {
                k += 1;
            }
        }
        match found {
            Some(k) => {
                proof {
                    let p = parent_array(t.arrays, u.pointer);
                    if p is None {
                        assert(!is_prefix(t.arrays[k as int].pointer, u.pointer));
                    } else {
                        let q = p->0;
                        if q < k {
                            assert(!is_prefix(t.arrays[q].pointer, u.pointer));
                        } else if q > k {
                            assert(!is_prefix(t.arrays[k as int].pointer, u.pointer));
                        }
                    }
                }
                let depth = self.arrays[k].pointer.depth;
                let mut entries: Vec<FlatValue> = Vec::new();
                let ghost ns = fvs(self.nodes@);
                let ghost ap = t.arrays[k as int].pointer;
                let ghost pred = |e: FlatValueView| is_prefix(ap, e.pointer);
                proof {
                    assert(ns.take(0) =~= seq![]);
                    assert(ns.take(0).filter(pred) =~= seq![]) by {
                        reveal(Seq::filter);
                    }
                }
                let mut i: usize = 0;
                while i < self.nodes.len()
                    invariant
                        i <= self.nodes@.len(),
                        k < self.arrays@.len(),
                        ns == fvs(self.nodes@),
                        t.arrays == fvs(self.arrays@),
                        ap == t.arrays[k as int].pointer,
                        pred == (|e: FlatValueView| is_prefix(ap, e.pointer)),
                        fvs(entries@) == ns.take(i as int).filter(pred),
                    decreases self.nodes@.len() - i,
                {
                    proof {
                        assert(ns.take(i + 1int) =~= ns.take(i as int).push(ns[i as int]));
                        lemma_filter_push(ns.take(i as int), pred, ns[i as int]);
                    }
                    if str_starts_with(self.nodes[i].pointer.pointer.as_str(), self.arrays[k].pointer.pointer.as_str()) {
                        let ghost before = entries@;
                        let c = clone_value(&self.nodes[i]);
                        entries.push(c);
                        proof {
                            assert(fvs(entries@) =~= fvs(before).push(fv(c)));
                        }
                    }
                    i += 1;
                }
                proof {
                    assert(ns.take(ns.len() as int) =~= ns);
                }
                let n = entries.len();
                let ghost es = fvs(entries@);
                let marker = FlatValue {
                    pointer: FlatPointer { pointer: String::new(), value_type: FlatType::Array(n), depth: 0, position: 0, column_id: 0 },
                    value: None,
                };
                entries.push(marker);
                proof {
                    assert(fvs(entries@) =~= es.push(fv(marker)));
                    assert(fv(marker) == array_marker(es.len()));
                }
                let text = if serializer_safe_check(&entries, self.arrays[k].pointer.pointer.as_str(), depth + 1) {
                    Some(row_json_text(&entries, depth + 1))
                } else {
                    None
                };
                (false, Some(FlatValue { pointer: clone_pointer(&self.arrays[k].pointer), value: text }))
            },
            None => {
                proof {
                    if parent_array(t.arrays, u.pointer) is Some {
                        let q = parent_array(t.arrays, u.pointer)->0;
                        assert(!is_prefix(t.arrays[q].pointer, u.pointer));
                    }
                }
                (false, Some(FlatValue { pointer: updated_pointer, value }))
            },
        }
    }
}

impl ObjectTable {
    /// A double click on the value of shown row `table_row_index`: starts
    /// editing it, from its text (empty for no value).
    pub fn start_editing(&mut self, table_row_index: usize)
        requires
            table_row_index < old(self)@.filtered_nodes.len(),
            old(self)@.filtered_nodes[table_row_index as int] < old(self)@.nodes.len(),
        ensures
            ({
                let row_index = old(self)@.filtered_nodes[table_row_index as int];
                final(self)@ == (ObjectTableView {
                    editing_index: Some(row_index),
                    editing_value: match old(self)@.nodes[row_index as int].value {
                        Some(v) => v,
                        None => seq![],
                    },
                    ..old(self)@
                })
            }),
    {
        let row_index = self.filtered_nodes[table_row_index];
        self.editing_value = match &self.nodes[row_index].value {
            Some(v) => v.clone(),
            None => String::new(),
        };
        self.editing_index = Some(row_index);
    }

    /// The text being edited, as typed.
    pub fn set_editing_value(&mut self, text: String)
        ensures
            final(self)@ == (ObjectTableView { editing_value: text@, ..old(self)@ }),
    {
        self.editing_value = text;
    }

    /// The edit ends (the field lost focus, or Enter was pressed): the typed
    /// text is written at the edited row, under that row's pointer (see
    /// `update_value`).  Nothing happens when no value is being edited.
    pub fn commit_edit(&mut self) -> (r: Option<(bool, Option<FlatValue>)>)
        requires
            old(self)@.editing_index matches Some(i) ==> i < old(self)@.nodes.len() && can_write(
                old(self)@,
                old(self)@.nodes[i as int].pointer,
                entered(old(self)@.editing_value),
                i as int,
            ),
        ensures
            old(self)@.editing_index is None ==> r is None && final(self)@ == old(self)@,
            old(self)@.editing_index matches Some(i) ==> {
                let t = ObjectTableView { editing_index: None, editing_value: seq![], ..old(self)@ };
                let u = FlatValueView { value: entered(old(self)@.editing_value), ..old(self)@.nodes[i as int] };
                &&& r matches Some(res) && edit_result(t, u, i as int, res)
                &&& final(self)@ == (ObjectTableView { nodes: written(t.nodes, u, i as int).0, ..t })
            },
    {
        match self.editing_index {
            None => None,
            Some(row_index) => {
                let pointer = clone_pointer(&self.nodes[row_index].pointer);
                let mut value = String::new();
                std::mem::swap(&mut value, &mut self.editing_value);
                self.editing_index = None;
                Some(self.update_value(pointer, value, row_index))
            },
        }
    }

    /// Text pasted on the value of shown row `table_row_index`: written
    /// there (see `update_value`).
    pub fn paste(&mut self, table_row_index: usize, text: String) -> (r: (bool, Option<FlatValue>))
        requires
            table_row_index < old(self)@.filtered_nodes.len(),
            old(self)@.filtered_nodes[table_row_index as int] < old(self)@.nodes.len(),
            can_write(
                old(self)@,
                old(self)@.nodes[old(self)@.filtered_nodes[table_row_index as int] as int].pointer,
                entered(text@),
                old(self)@.filtered_nodes[table_row_index as int] as int,
            ),
        ensures
            ({
                let i = old(self)@.filtered_nodes[table_row_index as int] as int;
                let u = FlatValueView { value: entered(text@), ..old(self)@.nodes[i] };
                &&& edit_result(old(self)@, u, i, r)
                &&& final(self)@ == (ObjectTableView { nodes: written(old(self)@.nodes, u, i).0, ..old(self)@ })
            }),
    {
        let row_index = self.filtered_nodes[table_row_index];
        let pointer = clone_pointer(&self.nodes[row_index].pointer);
        self.update_value(pointer, text, row_index)
    }

    /// The text copied from the value of shown row `table_row_index`; none
    /// for a row without a value.
    pub fn copy(&self, table_row_index: usize) -> (r: Option<String>)
        requires
            table_row_index < self@.filtered_nodes.len(),
            self@.filtered_nodes[table_row_index as int] < self@.nodes.len(),
        ensures
            text_of(r) == self@.nodes[self@.filtered_nodes[table_row_index as int] as int].value,
    {
        let row_index = self.filtered_nodes[table_row_index];
        match &self.nodes[row_index].value {
            Some(v) => Some(v.clone()),
            None => None,
        }
    }

    /// The context menu of shown row `table_row_index` opened: its value
    /// cell is focused.
    pub fn focus_value(&mut self, table_row_index: usize)
        ensures
            final(self)@ == (ObjectTableView {
                focused_cell: Some(CellLocation { row_index: table_row_index, column_index: 1, is_pinned_column_table: false }),
                ..old(self)@
            }),
    {
        self.focused_cell = Some(CellLocation { row_index: table_row_index, column_index: 1, is_pinned_column_table: false });
    }

    /// The context menu of shown row `table_row_index` is closed: the focus
    /// leaves the row, if it was there.
    pub fn menu_closed(&mut self, table_row_index: usize)
        ensures
            final(self)@ == (ObjectTableView {
                focused_cell: match old(self)@.focused_cell {
                    Some(c) => if c.row_index == table_row_index {
                        None
                    } else {
                        Some(c)
                    },
                    None => None,
                },
                ..old(self)@
            }),
    {
        if let Some(c) = self.focused_cell {
            if c.row_index == table_row_index {
                self.focused_cell = None;
            }
        }
    }
}

/// The values after `u` was set: the first value at its pointer takes its
/// value; without one, `u` is added at the end.
pub open spec fn entry_set(s: Seq<FlatValueView>, u: FlatValueView) -> Seq<FlatValueView> {
    match view_at(s, u.pointer) {
        Some(k) => s.update(k, FlatValueView { value: u.value, ..s[k] }),
        None => s.push(u),
    }
}

/// Sets the value at `pointer` (see `entry_set`).
pub fn set_entry_value(entries: &mut Vec<FlatValue>, pointer: FlatPointer, value: Option<String>)
    ensures
        fvs(final(entries)@) == entry_set(fvs(old(entries)@), value_view(pointer, text_of(value))),
{
    let ghost s = fvs(entries@);
    proof {
        lemma_view_at(s, pointer.pointer@);
        lemma_view_at_fvs(entries@, pointer.pointer@);
    }
    match position_of(entries, pointer.pointer.as_str()) {
        Some(k) => {
            entries[k].value = value;
            proof {
                assert(fvs(entries@) =~= entry_set(s, value_view(pointer, text_of(value))));
            }
        },
        None => {
            let entry = FlatValue { pointer, value };
            entries.push(entry);
            proof {
                assert(fvs(entries@) =~= s.push(fv(entry)));
            }
        },
    }
}

impl ObjectTable {
    /// A value of the object changed elsewhere: it is set here too (see
    /// `entry_set`).
    pub fn set_entry(&mut self, pointer: FlatPointer, value: Option<String>)
        ensures
            final(self)@ == (ObjectTableView {
                nodes: entry_set(old(self)@.nodes, value_view(pointer, text_of(value))),
                ..old(self)@
            }),
    {
        set_entry_value(&mut self.nodes, pointer, value);
    }
}


} // verus!
