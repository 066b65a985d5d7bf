//! A window opened on a nested array or object of a row: a table of the
//! array's elements, or of the object's values, and the row it belongs to.
use vstd::prelude::*;
use crate::array_table::{ArrayTable, ArrayTableView};
use crate::object_table::{ObjectTable, ObjectTableView, arrays_of, entry_set, scalar_positions, value_view};
use crate::rows::{FlatParse, FlatPointer, FlatType, as_array, as_array_ok, as_array_spec, fvs, rvs, text_of};

verus! {

/// A nested window's state, as plain values.
pub struct SubTableView {
    pub name: Seq<char>,
    pub array_table: Option<ArrayTableView>,
    pub object_table: Option<ObjectTableView>,
    pub row_index: usize,
}

/// The table of a nested window.
pub enum NestedTable {
    /// The elements of a nested array.
    Array(ArrayTable),
    /// The values of a nested object.
    Object(ObjectTable),
}

/// A window on a nested value of row `row_index`.
pub struct SubTable {
    name: String,
    table: NestedTable,
    row_index: usize,
}

impl View for SubTable {
    type V = SubTableView;

    closed spec fn view(&self) -> SubTableView {
        SubTableView {
            name: self.name@,
            array_table: match self.table {
                NestedTable::Array(t) => Some(t@),
                NestedTable::Object(_) => None,
            },
            object_table: match self.table {
                NestedTable::Array(_) => None,
                NestedTable::Object(t) => Some(t@),
            },
            row_index: self.row_index,
        }
    }
}

/// The depth a nested array's table is parsed to and shown at.
pub open spec fn nested_depth() -> u8 {
    10
}

impl SubTable {
    /// A window on the value at `parent_pointer` of row
    /// `index_in_json_entries_array`, from the value's flattened content
    /// `parsed`: an array shows as a nested table of its elements (see
    /// `as_array`), shown down to depth 10; any other value as a table of
    /// its values (see `ObjectTable::new`).  The error is the one
    /// `as_array` gives.
    pub fn from_parse(
        parent_pointer: FlatPointer,
        parsed: FlatParse,
        parent_value_type: FlatType,
        index_in_json_entries_array: usize,
    ) -> (r: Result<SubTable, String>)
        requires
            parent_value_type is Array ==> as_array_ok(parsed),
        ensures
            parent_value_type is Array ==> match (r, as_array_spec(parsed)) {
                (Ok(t), Ok((rows, columns))) => {
                    &&& t@.name == parent_pointer.pointer@
                    &&& t@.row_index == index_in_json_entries_array
                    &&& t@.object_table is None
                    &&& t@.array_table matches Some(a) && rvs(a.nodes) == rows && a == (ArrayTableView {
                        is_sub_table: true,
                        ..ArrayTable::initial(
                            None,
                            a.nodes,
                            columns,
                            nested_depth(),
                            parent_pointer.pointer@,
                            parent_pointer.depth,
                        )
                    })
                },
                (Err(e), Err(m)) => e@ == m,
                _ => false,
            },
            !(parent_value_type is Array) ==> (r matches Ok(t) && t@ == (SubTableView {
                name: parent_pointer.pointer@,
                array_table: None,
                object_table: Some(
                    ObjectTableView {
                        nodes: fvs(parsed.json@),
                        filtered_nodes: scalar_positions(fvs(parsed.json@)),
                        arrays: arrays_of(fvs(parsed.json@)),
                        editing_index: None,
                        editing_value: seq![],
                        focused_cell: None,
                    },
                ),
                row_index: index_in_json_entries_array,
            })),
    {
        let name = parent_pointer.pointer.clone();
        match parent_value_type {
            FlatType::Array(_) => {
                match as_array(parsed) {
                    Ok((nodes, columns)) => {
                        let mut array_table = ArrayTable::new(None, nodes, columns, 10, parent_pointer);
                        array_table.set_sub_table(true);
                        Ok(SubTable { name, table: NestedTable::Array(array_table), row_index: index_in_json_entries_array })
                    },
                    Err(e) => Err(e),
                }
            },
            _ => {
                let object_table = ObjectTable::new(parsed.json);
                Ok(SubTable { name, table: NestedTable::Object(object_table), row_index: index_in_json_entries_array })
            },
        }
    }

    /// The pointer of the value the window shows.
    pub fn name(&self) -> (r: &String)
        ensures
            r@ == self@.name,
    {
        &self.name
    }

    /// The row the window belongs to.
    pub fn id(&self) -> (r: usize)
        ensures
            r == self@.row_index,
    {
        self.row_index
    }

    /// The table of the array's elements, for a window on an array.
    pub fn array_table(&self) -> (r: Option<&ArrayTable>)
        ensures
            match (r, self@.array_table) {
                (Some(t), Some(v)) => t@ == v,
                (None, None) => true,
                _ => false,
            },
    {
        match &self.table {
            NestedTable::Array(t) => Some(t),
            NestedTable::Object(_) => None,
        }
    }

    /// The table of the object's values, for a window on an object.
    pub fn object_table(&self) -> (r: Option<&ObjectTable>)
        ensures
            match (r, self@.object_table) {
                (Some(t), Some(v)) => t@ == v,
                (None, None) => true,
                _ => false,
            },
    {
        match &self.table {
            NestedTable::Array(_) => None,
            NestedTable::Object(t) => Some(t),
        }
    }

    /// A value of the row changed in the parent table: it is set in the
    /// window's table too (see `entry_set`): in row `row_index` of a nested
    /// array's table, or among the object's values.
    pub fn update_nodes(&mut self, pointer: FlatPointer, value: Option<String>)
        requires
            old(self)@.array_table matches Some(a) ==> old(self)@.row_index < a.nodes.len(),
        ensures
            final(self)@.name == old(self)@.name,
            final(self)@.row_index == old(self)@.row_index,
            old(self)@.array_table is Some ==> {
                let a = old(self)@.array_table->0;
                &&& final(self)@.object_table == old(self)@.object_table
                &&& final(self)@.array_table matches Some(b) && {
                    let i = old(self)@.row_index as int;
                    &&& b == (ArrayTableView { nodes: b.nodes, ..a })
                    &&& b.nodes.len() == a.nodes.len()
                    &&& forall|j: int| 0 <= j < a.nodes.len() && j != i ==> b.nodes[j] == a.nodes[j]
                    &&& b.nodes[i].index == a.nodes[i].index
                    &&& fvs(b.nodes[i].entries@) == entry_set(fvs(a.nodes[i].entries@), value_view(pointer, text_of(value)))
                }
            },
            old(self)@.array_table is None ==> {
                let a = old(self)@.object_table->0;
                &&& final(self)@.array_table is None
                &&& old(self)@.object_table is Some
                &&& final(self)@.object_table == Some(
                    ObjectTableView { nodes: entry_set(a.nodes, value_view(pointer, text_of(value))), ..a },
                )
            },
    {
        let row_index = self.row_index;
        match &mut self.table {
            NestedTable::Array(t) => t.set_row_entry(row_index, pointer, value),
            NestedTable::Object(t) => t.set_entry(pointer, value),
        }
    }
}

} // verus!
