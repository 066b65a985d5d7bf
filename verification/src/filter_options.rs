//! The values a column's filter offers: the distinct values the column
//! holds in the rows, gathered in an `indexmap::IndexSet`, in text order for
//! a column of text (numbers are put in numeric order by the caller).
use vstd::prelude::*;
use indexmap::IndexSet;
use crate::rows::{ArrayEntries, Column, FlatType, first_at, text_of, texts};
use crate::table::{cell_pointer, get_pointer_for_column, is_filterable};

verus! {

#[verifier::external_type_specification]
#[verifier::external_body]
#[verifier::reject_recursive_types(T)]
#[verifier::reject_recursive_types(S)]
pub struct ExIndexSet<T, S>(IndexSet<T, S>);

/// The values an `IndexSet` of strings holds, in its order.
pub uninterp spec fn set_values(s: IndexSet<String>) -> Seq<Seq<char>>;

/// The order of `String`'s `Ord`: lexicographic by bytes, which for UTF-8
/// text is lexicographic by character code.
pub open spec fn text_before(a: Seq<char>, b: Seq<char>) -> bool
    decreases a.len(),
{
    if a.len() == 0 {
        b.len() > 0
    } else if b.len() == 0 {
        false
    } else if (a[0] as int) < (b[0] as int) {
        true
    } else if a[0] == b[0] {
        text_before(a.drop_first(), b.drop_first())
    } else {
        false
    }
}

/// Calls `IndexSet::new`: a set that holds nothing.
#[verifier::external_body]
fn new_value_set() -> (r: IndexSet<String>)
    ensures
        set_values(r) == Seq::<Seq<char>>::empty(),
{
    IndexSet::new()
}

/// Calls `IndexSet::insert`, which, as its documentation states, adds a
/// value the set does not hold at the end and answers `true`, and leaves
/// the set as it was for a value it holds, answering `false`.
#[verifier::external_body]
fn insert_value(s: &mut IndexSet<String>, value: String) -> (r: bool)
    ensures
        r == !set_values(*old(s)).contains(value@),
        set_values(*final(s)) == if r {
            set_values(*old(s)).push(value@)
        } else {
            set_values(*old(s))
        },
{
    s.insert(value)
}

/// Calls `IndexSet::sort`, which sorts the values by their `Ord` (see
/// `text_before`), keeping them all.
#[verifier::external_body]
fn sort_values(s: &mut IndexSet<String>)
    ensures
        set_values(*final(s)).to_multiset() == set_values(*old(s)).to_multiset(),
        forall|i: int, j: int|
            0 <= i < j < set_values(*final(s)).len() ==> !text_before(set_values(*final(s))[j], set_values(*final(s))[i]),
{
    s.sort()
}

/// Takes the values out of the set, in its order (`IntoIterator` on the
/// set, collected).
#[verifier::external_body]
fn into_values(s: IndexSet<String>) -> (r: Vec<String>)
    ensures
        texts(r@) == set_values(s),
{
    s.into_iter().collect()
}

/// The value of the cell of row `i` in the column named `name`, if any.
pub open spec fn cell_value(rows: Seq<ArrayEntries>, parent: Seq<char>, name: Seq<char>, i: int) -> Option<Seq<char>> {
    match first_at(rows[i].entries@, cell_pointer(parent, i as nat, name)) {
        Some(k) => text_of(rows[i].entries@[k].value),
        None => None,
    }
}

/// The distinct values of the column named `name` in the first `n` rows,
/// first seen first.
pub open spec fn distinct_values(rows: Seq<ArrayEntries>, parent: Seq<char>, name: Seq<char>, n: nat) -> Seq<Seq<char>>
    decreases n,
{
    if n == 0 {
        seq![]
    } else {
        let prev = distinct_values(rows, parent, name, (n - 1) as nat);
        match cell_value(rows, parent, name, n - 1) {
            Some(v) => if prev.contains(v) {
                prev
            } else {
                prev.push(v)
            },
            None => prev,
        }
    }
}

/// The values the filter of `column` offers: for a column that can be
/// filtered on (see `is_filterable`), the distinct values it holds in the
/// rows; those of a number column in the order first seen, the others in
/// text order (see `text_before`).
pub fn filter_options(column: &Column, parent_pointer: &str, nodes: &Vec<ArrayEntries>) -> (r: Vec<String>)
    ensures
        ({
            let found = if !(column.value_type is Object || column.value_type is Array || column.value_type is Null) {
                distinct_values(nodes@, parent_pointer@, column.name@, nodes@.len())
            } else {
                seq![]
            };
            &&& column.value_type is Number ==> texts(r@) == found
            &&& !(column.value_type is Number) ==> texts(r@).to_multiset() == found.to_multiset()
            &&& !(column.value_type is Number) ==> forall|i: int, j: int|
                0 <= i < j < r@.len() ==> !text_before(texts(r@)[j], texts(r@)[i])
        }),
{
    let mut unique = new_value_set();
    if is_filterable(column) {
        let mut i: usize = 0;
        while i < nodes.len()
            invariant
                i <= nodes@.len(),
                set_values(unique) == distinct_values(nodes@, parent_pointer@, column.name@, i as nat),
            decreases nodes@.len() - i,
        {
            proof {
                crate::rows::lemma_first_at_bounds(nodes@[i as int].entries@, cell_pointer(parent_pointer@, i as nat, column.name@));
            }
            match get_pointer_for_column(parent_pointer, &nodes[i].entries, i, column) {
                Some(entry) => match &entry.value {
                    Some(v) => {
                        insert_value(&mut unique, v.clone());
                    },
                    None => {},
                },
                None => {},
            }
            i += 1;
        }
    }
    match column.value_type {
        FlatType::Number => {},
        _ => {
            sort_values(&mut unique);
        },
    }
    into_values(unique)
}

} // verus!
