//! Tables of rows: the elements of a JSON array, each flattened to entries
//! keyed by JSON pointers, and the operations the table view runs on them
//! (search, filters, find and replace, serialization).
use vstd::prelude::*;
use std::collections::hash_map::DefaultHasher;
use std::hash::Hasher;
use vstd::std_specs::hash::DefaultHasherAdditionalSpecFns;
use crate::model::decimal;
use vstd::utf8::encode_utf8;
use vstd::string::StringSliceAdditionalSpecFns;
use crate::model::is_prefix;
use crate::text::{concat3, str_starts_with, concat2, contains_text, lowercase_text, str_contains, str_eq, to_lowercase, usize_text};

verus! {

// ---------------------------------------------------------------------------
// Data
// ---------------------------------------------------------------------------

/// The type of a flattened value.  Arrays carry their length; objects
/// whether their members were parsed, and how many there are.
#[derive(PartialEq, Eq, Structural, Debug, Clone, Copy)]
pub enum FlatType {
    Array(usize),
    Object(bool, usize),
    Number,
    String,
    Bool,
    Null,
    /// No value has been seen yet.
    Unset,
}

/// A pointer to a value of a flattened document.
#[derive(Debug)]
pub struct FlatPointer {
    pub pointer: String,
    pub value_type: FlatType,
    /// Depth of the value in the document.
    pub depth: u8,
    /// Position of the value in the document text.
    pub position: usize,
    /// The column the value belongs to, when placed in a table.
    pub column_id: usize,
}

/// A flattened value: its pointer and its text (`None` for `null`).
#[derive(Debug)]
pub struct FlatValue {
    pub pointer: FlatPointer,
    pub value: Option<String>,
}

/// One element of an array: its flattened values and its index.
#[derive(Debug)]
pub struct ArrayEntries {
    pub entries: Vec<FlatValue>,
    pub index: usize,
}

/// The filter value that keeps only rows whose value is not `null`.
pub const NON_NULL_FILTER_VALUE: &'static str = "__non_null";

pub open spec fn pointer_of(e: FlatValue) -> Seq<char> {
    e.pointer.pointer@
}

pub open spec fn text_of(v: Option<String>) -> Option<Seq<char>> {
    match v {
        Some(s) => Some(s@),
        None => None,
    }
}

/// The position of the first entry whose pointer is `p`.
pub open spec fn first_at(entries: Seq<FlatValue>, p: Seq<char>) -> Option<int>
    decreases entries.len(),
{
    if entries.len() == 0 {
        None
    } else {
        match first_at(entries.drop_last(), p) {
            Some(k) => Some(k),
            None => if pointer_of(entries.last()) == p {
                Some(entries.len() - 1)
            } else {
                None
            },
        }
    }
}

pub proof fn lemma_first_at_bounds(entries: Seq<FlatValue>, p: Seq<char>)
    ensures
        first_at(entries, p) matches Some(k) ==> 0 <= k < entries.len() && pointer_of(entries[k]) == p
            && forall|m: int| 0 <= m < k ==> pointer_of(#[trigger] entries[m]) != p,
        first_at(entries, p) is None ==> forall|m: int|
            0 <= m < entries.len() ==> pointer_of(#[trigger] entries[m]) != p,
    decreases entries.len(),
{
    if entries.len() > 0 {
        lemma_first_at_bounds(entries.drop_last(), p);
        assert forall|m: int| 0 <= m < entries.len() - 1 implies #[trigger] entries[m] == entries.drop_last()[m] by {}
    }
}

impl ArrayEntries {
    pub fn entries(&self) -> (r: &Vec<FlatValue>)
        ensures
            r == &self.entries,
    {
        &self.entries
    }

    pub fn index(&self) -> (r: usize)
        ensures
            r == self.index,
    {
        self.index
    }

    /// The first entry whose pointer is `pointer`.
    pub fn find_node_at(&self, pointer: &str) -> (r: Option<&FlatValue>)
        ensures
            match first_at(self.entries@, pointer@) {
                Some(k) => r == Some(&self.entries@[k]),
                None => r is None,
            },
    {
        let mut k: usize = 0;
        while k < self.entries.len()
            invariant
                k <= self.entries@.len(),
                forall|m: int| 0 <= m < k ==> pointer_of(#[trigger] self.entries@[m]) != pointer@,
            decreases self.entries@.len() - k,
        {
            if str_eq(self.entries[k].pointer.pointer.as_str(), pointer) {
                proof {
                    lemma_first_at_bounds(self.entries@, pointer@);
                    if let Some(f) = first_at(self.entries@, pointer@) {
                        assert(f == k);
                    }
                }
                return Some(&self.entries[k]);
            }
            k += 1;
        }
        proof {
            lemma_first_at_bounds(self.entries@, pointer@);
        }
        None
    }
}

/// The entry that numbers row `i`: pointer `prefix/#`, a number, the row's
/// index as text.
pub fn row_number_entry(i: usize, position: usize, prefix: &str) -> (r: FlatValue)
    ensures
        r.pointer.pointer@ == prefix@ + "/#"@,
        r.pointer.value_type == FlatType::Number,
        r.pointer.depth == 0,
        r.pointer.position == position,
        r.pointer.column_id == 0,
        text_of(r.value) == Some(decimal(i as nat)),
{
    FlatValue {
        pointer: FlatPointer {
            pointer: concat2(prefix, "/#"),
            value_type: FlatType::Number,
            depth: 0,
            position,
            column_id: 0,
        },
        value: Some(usize_text(i)),
    }
}

// ---------------------------------------------------------------------------
// Search
// ---------------------------------------------------------------------------

/// A string value whose lowercase form contains `term`.
pub open spec fn entry_matches(e: FlatValue, term: Seq<char>) -> bool {
    e.pointer.value_type == FlatType::String && match e.value {
        Some(v) => contains_text(lowercase_text(v@), term),
        None => false,
    }
}

/// A row has a string value whose lowercase form contains `term`.
pub open spec fn row_matches(row: ArrayEntries, term: Seq<char>) -> bool {
    exists|k: int| 0 <= k < row.entries@.len() && #[trigger] entry_matches(row.entries@[k], term)
}

/// The indices of the rows that match `term`, in row order.
pub open spec fn matching_rows(rows: Seq<ArrayEntries>, term: Seq<char>) -> Seq<usize>
    decreases rows.len(),
{
    if rows.len() == 0 {
        seq![]
    } else {
        let rest = matching_rows(rows.drop_last(), term);
        if row_matches(rows.last(), term) {
            rest.push(rows.last().index)
        } else {
            rest
        }
    }
}

/// The indices of the rows holding a string value that, lowercased,
/// contains `term`.
pub fn search_occurrences(previous_parse_result: &[ArrayEntries], term: &str) -> (r: Vec<usize>)
    ensures
        r@ == matching_rows(previous_parse_result@, term@),
{
    let mut res: Vec<usize> = Vec::new();
    let mut k: usize = 0;
    while k < previous_parse_result.len()
        invariant
            k <= previous_parse_result@.len(),
            res@ == matching_rows(previous_parse_result@.take(k as int), term@),
        decreases previous_parse_result@.len() - k,
    {
        let json_array_entry = &previous_parse_result[k];
        let mut found = false;
        let mut m: usize = 0;
        while m < json_array_entry.entries.len() && !found
            invariant
                m <= json_array_entry.entries@.len(),
                json_array_entry == previous_parse_result@[k as int],
                found ==> row_matches(*json_array_entry, term@),
                !found ==> forall|q: int|
                    0 <= q < m ==> !#[trigger] entry_matches(json_array_entry.entries@[q], term@),
            decreases json_array_entry.entries@.len() - m,
        {
            let entry = &json_array_entry.entries[m];
            if entry.pointer.value_type == FlatType::String {
                match &entry.value {
                    Some(value) => {
                        let lower = to_lowercase(value.as_str());
                        if str_contains(lower.as_str(), term) {
                            found = true;
                            proof {
                                assert(entry_matches(json_array_entry.entries@[m as int], term@));
                            }
                        }
                    },
                    None => {},
                }
            }
            m += 1;
        }
        proof {
            assert(previous_parse_result@.take(k + 1).drop_last() =~= previous_parse_result@.take(
                k as int,
            ));
            assert(previous_parse_result@.take(k + 1).last() == previous_parse_result@[k as int]);
        }
        if found {
            res.push(json_array_entry.index);
        }
        k += 1;
    }
    proof {
        assert(previous_parse_result@.take(k as int) =~= previous_parse_result@);
    }
    res
}

/// Search finds every match: a row that holds a string value whose
/// lowercase form contains the term has its index in the result, whichever
/// of the row's entries holds it.
pub proof fn law_search_finds_every_match(rows: Seq<ArrayEntries>, term: Seq<char>, i: int, k: int, v: String)
    requires
        0 <= i < rows.len(),
        0 <= k < rows[i].entries@.len(),
        rows[i].entries@[k].pointer.value_type == FlatType::String,
        rows[i].entries@[k].value == Some(v),
        contains_text(lowercase_text(v@), term),
    ensures
        matching_rows(rows, term).contains(rows[i].index),
    decreases rows.len(),
{
    let rest = matching_rows(rows.drop_last(), term);
    if i == rows.len() - 1 {
        assert(entry_matches(rows.last().entries@[k], term));
        let s = rest.push(rows.last().index);
        assert(s[s.len() - 1] == rows[i].index);
    } else {
        assert(rows.drop_last()[i] == rows[i]);
        law_search_finds_every_match(rows.drop_last(), term, i, k, v);
        let n = choose|n: int| 0 <= n < rest.len() && rest[n] == rows[i].index;
        if row_matches(rows.last(), term) {
            assert(rest.push(rows.last().index)[n] == rows[i].index);
        }
    }
}

// ---------------------------------------------------------------------------
// Filters
// ---------------------------------------------------------------------------

/// The texts of a sequence of strings.
pub open spec fn texts(v: Seq<String>) -> Seq<Seq<char>> {
    v.map_values(|s: String| s@)
}

/// The filter values other than the non-null marker.
pub open spec fn value_filters(values: Seq<String>) -> Seq<Seq<char>> {
    texts(values).filter(|v: Seq<char>| v != NON_NULL_FILTER_VALUE@)
}

/// The pointer a filter on `pointer` looks up in the row numbered `index`.
pub open spec fn filter_pointer(prefix: Seq<char>, index: usize, pointer: Seq<char>) -> Seq<char> {
    prefix + "/"@ + decimal(index as nat) + pointer
}

/// A row passes the filter on `pointer`: the row has an entry there; when
/// the non-null marker is among the values, that entry is not null; when
/// other values are given, the entry's text is one of them.
pub open spec fn passes_filter(row: ArrayEntries, prefix: Seq<char>, pointer: Seq<char>, values: Seq<String>) -> bool {
    match first_at(row.entries@, filter_pointer(prefix, row.index, pointer)) {
        None => false,
        Some(k) => {
            let e = row.entries@[k];
            &&& texts(values).contains(NON_NULL_FILTER_VALUE@) ==> e.value is Some
            &&& value_filters(values).len() > 0 ==> match e.value {
                Some(v) => value_filters(values).contains(v@),
                None => false,
            }
        },
    }
}

pub open spec fn passes_filters(row: ArrayEntries, prefix: Seq<char>, filters: Seq<(String, Vec<String>)>) -> bool {
    forall|f: int|
        0 <= f < filters.len() ==> passes_filter(row, prefix, #[trigger] filters[f].0@, filters[f].1@)
}

/// The indices of the rows that pass every filter, in row order.
pub open spec fn filtered_rows(
    rows: Seq<ArrayEntries>,
    prefix: Seq<char>,
    filters: Seq<(String, Vec<String>)>,
) -> Seq<usize>
    decreases rows.len(),
{
    if rows.len() == 0 {
        seq![]
    } else {
        let rest = filtered_rows(rows.drop_last(), prefix, filters);
        if passes_filters(rows.last(), prefix, filters) {
            rest.push(rows.last().index)
        } else {
            rest
        }
    }
}

proof fn lemma_filter_push(s: Seq<Seq<char>>, p: spec_fn(Seq<char>) -> bool, x: Seq<char>)
    ensures
        s.push(x).filter(p) == if p(x) {
            s.filter(p).push(x)
        } else {
            s.filter(p)
        },
{
    reveal(Seq::filter);
    assert(s.push(x).drop_last() =~= s);
}

/// Whether `row` passes the filter on `pointer` with `filters`.
#[verifier::loop_isolation(false)]
fn row_passes_filter(row: &ArrayEntries, prefix: &str, pointer: &String, filters: &Vec<String>) -> (r: bool)
    ensures
        r == passes_filter(*row, prefix@, pointer@, filters@),
{
    let index_text = usize_text(row.index());
    let pointer_to_find = concat2(concat2(concat2(prefix, "/").as_str(), index_text.as_str()).as_str(), pointer.as_str());
    let mut filters_clone: Vec<String> = Vec::new();
    let mut should_filter_by_non_null = false;
    let mut k: usize = 0;
    while k < filters.len()
        invariant
            k <= filters@.len(),
            texts(filters_clone@) == texts(filters@.take(k as int)).filter(
                |v: Seq<char>| v != NON_NULL_FILTER_VALUE@,
            ),
            should_filter_by_non_null == texts(filters@.take(k as int)).contains(
                NON_NULL_FILTER_VALUE@,
            ),
        decreases filters@.len() - k,
    {
        let ghost before = texts(filters@.take(k as int));
        proof {
            assert(texts(filters@.take(k + 1)) =~= before.push(filters@[k as int]@));
            vstd::seq_lib::lemma_seq_contains_after_push(before, filters@[k as int]@, NON_NULL_FILTER_VALUE@);
        }
        if str_eq(filters[k].as_str(), NON_NULL_FILTER_VALUE) {
            should_filter_by_non_null = true;
            proof {
                assert(before.push(filters@[k as int]@).filter(|v: Seq<char>| v != NON_NULL_FILTER_VALUE@)
                    =~= before.filter(|v: Seq<char>| v != NON_NULL_FILTER_VALUE@)) by {
                    lemma_filter_push(before, |v: Seq<char>| v != NON_NULL_FILTER_VALUE@, filters@[k as int]@);
                }
            }
        } else {
            let c = filters[k].clone();
            proof {
                lemma_filter_push(before, |v: Seq<char>| v != NON_NULL_FILTER_VALUE@, filters@[k as int]@);
                assert(texts(filters_clone@.push(c)) =~= texts(filters_clone@).push(c@));
            }
            filters_clone.push(c);
        }
        k += 1;
    }
    proof {
        assert(filters@.take(k as int) =~= filters@);
    }
    match row.find_node_at(pointer_to_find.as_str()) {
        Some(entry) => {
            if should_filter_by_non_null && entry.value.is_none() {
                return false;
            }
            if filters_clone.len() > 0 {
                match &entry.value {
                    None => false,
                    Some(v) => {
                        let mut m: usize = 0;
                        while m < filters_clone.len()
                            invariant
                                m <= filters_clone@.len(),
                                forall|q: int| 0 <= q < m ==> filters_clone@[q]@ != v@,
                            decreases filters_clone@.len() - m,
                        {
                            if filters_clone[m] == *v {
                                proof {
                                    assert(texts(filters_clone@)[m as int] == v@);
                                    assert(texts(filters_clone@).contains(v@));
                                }
                                return true;
                            }
                            m += 1;
                        }
                        proof {
                            assert forall|q: int| 0 <= q < filters_clone@.len() implies
                                #[trigger] texts(filters_clone@)[q] != v@ by {}
                            assert(!texts(filters_clone@).contains(v@));
                        }
                        false
                    },
                }
            } else {
                true
            }
        },
        None => false,
    }
}

/// A value filter accepts each of its chosen values: with one filter on
/// `pointer`, a row whose first entry at the filtered pointer (the prefix,
/// `/`, the row's number, then `pointer`) holds a value equal to the value
/// chosen at any position `m` of the filter's list (other than the non-null
/// marker) is kept.
pub proof fn law_filter_keeps_any_chosen_value(
    rows: Seq<ArrayEntries>,
    prefix: Seq<char>,
    pointer: String,
    values: Vec<String>,
    i: int,
    k: int,
    m: int,
)
    requires
        0 <= i < rows.len(),
        0 <= k < rows[i].entries@.len(),
        0 <= m < values@.len(),
        pointer_of(rows[i].entries@[k]) == prefix + "/"@ + decimal(rows[i].index as nat) + pointer@,
        forall|q: int| 0 <= q < k ==> pointer_of(#[trigger] rows[i].entries@[q]) != prefix + "/"@ + decimal(rows[i].index as nat) + pointer@,
        values@[m]@ != NON_NULL_FILTER_VALUE@,
        text_of(rows[i].entries@[k].value) == Some(values@[m]@),
    ensures
        filtered_rows(rows, prefix, seq![(pointer, values)]).contains(rows[i].index),
    decreases rows.len(),
{
    let filters = seq![(pointer, values)];
    let rest = filtered_rows(rows.drop_last(), prefix, filters);
    if i == rows.len() - 1 {
        let row = rows[i];
        let fp = filter_pointer(prefix, row.index, pointer@);
        lemma_first_at_bounds(row.entries@, fp);
        match first_at(row.entries@, fp) {
            Some(k2) => {
                if k2 < k {
                    assert(pointer_of(row.entries@[k2]) != fp);
                } else if k < k2 {
                    assert(pointer_of(row.entries@[k]) != fp);
                }
            },
            None => {
                assert(pointer_of(row.entries@[k]) != fp);
            },
        }
        let pred = |v: Seq<char>| v != NON_NULL_FILTER_VALUE@;
        assert(texts(values@)[m] == values@[m]@);
        texts(values@).lemma_filter_contains(pred, m);
        assert(value_filters(values@).contains(values@[m]@));
        assert(value_filters(values@).len() > 0);
        assert(passes_filter(row, prefix, filters[0].0@, filters[0].1@));
        assert(passes_filters(row, prefix, filters));
        let s = rest.push(row.index);
        assert(s[s.len() - 1] == row.index);
    } else {
        assert(rows.drop_last()[i] == rows[i]);
        law_filter_keeps_any_chosen_value(rows.drop_last(), prefix, pointer, values, i, k, m);
        let n = choose|n: int| 0 <= n < rest.len() && rest[n] == rows[i].index;
        if passes_filters(rows.last(), prefix, filters) {
            assert(rest.push(rows.last().index)[n] == rows[i].index);
        }
    }
}

/// Entry `k` is the row's first entry at pointer `p`.
pub open spec fn first_entry_at(row: ArrayEntries, p: Seq<char>, k: int) -> bool {
    &&& 0 <= k < row.entries@.len()
    &&& pointer_of(row.entries@[k]) == p
    &&& forall|q: int| 0 <= q < k ==> pointer_of(#[trigger] row.entries@[q]) != p
}

/// A filter's value list holds the value `v` at a position, other than as
/// the non-null marker.
pub open spec fn chosen(values: Seq<String>, v: Seq<char>) -> bool {
    exists|m: int| 0 <= m < values.len() && #[trigger] values[m]@ == v && v != NON_NULL_FILTER_VALUE@
}

/// A filter's value list holds a value other than the non-null marker.
pub open spec fn has_chosen_values(values: Seq<String>) -> bool {
    exists|m: int| 0 <= m < values.len() && #[trigger] values[m]@ != NON_NULL_FILTER_VALUE@
}

/// A filter's value list holds the non-null marker.
pub open spec fn has_marker(values: Seq<String>) -> bool {
    exists|m: int| 0 <= m < values.len() && #[trigger] values[m]@ == NON_NULL_FILTER_VALUE@
}

/// A filter on `pointer` accepts a row exactly when the row has an entry at
/// the filtered pointer (the prefix, `/`, the row's number, then
/// `pointer`) and the first such entry is not null when the non-null
/// marker is among the values, and, when other values are given, holds one
/// of them.
pub proof fn law_filter_accepts_exactly(row: ArrayEntries, prefix: Seq<char>, pointer: Seq<char>, values: Seq<String>)
    ensures
        passes_filter(row, prefix, pointer, values) <==> exists|k: int|
            #[trigger] first_entry_at(row, prefix + "/"@ + decimal(row.index as nat) + pointer, k)
                && (has_marker(values) ==> row.entries@[k].value is Some)
                && (has_chosen_values(values) ==> match row.entries@[k].value {
                Some(v) => chosen(values, v@),
                None => false,
            }),
{
    let fp = filter_pointer(prefix, row.index, pointer);
    let pred = |v: Seq<char>| v != NON_NULL_FILTER_VALUE@;
    let ts = texts(values);
    lemma_first_at_bounds(row.entries@, fp);
    assert(ts.contains(NON_NULL_FILTER_VALUE@) <==> has_marker(values)) by {
        if has_marker(values) {
            let m = choose|m: int| 0 <= m < values.len() && #[trigger] values[m]@ == NON_NULL_FILTER_VALUE@;
            assert(ts[m] == values[m]@);
        }
        if ts.contains(NON_NULL_FILTER_VALUE@) {
            let m = choose|m: int| 0 <= m < ts.len() && ts[m] == NON_NULL_FILTER_VALUE@;
            assert(values[m]@ == ts[m]);
        }
    }
    assert forall|v: Seq<char>| value_filters(values).contains(v) <==> chosen(values, v) by {
        if chosen(values, v) {
            let m = choose|m: int| 0 <= m < values.len() && #[trigger] values[m]@ == v && v != NON_NULL_FILTER_VALUE@;
            assert(ts[m] == values[m]@);
            ts.lemma_filter_contains(pred, m);
        }
        if value_filters(values).contains(v) {
            let j = choose|j: int| 0 <= j < value_filters(values).len() && value_filters(values)[j] == v;
            ts.lemma_filter_pred(pred, j);
            ts.lemma_filter_contains_rev(pred, v);
            let m = choose|m: int| 0 <= m < ts.len() && ts[m] == v;
            assert(values[m]@ == ts[m]);
        }
    }
    assert(value_filters(values).len() > 0 <==> has_chosen_values(values)) by {
        if has_chosen_values(values) {
            let m = choose|m: int| 0 <= m < values.len() && #[trigger] values[m]@ != NON_NULL_FILTER_VALUE@;
            assert(chosen(values, values[m]@));
            assert(value_filters(values).contains(values[m]@));
        }
        if value_filters(values).len() > 0 {
            let v = value_filters(values)[0];
            assert(value_filters(values).contains(v));
            assert(chosen(values, v));
            let m = choose|m: int| 0 <= m < values.len() && #[trigger] values[m]@ == v && v != NON_NULL_FILTER_VALUE@;
            assert(values[m]@ != NON_NULL_FILTER_VALUE@);
        }
    }
    match first_at(row.entries@, fp) {
        Some(k) => {
            assert(first_entry_at(row, fp, k));
            assert forall|k2: int| #[trigger] first_entry_at(row, fp, k2) implies k2 == k by {
                if k2 < k {
                    assert(pointer_of(row.entries@[k2]) != fp);
                } else if k < k2 {
                    assert(pointer_of(row.entries@[k]) != fp);
                }
            }
        },
        None => {
            assert forall|k2: int| !#[trigger] first_entry_at(row, fp, k2) by {
                if 0 <= k2 < row.entries@.len() {
                    assert(pointer_of(row.entries@[k2]) != fp);
                }
            }
        },
    }
}

/// The indices of the rows that pass every filter.  A filter maps a
/// pointer, relative to a row, to the values it accepts.
pub fn filter_columns(
    previous_parse_result: &Vec<ArrayEntries>,
    prefix: &str,
    filters: &Vec<(String, Vec<String>)>,
) -> (r: Vec<usize>)
    ensures
        r@ == filtered_rows(previous_parse_result@, prefix@, filters@),
{
    let mut res: Vec<usize> = Vec::new();
    let mut k: usize = 0;
    while k < previous_parse_result.len()
        invariant
            k <= previous_parse_result@.len(),
            res@ == filtered_rows(previous_parse_result@.take(k as int), prefix@, filters@),
        decreases previous_parse_result@.len() - k,
    {
        let row = &previous_parse_result[k];
        let mut should_add_row = true;
        let mut f: usize = 0;
        while f < filters.len() && should_add_row
            invariant
                f <= filters@.len(),
                row == previous_parse_result@[k as int],
                should_add_row ==> forall|g: int|
                    0 <= g < f ==> passes_filter(*row, prefix@, #[trigger] filters@[g].0@, filters@[g].1@),
                !should_add_row ==> !passes_filters(*row, prefix@, filters@),
            decreases filters@.len() - f,
        {
            let (pointer, values) = &filters[f];
            if !row_passes_filter(row, prefix, pointer, values) {
                should_add_row = false;
            }
            f += 1;
        }
        proof {
            assert(previous_parse_result@.take(k + 1).drop_last() =~= previous_parse_result@.take(
                k as int,
            ));
            assert(previous_parse_result@.take(k + 1).last() == previous_parse_result@[k as int]);
        }
        if should_add_row {
            res.push(row.index);
        }
        k += 1;
    }
    proof {
        assert(previous_parse_result@.take(k as int) =~= previous_parse_result@);
    }
    res
}

// ---------------------------------------------------------------------------
// Serialization
// ---------------------------------------------------------------------------

/// The fragments of `b[..n]` split at `/`: the non-empty fragments ended by
/// a `/`, and the fragment being read.
pub open spec fn segments_upto(b: Seq<u8>, n: int) -> (Seq<Seq<u8>>, Seq<u8>)
    decreases n,
{
    if n <= 0 {
        (seq![], seq![])
    } else {
        let (done, cur) = segments_upto(b, n - 1);
        if b[n - 1] == 0x2fu8 {
            (if cur.len() > 0 {
                done.push(cur)
            } else {
                done
            }, seq![])
        } else {
            (done, cur.push(b[n - 1]))
        }
    }
}

/// The non-empty fragments of a pointer, split at `/`.
pub open spec fn segments(b: Seq<u8>) -> Seq<Seq<u8>> {
    let (done, cur) = segments_upto(b, b.len() as int);
    if cur.len() > 0 {
        done.push(cur)
    } else {
        done
    }
}

/// A fragment starting with a digit is an array index.
pub open spec fn is_index(seg: Seq<u8>) -> bool {
    0x30u8 <= seg[0] && seg[0] <= 0x39u8
}

/// What opens the container a fragment names: `[` for an index, `{"key":`
/// for a key.
pub open spec fn opener(seg: Seq<u8>) -> Seq<u8> {
    if is_index(seg) {
        seq![0x5bu8]
    } else {
        seq![0x7bu8, 0x22u8] + seg + seq![0x22u8, 0x3au8]
    }
}

/// What closes it: `]` or `}`.
pub open spec fn closer(seg: Seq<u8>) -> Seq<u8> {
    if is_index(seg) {
        seq![0x5du8]
    } else {
        seq![0x7du8]
    }
}

pub open spec fn openers(segs: Seq<Seq<u8>>) -> Seq<u8>
    decreases segs.len(),
{
    if segs.len() == 0 {
        seq![]
    } else {
        openers(segs.drop_last()) + opener(segs.last())
    }
}

/// The closers, in the same order as the openers.
pub open spec fn closers(segs: Seq<Seq<u8>>) -> Seq<u8>
    decreases segs.len(),
{
    if segs.len() == 0 {
        seq![]
    } else {
        closers(segs.drop_last()) + closer(segs.last())
    }
}

/// The line ending written between rows.
pub open spec fn row_separator() -> Seq<u8> {
    seq![0x2cu8, 0x0au8]
}

/// The text of the last value of a row.
pub open spec fn row_value(row: ArrayEntries) -> Seq<u8> {
    encode_utf8(row.entries@.last().value->0@)
}

/// The serialized rows `rows[..k]`: each non-empty row's last value,
/// followed by a separator unless the row is the last of all `rows`.
pub open spec fn rows_text(rows: Seq<ArrayEntries>, k: int) -> Seq<u8>
    decreases k,
{
    if k <= 0 {
        seq![]
    } else {
        rows_text(rows, k - 1) + if rows[k - 1].entries@.len() > 0 {
            row_value(rows[k - 1]) + if k - 1 < rows.len() - 1 {
                row_separator()
            } else {
                seq![]
            }
        } else {
            seq![]
        }
    }
}

/// The JSON text of an array of rows, each row given by its last value
/// (its serialized form), nested under `parent`.
pub open spec fn array_text(parent: Seq<u8>, rows: Seq<ArrayEntries>) -> Seq<u8> {
    openers(segments(parent)) + seq![0x5bu8] + rows_text(rows, rows.len() as int) + seq![0x5du8]
        + closers(segments(parent))
}

proof fn lemma_segments_upto_nonempty(b: Seq<u8>, n: int)
    ensures
        forall|k: int|
            0 <= k < segments_upto(b, n).0.len() ==> #[trigger] segments_upto(b, n).0[k].len() > 0,
    decreases n,
{
    if n > 0 {
        lemma_segments_upto_nonempty(b, n - 1);
        let (done, cur) = segments_upto(b, n - 1);
        if b[n - 1] == 0x2fu8 && cur.len() > 0 {
            assert forall|k: int| 0 <= k < done.push(cur).len() implies #[trigger] done.push(cur)[k].len()
                > 0 by {
                if k < done.len() {
                    assert(done.push(cur)[k] == done[k]);
                }
            }
        }
    }
}

pub proof fn lemma_segments_nonempty(b: Seq<u8>)
    ensures
        forall|k: int| 0 <= k < segments(b).len() ==> #[trigger] segments(b)[k].len() > 0,
{
    lemma_segments_upto_nonempty(b, b.len() as int);
}

/// Every non-empty row ends with a value that is not null.
pub open spec fn rows_serializable(rows: Seq<ArrayEntries>) -> bool {
    forall|k: int|
        0 <= k < rows.len() && #[trigger] rows[k].entries@.len() > 0 ==> rows[k].entries@.last().value is Some
}

fn append_bytes(out: &mut Vec<u8>, b: &[u8])
    ensures
        final(out)@ == old(out)@ + b@,
{
    let mut k: usize = 0;
    while k < b.len()
        invariant
            k <= b@.len(),
            out@ == old(out)@ + b@.take(k as int),
        decreases b@.len() - k,
    {
        out.push(b[k]);
        k += 1;
        proof {
            assert(old(out)@ + b@.take(k as int) =~= (old(out)@ + b@.take(k - 1)).push(b@[k - 1]));
        }
    }
    proof {
        assert(b@.take(k as int) =~= b@);
    }
}

/// The non-empty fragments of `pointer`, split at `/`.
fn split_segments(pointer: &[u8]) -> (r: Vec<Vec<u8>>)
    ensures
        r@.map_values(|v: Vec<u8>| v@) == segments(pointer@),
{
    let mut done: Vec<Vec<u8>> = Vec::new();
    let mut cur: Vec<u8> = Vec::new();
    let mut k: usize = 0;
    while k < pointer.len()
        invariant
            k <= pointer@.len(),
            (done@.map_values(|v: Vec<u8>| v@), cur@) == segments_upto(pointer@, k as int),
        decreases pointer@.len() - k,
    {
        if pointer[k] == 0x2fu8 {
            if cur.len() > 0 {
                let ghost before = done@.map_values(|v: Vec<u8>| v@);
                let c = cur;
                proof {
                    assert(done@.push(c).map_values(|v: Vec<u8>| v@) =~= before.push(c@));
                }
                done.push(c);
            }
            cur = Vec::new();
        } else {
            cur.push(pointer[k]);
        }
        k += 1;
    }
    if cur.len() > 0 {
        let ghost before = done@.map_values(|v: Vec<u8>| v@);
        let c = cur;
        proof {
            assert(done@.push(c).map_values(|v: Vec<u8>| v@) =~= before.push(c@));
        }
        done.push(c);
    }
    done
}

/// The JSON text of an array of rows nested under `parent_pointer`: for each
/// fragment of the pointer an opener (`[` for an index, `{"key":` for a key),
/// the rows' last values separated by `,` and a newline inside `[` `]`, then
/// one closer per fragment.
pub fn serialize_array(parent_pointer: &str, array: &[ArrayEntries]) -> (r: Vec<u8>)
    requires
        rows_serializable(array@),
    ensures
        r@ == array_text(parent_pointer.spec_bytes(), array@),
{
    let segs = split_segments(parent_pointer.as_bytes());
    let ghost sv = segs@.map_values(|v: Vec<u8>| v@);
    proof {
        lemma_segments_nonempty(parent_pointer.spec_bytes());
    }
    let mut out: Vec<u8> = Vec::new();
    let mut k: usize = 0;
    while k < segs.len()
        invariant
            k <= segs@.len(),
            sv == segs@.map_values(|v: Vec<u8>| v@),
            sv == segments(parent_pointer.spec_bytes()),
            forall|q: int| 0 <= q < sv.len() ==> #[trigger] sv[q].len() > 0,
            out@ == openers(sv.take(k as int)),
        decreases segs@.len() - k,
    {
        proof {
            assert(sv.take(k + 1).drop_last() =~= sv.take(k as int));
            assert(sv[k as int] == segs@[k as int]@);
        }
        let seg = &segs[k];
        if seg.len() == 0 {
            // fragments are never empty
            proof {
                assert(false);
            }
        }
        if 0x30u8 <= seg[0] && seg[0] <= 0x39u8 {
            out.push(0x5bu8);
        } else {
            out.push(0x7bu8);
            out.push(0x22u8);
            append_bytes(&mut out, seg.as_slice());
            out.push(0x22u8);
            out.push(0x3au8);
        }
        k += 1;
        proof {
            assert(out@ =~= openers(sv.take(k as int)));
        }
    }
    proof {
        assert(sv.take(k as int) =~= sv);
    }
    out.push(0x5bu8);
    let ghost head = out@;
    let mut i: usize = 0;
    while i < array.len()
        invariant
            i <= array@.len(),
            rows_serializable(array@),
            out@ == head + rows_text(array@, i as int),
        decreases array@.len() - i,
    {
        let entry = &array[i];
        if entry.entries.len() > 0 {
            let last = &entry.entries[entry.entries.len() - 1];
            proof {
                assert(array@[i as int].entries@.len() > 0);
            }
            match &last.value {
                Some(v) => {
                    append_bytes(&mut out, v.as_str().as_bytes());
                },
                None => {},
            }
            if i < array.len() - 1 {
                out.push(0x2cu8);
                out.push(0x0au8);
            }
        }
        i += 1;
        proof {
            assert(out@ =~= head + rows_text(array@, i as int));
        }
    }
    out.push(0x5du8);
    proof {
        assert(sv.take(0) =~= seq![]);
        assert(out@ =~= openers(sv) + seq![0x5bu8] + rows_text(array@, array@.len() as int) + seq![0x5du8]
            + closers(sv.take(0)));
    }
    let mut k: usize = 0;
    while k < segs.len()
        invariant
            k <= segs@.len(),
            sv == segs@.map_values(|v: Vec<u8>| v@),
            forall|q: int| 0 <= q < sv.len() ==> #[trigger] sv[q].len() > 0,
            out@ == openers(sv) + seq![0x5bu8] + rows_text(array@, array@.len() as int) + seq![0x5du8]
                + closers(sv.take(k as int)),
        decreases segs@.len() - k,
    {
        proof {
            assert(sv.take(k + 1).drop_last() =~= sv.take(k as int));
            assert(sv[k as int] == segs@[k as int]@);
        }
        let seg = &segs[k];
        if seg.len() == 0 {
            proof {
                assert(false);
            }
        }
        if 0x30u8 <= seg[0] && seg[0] <= 0x39u8 {
            out.push(0x5du8);
        } else {
            out.push(0x7du8);
        }
        k += 1;
        proof {
            assert(out@ =~= openers(sv) + seq![0x5bu8] + rows_text(array@, array@.len() as int)
                + seq![0x5du8] + closers(sv.take(k as int)));
        }
    }
    proof {
        assert(sv.take(k as int) =~= sv);
    }
    out
}

// ---------------------------------------------------------------------------
// Columns and rows of an array
// ---------------------------------------------------------------------------

/// A column of a table: the pointer of a value relative to its row.
#[derive(Debug, Clone)]
pub struct Column {
    pub name: String,
    pub depth: u8,
    pub value_type: FlatType,
    /// How many rows have a value in this column.
    pub seen_count: usize,
    /// The order in which the column was first seen.
    pub order: usize,
    pub id: usize,
}

impl Column {
    /// A column of depth 0 with this name and type, not yet seen in any row.
    pub fn new(name: String, value_type: FlatType) -> (r: Self)
        ensures
            cv(r) == (ColumnView { name: name@, depth: 0, value_type, seen_count: 0, order: 0, id: 0 }),
    {
        Column { name, depth: 0, value_type, seen_count: 0, order: 0, id: 0 }
    }
}

/// A flattened document: its values and where the parse started.
pub struct FlatParse {
    pub json: Vec<FlatValue>,
    pub max_json_depth: usize,
    pub parsing_max_depth: u8,
    pub started_parsing_at: Option<String>,
    pub started_parsing_at_index_start: usize,
    pub started_parsing_at_index_end: usize,
    pub parsing_prefix: Option<String>,
    pub depth_after_start_at: u8,
}

pub struct FlatValueView {
    pub pointer: Seq<char>,
    pub value_type: FlatType,
    pub depth: u8,
    pub position: usize,
    pub column_id: usize,
    pub value: Option<Seq<char>>,
}

pub struct ColumnView {
    pub name: Seq<char>,
    pub depth: u8,
    pub value_type: FlatType,
    pub seen_count: nat,
    pub order: nat,
    pub id: usize,
}

pub struct RowView {
    pub entries: Seq<FlatValueView>,
    pub index: usize,
}

pub open spec fn fv(e: FlatValue) -> FlatValueView {
    FlatValueView {
        pointer: e.pointer.pointer@,
        value_type: e.pointer.value_type,
        depth: e.pointer.depth,
        position: e.pointer.position,
        column_id: e.pointer.column_id,
        value: text_of(e.value),
    }
}

pub open spec fn fvs(s: Seq<FlatValue>) -> Seq<FlatValueView> {
    s.map_values(|e: FlatValue| fv(e))
}

pub open spec fn cv(c: Column) -> ColumnView {
    ColumnView {
        name: c.name@,
        depth: c.depth,
        value_type: c.value_type,
        seen_count: c.seen_count as nat,
        order: c.order as nat,
        id: c.id,
    }
}

pub open spec fn cvs(s: Seq<Column>) -> Seq<ColumnView> {
    s.map_values(|c: Column| cv(c))
}

pub open spec fn rv(r: ArrayEntries) -> RowView {
    RowView { entries: fvs(r.entries@), index: r.index }
}

pub open spec fn rvs(s: Seq<ArrayEntries>) -> Seq<RowView> {
    s.map_values(|r: ArrayEntries| rv(r))
}

/// The pointer prefix of row `i`: where the parse started (or the parsing
/// prefix), then `/i`.
pub open spec fn row_prefix(started: Option<Seq<char>>, prefix: Option<Seq<char>>, i: nat) -> Seq<char> {
    let base = match started {
        Some(s) => s,
        None => match prefix {
            Some(p) => p,
            None => seq![],
        },
    };
    base + "/"@ + decimal(i)
}

/// The position of the first column named `name`.
pub open spec fn first_column(cols: Seq<ColumnView>, name: Seq<char>) -> Option<int>
    decreases cols.len(),
{
    if cols.len() == 0 {
        None
    } else {
        match first_column(cols.drop_last(), name) {
            Some(k) => Some(k),
            None => if cols.last().name == name {
                Some(cols.len() - 1)
            } else {
                None
            },
        }
    }
}

pub(crate) proof fn lemma_first_column(cols: Seq<ColumnView>, name: Seq<char>)
    ensures
        first_column(cols, name) matches Some(k) ==> 0 <= k < cols.len() && cols[k].name == name
            && forall|m: int| 0 <= m < k ==> (#[trigger] cols[m]).name != name,
        first_column(cols, name) is None ==> forall|m: int| 0 <= m < cols.len() ==> (#[trigger] cols[m]).name != name,
    decreases cols.len(),
{
    if cols.len() > 0 {
        lemma_first_column(cols.drop_last(), name);
        assert forall|m: int| 0 <= m < cols.len() - 1 implies #[trigger] cols[m] == cols.drop_last()[m] by {}
    }
}

/// A column seen once more; a column so far only `null` takes the type of
/// the new value.
pub open spec fn bump(c: ColumnView, t: FlatType) -> ColumnView {
    ColumnView {
        seen_count: c.seen_count + 1,
        value_type: if c.value_type == FlatType::Null {
            t
        } else {
            c.value_type
        },
        ..c
    }
}

pub open spec fn row_number_view(i: nat, position: usize, prefix: Seq<char>) -> FlatValueView {
    FlatValueView {
        pointer: prefix + "/#"@,
        value_type: FlatType::Number,
        depth: 0,
        position: position,
        column_id: 0,
        value: Some(decimal(i)),
    }
}

/// The state of the scan: the remaining values, the scan position, the
/// columns found and the entries of the current row.
pub struct ScanState {
    pub json: Seq<FlatValueView>,
    pub j: int,
    pub unique: Seq<ColumnView>,
    pub flat: Seq<FlatValueView>,
}

/// Scanning backwards from position `j` the values of row `i` (those under
/// `pre`): each is given the id of its column (a new column takes the next
/// `name_id` of its name), and the last value is moved to the row, preceded by the row's
/// number entry.
pub open spec fn row_scan(st: ScanState, first: bool, i: nat, pre: Seq<char>) -> ScanState
    decreases st.j + 1,
{
    if st.json.len() == 0 || st.j < 0 || st.j >= st.json.len() {
        st
    } else {
        let e = st.json[st.j];
        if !is_prefix(pre, e.pointer) {
            st
        } else {
            let key = e.pointer.subrange(pre.len() as int, e.pointer.len() as int);
            let cid = match first_column(st.unique, key) {
                Some(c) => st.unique[c].id,
                None => name_id(key),
            };
            let unique2 = match first_column(st.unique, key) {
                Some(c) => st.unique.update(c, bump(st.unique[c], e.value_type)),
                None => st.unique.push(
                    ColumnView {
                        name: key,
                        depth: e.depth,
                        value_type: e.value_type,
                        seen_count: 1,
                        order: st.unique.len(),
                        id: cid,
                    },
                ),
            };
            let json2 = st.json.update(st.j, FlatValueView { column_id: cid, ..e });
            let flat2 = if first {
                st.flat.push(row_number_view(i, e.position, pre))
            } else {
                st.flat
            };
            let st2 = ScanState {
                json: json2.drop_last(),
                j: st.j,
                unique: unique2,
                flat: flat2.push(json2.last()),
            };
            if st.j == 0 {
                st2
            } else {
                row_scan(ScanState { j: st.j - 1, ..st2 }, false, i, pre)
            }
        }
    }
}

/// Scanning the rows `n - 1` down to `0`.
pub open spec fn rows_scan(
    st: ScanState,
    res: Seq<RowView>,
    n: nat,
    started: Option<Seq<char>>,
    prefix: Option<Seq<char>>,
) -> (ScanState, Seq<RowView>)
    decreases n,
{
    if n == 0 {
        (st, res)
    } else {
        let i = (n - 1) as nat;
        let st2 = row_scan(ScanState { flat: seq![], ..st }, true, i, row_prefix(started, prefix, i));
        let res2 = if st2.flat.len() > 0 {
            res.push(RowView { entries: st2.flat, index: i as usize })
        } else {
            res
        };
        rows_scan(st2, res2, i, started, prefix)
    }
}

/// Column `a` comes before column `b`: seen more often, or as often and
/// found later.
pub open spec fn column_before(a: ColumnView, b: ColumnView) -> bool {
    a.seen_count > b.seen_count || (a.seen_count == b.seen_count && a.order > b.order)
}

/// Where `c` goes in the sorted `s`: before the first column it comes before.
pub open spec fn insert_pos(s: Seq<ColumnView>, c: ColumnView) -> int
    decreases s.len(),
{
    if s.len() == 0 {
        0
    } else if column_before(c, s.last()) {
        let k = insert_pos(s.drop_last(), c);
        k
    } else {
        s.len() as int
    }
}

/// Inserting `rest` in order into the sorted `acc`.
pub open spec fn sort_into(acc: Seq<ColumnView>, rest: Seq<ColumnView>) -> Seq<ColumnView>
    decreases rest.len(),
{
    if rest.len() == 0 {
        acc
    } else {
        sort_into(acc.insert(insert_pos(acc, rest[0]), rest[0]), rest.drop_first())
    }
}

pub open spec fn sorted_columns(s: Seq<ColumnView>) -> Seq<ColumnView> {
    sort_into(seq![], s)
}

pub open spec fn opt_text(o: Option<String>) -> Option<Seq<char>> {
    text_of(o)
}

/// A parse of a document as values: the flattened values and the parse's
/// settings and findings.
pub struct DocumentView {
    pub json: Seq<FlatValueView>,
    pub max_json_depth: usize,
    pub parsing_max_depth: u8,
    pub started_parsing_at: Option<Seq<char>>,
    pub started_parsing_at_index_start: usize,
    pub started_parsing_at_index_end: usize,
    pub parsing_prefix: Option<Seq<char>>,
    pub depth_after_start_at: u8,
}

pub open spec fn doc_view(p: FlatParse) -> DocumentView {
    DocumentView {
        json: fvs(p.json@),
        max_json_depth: p.max_json_depth,
        parsing_max_depth: p.parsing_max_depth,
        started_parsing_at: opt_text(p.started_parsing_at),
        started_parsing_at_index_start: p.started_parsing_at_index_start,
        started_parsing_at_index_end: p.started_parsing_at_index_end,
        parsing_prefix: opt_text(p.parsing_prefix),
        depth_after_start_at: p.depth_after_start_at,
    }
}

/// The inputs `as_array` works on without panicking: a non-empty document,
/// a start position inside it, and, where the value there is an array, an
/// end position inside it.
pub open spec fn as_array_ready(d: DocumentView) -> bool {
    &&& d.json.len() >= 1
    &&& d.started_parsing_at is Some ==> d.started_parsing_at_index_start < d.json.len() && (d.json[d.started_parsing_at_index_start as int].value_type is Array
        ==> d.started_parsing_at_index_end < d.json.len())
}

pub open spec fn as_array_ok(p: FlatParse) -> bool {
    as_array_ready(doc_view(p))
}

/// The rows and columns of the array at the root of `d` (or where the parse
/// started).
pub open spec fn as_array_of(d: DocumentView) -> Result<(Seq<RowView>, Seq<ColumnView>), Seq<char>> {
    let json = d.json;
    let (root, end0) = match d.started_parsing_at {
        Some(_) => (json[d.started_parsing_at_index_start as int], d.started_parsing_at_index_end as int),
        None => (json[0], 0),
    };
    match root.value_type {
        FlatType::Array(n) => {
            let end = if end0 == 0 {
                json.len() - 1
            } else {
                end0
            };
            let (st, res) = rows_scan(
                ScanState { json: json, j: end, unique: seq![], flat: seq![] },
                seq![],
                n as nat,
                d.started_parsing_at,
                d.parsing_prefix,
            );
            Ok((res.reverse(), sorted_columns(st.unique)))
        },
        _ => Err("Parsed json root is not an array"@),
    }
}

/// The rows and columns of the array at the root of `p` (or where the parse
/// started).
pub open spec fn as_array_spec(p: FlatParse) -> Result<(Seq<RowView>, Seq<ColumnView>), Seq<char>> {
    as_array_of(doc_view(p))
}

/// Tells whether `as_array_ok` holds.
pub fn as_array_check(p: &FlatParse) -> (r: bool)
    ensures
        r == as_array_ok(*p),
{
    if p.json.len() == 0 {
        return false;
    }
    match &p.started_parsing_at {
        None => true,
        Some(_) => {
            if p.started_parsing_at_index_start >= p.json.len() {
                return false;
            }
            match p.json[p.started_parsing_at_index_start].pointer.value_type {
                FlatType::Array(_) => p.started_parsing_at_index_end < p.json.len(),
                _ => true,
            }
        },
    }
}

// ---------------------------------------------------------------------------
// Column ids
// ---------------------------------------------------------------------------

/// The id a new column takes: the `DefaultHasher` hash of its name's bytes.
pub open spec fn name_id(name: Seq<char>) -> usize {
    DefaultHasher::spec_finish(seq![encode_utf8(name)]) as usize
}

pub(crate) fn column_id(name: &str) -> (r: usize)
    ensures
        r == name_id(name@),
{
    let mut hasher = DefaultHasher::new();
    hasher.write(name.as_bytes());
    hasher.finish() as usize
}

// ---------------------------------------------------------------------------
// Sorting columns
// ---------------------------------------------------------------------------

fn column_before_exec(a: &Column, b: &Column) -> (r: bool)
    ensures
        r == column_before(cv(*a), cv(*b)),
{
    a.seen_count > b.seen_count || (a.seen_count == b.seen_count && a.order > b.order)
}

pub(crate) proof fn lemma_cvs_push(s: Seq<Column>, c: Column)
    ensures
        cvs(s.push(c)) == cvs(s).push(cv(c)),
{
    assert(cvs(s.push(c)) =~= cvs(s).push(cv(c)));
}

/// The columns in table order: most seen first, and among columns seen as
/// often, the one found later first.
pub fn sort_columns(columns: Vec<Column>) -> (r: Vec<Column>)
    ensures
        cvs(r@) == sorted_columns(cvs(columns@)),
{
    let ghost all = cvs(columns@);
    let mut rest = columns;
    let mut acc: Vec<Column> = Vec::new();
    proof {
        assert(cvs(acc@) =~= seq![]);
    }
    while rest.len() > 0
        invariant
            sort_into(cvs(acc@), cvs(rest@)) == sorted_columns(all),
        decreases rest@.len(),
    {
        let ghost before_rest = cvs(rest@);
        let ghost before_acc = cvs(acc@);
        let c = rest.remove(0);
        proof {
            assert(cvs(rest@) =~= before_rest.drop_first());
            assert(cv(c) == before_rest[0]);
        }
        let mut k = acc.len();
        proof {
            assert(before_acc.take(k as int) =~= before_acc);
        }
        while k > 0 && column_before_exec(&c, &acc[k - 1])
            invariant
                k <= acc@.len(),
                cvs(acc@) == before_acc,
                insert_pos(before_acc, cv(c)) == insert_pos(before_acc.take(k as int), cv(c)),
            decreases k,
        {
            proof {
                assert(before_acc.take(k as int).drop_last() =~= before_acc.take(k - 1));
                assert(before_acc.take(k as int).last() == before_acc[k - 1]);
            }
            k -= 1;
        }
        proof {
            if k > 0 {
                assert(before_acc.take(k as int).last() == before_acc[k - 1]);
            } else {
                assert(before_acc.take(0).len() == 0);
            }
            assert(insert_pos(before_acc, cv(c)) == k);
        }
        acc.insert(k, c);
        proof {
            assert(cvs(acc@) =~= before_acc.insert(k as int, cv(c)));
        }
    }
    acc
}

// ---------------------------------------------------------------------------
// Rows and columns of an array
// ---------------------------------------------------------------------------

/// The position of the first column named `name`.
pub(crate) fn find_column(cols: &Vec<Column>, name: &str) -> (r: Option<usize>)
    ensures
        r is None <==> first_column(cvs(cols@), name@) is None,
        r matches Some(k) ==> first_column(cvs(cols@), name@) == Some(k as int) && k < cols@.len(),
{
    let ghost cs = cvs(cols@);
    let mut k: usize = 0;
    while k < cols.len()
        invariant
            k <= cols@.len(),
            cs == cvs(cols@),
            forall|m: int| 0 <= m < k ==> (#[trigger] cs[m]).name != name@,
        decreases cols@.len() - k,
    {
        if str_eq(cols[k].name.as_str(), name) {
            proof {
                assert(cs[k as int].name == name@);
                lemma_first_column(cs, name@);
                if let Some(f) = first_column(cs, name@) {
                    if f < k {
                        assert(cs[f].name != name@);
                    }
                    assert(f == k);
                }
            }
            return Some(k);
        }
        k += 1;
    }
    proof {
        lemma_first_column(cs, name@);
    }
    None
}

/// The pointer prefix of row `i`, as `row_prefix` states it.
pub(crate) fn row_prefix_text(started: &Option<String>, prefix: &Option<String>, i: usize) -> (r: String)
    ensures
        r@ == row_prefix(opt_text(*started), opt_text(*prefix), i as nat),
{
    let index_text = usize_text(i);
    match started {
        Some(s) => concat3(s.as_str(), "/", index_text.as_str()),
        None => match prefix {
            Some(q) => concat3(q.as_str(), "/", index_text.as_str()),
            None => {
                let r = concat2("/", index_text.as_str());
                proof {
                    assert(r@ =~= seq![] + "/"@ + decimal(i as nat));
                }
                r
            },
        },
    }
}

pub(crate) proof fn lemma_fvs_step(s: Seq<FlatValue>, j: int, x: FlatValue)
    requires
        0 <= j < s.len(),
    ensures
        fvs(s.update(j, x)) == fvs(s).update(j, fv(x)),
        fvs(s.update(j, x).drop_last()) == fvs(s).update(j, fv(x)).drop_last(),
        fv(s.update(j, x).last()) == fvs(s).update(j, fv(x)).last(),
{
    assert(fvs(s.update(j, x)) =~= fvs(s).update(j, fv(x)));
    assert(fvs(s.update(j, x).drop_last()) =~= fvs(s).update(j, fv(x)).drop_last());
}

pub(crate) proof fn lemma_fvs_push(s: Seq<FlatValue>, x: FlatValue)
    ensures
        fvs(s.push(x)) == fvs(s).push(fv(x)),
{
    assert(fvs(s.push(x)) =~= fvs(s).push(fv(x)));
}

pub(crate) proof fn lemma_cvs_update(s: Seq<Column>, k: int, c: Column)
    requires
        0 <= k < s.len(),
    ensures
        cvs(s.update(k, c)) == cvs(s).update(k, cv(c)),
{
    assert(cvs(s.update(k, c)) =~= cvs(s).update(k, cv(c)));
}

pub(crate) proof fn lemma_rvs_push(s: Seq<ArrayEntries>, x: ArrayEntries)
    ensures
        rvs(s.push(x)) == rvs(s).push(rv(x)),
{
    assert(rvs(s.push(x)) =~= rvs(s).push(rv(x)));
}

/// `v` in reverse order.
fn reverse_rows(v: Vec<ArrayEntries>) -> (r: Vec<ArrayEntries>)
    ensures
        rvs(r@) == rvs(v@).reverse(),
{
    let ghost orig = v@;
    let mut v = v;
    let mut r: Vec<ArrayEntries> = Vec::new();
    while v.len() > 0
        invariant
            v@.len() + r@.len() == orig.len(),
            v@ == orig.take(v@.len() as int),
            forall|m: int| 0 <= m < r@.len() ==> #[trigger] r@[m] == orig[orig.len() - 1 - m],
        decreases v@.len(),
    {
        let x = v.pop().unwrap();
        proof {
            assert(orig.take(v@.len() as int) =~= orig.take(v@.len() + 1int).drop_last());
        }
        r.push(x);
    }
    proof {
        assert(rvs(r@) =~= rvs(orig).reverse());
    }
    r
}

/// One column seen once more in the exec state, as `bump` states it.
fn bump_column(unique: &mut Vec<Column>, c: usize, t: FlatType)
    requires
        c < old(unique)@.len(),
        old(unique)@[c as int].seen_count < usize::MAX,
    ensures
        cvs(final(unique)@) == cvs(old(unique)@).update(c as int, bump(cv(old(unique)@[c as int]), t)),
        final(unique)@.len() == old(unique)@.len(),
        forall|m: int| 0 <= m < old(unique)@.len() && m != c ==> #[trigger] final(unique)@[m] == old(unique)@[m],
        final(unique)@[c as int].seen_count == old(unique)@[c as int].seen_count + 1,
{
    let ghost before = unique@;
    unique[c].seen_count = unique[c].seen_count + 1;
    if unique[c].value_type == FlatType::Null {
        unique[c].value_type = t;
    }
    proof {
        assert(unique@ =~= before.update(c as int, unique@[c as int]));
        assert(cv(unique@[c as int]) == bump(cv(before[c as int]), t));
        lemma_cvs_update(before, c as int, unique@[c as int]);
    }
}

/// The rows of the array at the root of a flattened document (or where
/// the parse started), each with a leading row-number entry, and the
/// columns found in them, most seen first.  Fails when that value is not
/// an array.
pub fn as_array(previous_parse_result: FlatParse) -> (r: Result<(Vec<ArrayEntries>, Vec<Column>), String>)
    requires
        as_array_ok(previous_parse_result),
    ensures
        match (r, as_array_spec(previous_parse_result)) {
            (Ok((rows, cols)), Ok((rs, cs))) => rvs(rows@) == rs && cvs(cols@) == cs,
            (Err(e), Err(m)) => e@ == m,
            _ => false,
        },
{
    let ghost p = previous_parse_result;
    let started = previous_parse_result.started_parsing_at;
    let prefix = previous_parse_result.parsing_prefix;
    let mut json = previous_parse_result.json;
    let total = json.len();
    let (root_type, end0) = match &started {
        Some(_) => (json[previous_parse_result.started_parsing_at_index_start].pointer.value_type,
            previous_parse_result.started_parsing_at_index_end),
        None => (json[0].pointer.value_type, 0),
    };
    let n = match root_type {
        FlatType::Array(n) => n,
        _ => {
            return Err("Parsed json root is not an array".to_owned());
        },
    };
    let end = if end0 == 0 {
        json.len() - 1
    } else {
        end0
    };
    let ghost target = rows_scan(
        ScanState { json: fvs(json@), j: end as int, unique: seq![], flat: seq![] },
        seq![],
        n as nat,
        opt_text(started),
        opt_text(prefix),
    );
    let mut unique: Vec<Column> = Vec::new();
    let mut res: Vec<ArrayEntries> = Vec::new();
    let mut j = end;
    let ghost mut last_flat: Seq<FlatValueView> = seq![];
    let mut k = n;
    proof {
        assert(cvs(unique@) =~= seq![]);
        assert(rvs(res@) =~= seq![]);
    }
    while k > 0
        invariant
            json@.len() <= total,
            j < json@.len() || json@.len() == 0,
            forall|m: int| 0 <= m < unique@.len() ==> (#[trigger] unique@[m]).seen_count <= total - json@.len(),
            target == rows_scan(
                ScanState { json: fvs(json@), j: j as int, unique: cvs(unique@), flat: last_flat },
                rvs(res@),
                k as nat,
                opt_text(started),
                opt_text(prefix),
            ),
        decreases k,
    {
        let i = k - 1;
        let pre = row_prefix_text(&started, &prefix, i);
        let ghost row_target = row_scan(
            ScanState { json: fvs(json@), j: j as int, unique: cvs(unique@), flat: seq![] },
            true,
            i as nat,
            pre@,
        );
        let mut flat: Vec<FlatValue> = Vec::new();
        let mut first = true;
        let mut go = true;
        proof {
            assert(fvs(flat@) =~= seq![]);
        }
        while go
            invariant
                json@.len() <= total,
                j < json@.len() || json@.len() == 0,
                forall|m: int| 0 <= m < unique@.len() ==> (#[trigger] unique@[m]).seen_count <= total - json@.len(),
                go ==> row_scan(
                    ScanState { json: fvs(json@), j: j as int, unique: cvs(unique@), flat: fvs(flat@) },
                    first,
                    i as nat,
                    pre@,
                ) == row_target,
                !go ==> (ScanState { json: fvs(json@), j: j as int, unique: cvs(unique@), flat: fvs(flat@) })
                    == row_target,
            decreases j + if go { 1int } else { 0int },
        {
            if json.len() == 0 {
                go = false;
            } else if !str_starts_with(json[j].pointer.pointer.as_str(), pre.as_str()) {
                go = false;
            } else {
                let ghost st = ScanState { json: fvs(json@), j: j as int, unique: cvs(unique@), flat: fvs(flat@) };
                let ghost e = st.json[j as int];
                let plen = pre.unicode_len();
                let key: String = {
                    let ptr = json[j].pointer.pointer.as_str();
                    let ulen = ptr.unicode_len();
                    ptr.substring_char(plen, ulen).to_owned()
                };
                let ghost k2 = e.pointer.subrange(pre@.len() as int, e.pointer.len() as int);
                assert(key@ == k2);
                let ghost first_before = first;
                let ghost j_before = j as int;
                let ghost cid_s = match first_column(st.unique, k2) {
                    Some(c) => st.unique[c].id,
                    None => name_id(k2),
                };
                let ghost unique2 = match first_column(st.unique, k2) {
                    Some(c) => st.unique.update(c, bump(st.unique[c], e.value_type)),
                    None => st.unique.push(
                        ColumnView {
                            name: k2,
                            depth: e.depth,
                            value_type: e.value_type,
                            seen_count: 1,
                            order: st.unique.len(),
                            id: cid_s,
                        },
                    ),
                };
                let found = find_column(&unique, key.as_str());
                let cid = match found {
                    Some(c) => {
                        let cid = unique[c].id;
                        proof {
                            assert(first_column(st.unique, k2) == Some(c as int));
                            assert(st.unique[c as int] == cv(unique@[c as int]));
                            assert(cid == cid_s);
                        }
                        bump_column(&mut unique, c, json[j].pointer.value_type);
                        proof {
                            assert(cvs(unique@) == unique2);
                        }
                        cid
                    },
                    None => {
                        let cid = column_id(key.as_str());
                        let ghost before = unique@;
                        unique.push(
                            Column {
                                name: key,
                                depth: json[j].pointer.depth,
                                value_type: json[j].pointer.value_type,
                                seen_count: 1,
                                order: unique.len(),
                                id: cid,
                            },
                        );
                        proof {
                            lemma_cvs_push(before, unique@.last());
                            assert(first_column(st.unique, k2) is None);
                            assert(cid == cid_s);
                            assert(cvs(unique@) == unique2);
                        }
                        cid
                    },
                };
                let ghost before_json = json@;
                json[j].pointer.column_id = cid;
                proof {
                    assert(json@ =~= before_json.update(j as int, json@[j as int]));
                    assert(fv(json@[j as int]) == (FlatValueView { column_id: cid, ..e }));
                    lemma_fvs_step(before_json, j as int, json@[j as int]);
                }
                if first {
                    first = false;
                    let ghost before_flat = flat@;
                    flat.push(row_number_entry(i, json[j].pointer.position, pre.as_str()));
                    proof {
                        lemma_fvs_push(before_flat, flat@.last());
                    }
                }
                let ghost json_now = json@;
                let entry = json.pop().unwrap();
                let ghost before_flat2 = flat@;
                flat.push(entry);
                proof {
                    assert(json@ =~= json_now.drop_last());
                    lemma_fvs_push(before_flat2, entry);
                }
                proof {
                    let json2 = st.json.update(j_before, FlatValueView { column_id: cid_s, ..e });
                    let flat2 = if first_before {
                        st.flat.push(row_number_view(i as nat, e.position, pre@))
                    } else {
                        st.flat
                    };
                    let st2 = ScanState {
                        json: json2.drop_last(),
                        j: j_before,
                        unique: unique2,
                        flat: flat2.push(json2.last()),
                    };
                    assert(cid == cid_s);
                    assert(fvs(json@) == st2.json);
                    assert(cvs(unique@) == st2.unique);
                    assert(fvs(flat@) == st2.flat);
                    assert(row_scan(st, first_before, i as nat, pre@) == if j_before == 0 {
                        st2
                    } else {
                        row_scan(ScanState { j: j_before - 1, ..st2 }, false, i as nat, pre@)
                    });
                }
                if j == 0 {
                    go = false;
                } else {
                    j -= 1;
                }
            }
        }
        let ghost st2 = ScanState { json: fvs(json@), j: j as int, unique: cvs(unique@), flat: fvs(flat@) };
        if flat.len() > 0 {
            let ghost before_res = res@;
            res.push(ArrayEntries { entries: flat, index: i });
            proof {
                lemma_rvs_push(before_res, res@.last());
            }
        }
        proof {
            last_flat = st2.flat;
        }
        k = i;
    }
    let rows = reverse_rows(res);
    let cols = sort_columns(unique);
    Ok((rows, cols))
}

} // verus!
