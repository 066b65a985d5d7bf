//! Properties of the row table that hold on every input: what searches and
//! filters keep, the order of an array's rows, renumbering on insertion,
//! undoing a filter toggle, and literal replacement.
use vstd::prelude::*;
use crate::replace::replaced;
use crate::flatten::{escaped_key, unescaped_key};
use crate::rows::{
    ArrayEntries, FlatParse, FlatType, NON_NULL_FILTER_VALUE, entry_matches, RowView, ScanState, as_array_spec, filter_pointer, filtered_rows,
    first_at, matching_rows, opt_text, passes_filter, passes_filters, row_matches, rows_scan, row_scan, texts,
};
use crate::table::{distinct_keys, key_index, moved_row, new_row, other_than, row_written, toggled, view_at};
use crate::depth::{row_insert_pos, rows_by_index, sort_rows_into};
use crate::rows::{ColumnView, FlatValueView, column_before, insert_pos, sort_into, sorted_columns};
use crate::text::{contains_text, lowercase_text};
use crate::array_table::{ArrayTable, column_matches, matching_column_positions, next_occurrence, previous_occurrence};
use crate::object_table::written;
use crate::table::{has_name, visible_at, visible_columns};

verus! {

// ---------------------------------------------------------------------------
// Search and filters
// ---------------------------------------------------------------------------

/// Law: every row index a search returns is that of a row holding a
/// matching string value: an entry of string type whose value, lowercased,
/// contains the term.
pub proof fn law_search_hits_match(rows: Seq<ArrayEntries>, term: Seq<char>, k: int)
    requires
        0 <= k < matching_rows(rows, term).len(),
    ensures
        exists|i: int| 0 <= i < rows.len() && rows[i].index == matching_rows(rows, term)[k] && row_matches(#[trigger] rows[i], term),
        exists|i: int, e: int|
            0 <= i < rows.len() && rows[i].index == matching_rows(rows, term)[k] && 0 <= e < rows[i].entries@.len()
                && (#[trigger] rows[i].entries@[e]).pointer.value_type == FlatType::String
                && match rows[i].entries@[e].value {
                Some(v) => contains_text(lowercase_text(v@), term),
                None => false,
            },
    decreases rows.len(),
{
    let rest = matching_rows(rows.drop_last(), term);
    if k < rest.len() {
        law_search_hits_match(rows.drop_last(), term, k);
        let i = choose|i: int|
            0 <= i < rows.drop_last().len() && rows.drop_last()[i].index == rest[k] && row_matches(
                #[trigger] rows.drop_last()[i],
                term,
            );
        assert(rows[i] == rows.drop_last()[i]);
    } else {
        assert(row_matches(rows[rows.len() - 1], term));
    }
    let i = choose|i: int| 0 <= i < rows.len() && rows[i].index == matching_rows(rows, term)[k] && row_matches(#[trigger] rows[i], term);
    let e = choose|e: int| 0 <= e < rows[i].entries@.len() && #[trigger] entry_matches(rows[i].entries@[e], term);
    assert(entry_matches(rows[i].entries@[e], term));
}

/// Law: every row a filter with the non-null marker keeps has a value, not
/// `null`, at the filtered pointer.
pub proof fn law_non_null_filter(rows: Seq<ArrayEntries>, prefix: Seq<char>, filters: Seq<(String, Vec<String>)>, f: int, k: int)
    requires
        0 <= f < filters.len(),
        texts(filters[f].1@).contains(NON_NULL_FILTER_VALUE@),
        0 <= k < filtered_rows(rows, prefix, filters).len(),
    ensures
        exists|i: int|
            0 <= i < rows.len() && rows[i].index == filtered_rows(rows, prefix, filters)[k] && match first_at(
                (#[trigger] rows[i]).entries@,
                filter_pointer(prefix, rows[i].index, filters[f].0@),
            ) {
                Some(e) => rows[i].entries@[e].value is Some,
                None => false,
            },
    decreases rows.len(),
{
    let rest = filtered_rows(rows.drop_last(), prefix, filters);
    if k < rest.len() {
        law_non_null_filter(rows.drop_last(), prefix, filters, f, k);
        let i = choose|i: int|
            0 <= i < rows.drop_last().len() && rows.drop_last()[i].index == rest[k] && match first_at(
                (#[trigger] rows.drop_last()[i]).entries@,
                filter_pointer(prefix, rows.drop_last()[i].index, filters[f].0@),
            ) {
                Some(e) => rows.drop_last()[i].entries@[e].value is Some,
                None => false,
            };
        assert(rows[i] == rows.drop_last()[i]);
    } else {
        let last = rows.len() - 1;
        assert(passes_filters(rows[last], prefix, filters));
        assert(passes_filter(rows[last], prefix, filters[f].0@, filters[f].1@));
        assert(rows[last].index == filtered_rows(rows, prefix, filters)[k]);
    }
}

// ---------------------------------------------------------------------------
// Rows of an array
// ---------------------------------------------------------------------------

proof fn lemma_rows_scan_order(
    st: ScanState,
    res: Seq<RowView>,
    n: nat,
    started: Option<Seq<char>>,
    prefix: Option<Seq<char>>,
)
    requires
        n <= usize::MAX,
        forall|a: int, b: int| 0 <= a < b < res.len() ==> res[a].index > res[b].index,
        forall|a: int| 0 <= a < res.len() ==> res[a].index >= n,
    ensures
        forall|a: int, b: int|
            0 <= a < b < rows_scan(st, res, n, started, prefix).1.len() ==> rows_scan(st, res, n, started, prefix).1[a].index
                > rows_scan(st, res, n, started, prefix).1[b].index,
    decreases n,
{
    if n > 0 {
        let i = (n - 1) as nat;
        let st2 = row_scan(ScanState { flat: seq![], ..st }, true, i, crate::rows::row_prefix(started, prefix, i));
        let res2 = if st2.flat.len() > 0 {
            res.push(RowView { entries: st2.flat, index: i as usize })
        } else {
            res
        };
        assert forall|a: int, b: int| 0 <= a < b < res2.len() implies res2[a].index > res2[b].index by {
            if b == res.len() {
                assert(res2[a] == res[a]);
            } else {
                assert(res2[a] == res[a] && res2[b] == res[b]);
            }
        }
        assert forall|a: int| 0 <= a < res2.len() implies res2[a].index >= i by {
            if a < res.len() {
                assert(res2[a] == res[a]);
            }
        }
        lemma_rows_scan_order(st2, res2, i, started, prefix);
        assert(rows_scan(st, res, n, started, prefix) == rows_scan(st2, res2, i, started, prefix));
    }
}

/// Law: the rows of an array come out in increasing index order.
pub proof fn law_as_array_rows_ordered(p: FlatParse)
    ensures
        as_array_spec(p) matches Ok((rows, _)) ==> forall|a: int, b: int|
            0 <= a < b < rows.len() ==> rows[a].index < rows[b].index,
{
    if let Ok((rows, _)) = as_array_spec(p) {
        let json = crate::rows::fvs(p.json@);
        let (root, end0) = match p.started_parsing_at {
            Some(_) => (json[p.started_parsing_at_index_start as int], p.started_parsing_at_index_end as int),
            None => (json[0], 0),
        };
        if let crate::rows::FlatType::Array(n) = root.value_type {
            let end = if end0 == 0 {
                json.len() - 1
            } else {
                end0
            };
            let st = ScanState { json: json, j: end, unique: seq![], flat: seq![] };
            lemma_rows_scan_order(st, seq![], n as nat, opt_text(p.started_parsing_at), opt_text(p.parsing_prefix));
            let res = rows_scan(st, seq![], n as nat, opt_text(p.started_parsing_at), opt_text(p.parsing_prefix)).1;
            assert(rows == res.reverse());
            assert forall|a: int, b: int| 0 <= a < b < rows.len() implies rows[a].index < rows[b].index by {
                assert(rows[a] == res[res.len() - 1 - a]);
                assert(rows[b] == res[res.len() - 1 - b]);
            }
        }
    }
}

/// The scan position is the last remaining value (or none is left).
pub open spec fn at_last(st: ScanState) -> bool {
    st.json.len() == 0 || st.j == st.json.len() - 1
}

/// Every value gathered for the row lies under `pre`.
pub open spec fn all_under(es: Seq<FlatValueView>, pre: Seq<char>) -> bool {
    forall|k: int| 0 <= k < es.len() ==> crate::model::is_prefix(pre, (#[trigger] es[k]).pointer)
}

proof fn lemma_row_scan_under(st: ScanState, first: bool, i: nat, pre: Seq<char>)
    requires
        at_last(st),
        all_under(st.flat, pre),
    ensures
        at_last(row_scan(st, first, i, pre)),
        all_under(row_scan(st, first, i, pre).flat, pre),
    decreases st.j + 1,
{
    if st.json.len() == 0 || st.j < 0 || st.j >= st.json.len() {
    } else {
        let e = st.json[st.j];
        if crate::model::is_prefix(pre, e.pointer) {
            let key = e.pointer.subrange(pre.len() as int, e.pointer.len() as int);
            let cid = match crate::rows::first_column(st.unique, key) {
                Some(c) => st.unique[c].id,
                None => crate::rows::name_id(key),
            };
            let json2 = st.json.update(st.j, FlatValueView { column_id: cid, ..e });
            let flat2 = if first {
                st.flat.push(crate::rows::row_number_view(i, e.position, pre))
            } else {
                st.flat
            };
            reveal_strlit("/#");
            assert(crate::model::is_prefix(pre, crate::rows::row_number_view(i, e.position, pre).pointer)) by {
                assert((pre + "/#"@).subrange(0, pre.len() as int) =~= pre);
            }
            assert(json2.last().pointer == e.pointer);
            let f = flat2.push(json2.last());
            assert(all_under(f, pre)) by {
                assert forall|k: int| 0 <= k < f.len() implies crate::model::is_prefix(pre, (#[trigger] f[k]).pointer) by {
                    if k < st.flat.len() {
                        assert(f[k] == st.flat[k]);
                    }
                }
            }
            let unique2 = match crate::rows::first_column(st.unique, key) {
                Some(c) => st.unique.update(c, crate::rows::bump(st.unique[c], e.value_type)),
                None => st.unique.push(
                    ColumnView {
                        name: key,
                        depth: e.depth,
                        value_type: e.value_type,
                        seen_count: 1,
                        order: st.unique.len(),
                        id: cid,
                    },
                ),
            };
            let st2 = ScanState { json: json2.drop_last(), j: st.j, unique: unique2, flat: f };
            if st.j != 0 {
                lemma_row_scan_under(ScanState { j: st.j - 1, ..st2 }, false, i, pre);
            }
        }
    }
}

proof fn lemma_rows_scan_under(st: ScanState, res: Seq<RowView>, n: nat, started: Option<Seq<char>>, prefix: Option<Seq<char>>)
    requires
        n <= usize::MAX,
        at_last(st),
        forall|r: int| 0 <= r < res.len() ==> all_under((#[trigger] res[r]).entries, crate::rows::row_prefix(started, prefix, res[r].index as nat)),
    ensures
        forall|r: int|
            0 <= r < rows_scan(st, res, n, started, prefix).1.len() ==> all_under(
                (#[trigger] rows_scan(st, res, n, started, prefix).1[r]).entries,
                crate::rows::row_prefix(started, prefix, rows_scan(st, res, n, started, prefix).1[r].index as nat),
            ),
    decreases n,
{
    if n > 0 {
        let i = (n - 1) as nat;
        let pre = crate::rows::row_prefix(started, prefix, i);
        let st0 = ScanState { flat: seq![], ..st };
        lemma_row_scan_under(st0, true, i, pre);
        let st2 = row_scan(st0, true, i, pre);
        let res2 = if st2.flat.len() > 0 {
            res.push(RowView { entries: st2.flat, index: i as usize })
        } else {
            res
        };
        assert forall|r: int| 0 <= r < res2.len() implies all_under((#[trigger] res2[r]).entries, crate::rows::row_prefix(started, prefix, res2[r].index as nat)) by {
            if r < res.len() {
                assert(res2[r] == res[r]);
            } else {
                assert(res2[r].index as nat == i);
                assert(res2[r].entries == st2.flat);
            }
        }
        lemma_rows_scan_under(st2, res2, i, started, prefix);
        assert(rows_scan(st, res, n, started, prefix) == rows_scan(st2, res2, i, started, prefix));
    }
}

/// Law: for a parse that did not start at a pointer, every value of row
/// `i` of the array lies under the row's prefix (the parsing prefix, or
/// nothing, then `/i`): the values of a row are that element's own.
pub proof fn law_as_array_rows_hold_their_values(p: FlatParse)
    requires
        p.started_parsing_at is None,
    ensures
        as_array_spec(p) matches Ok((rows, _)) ==> forall|r: int|
            0 <= r < rows.len() ==> all_under(
                (#[trigger] rows[r]).entries,
                crate::rows::row_prefix(None, opt_text(p.parsing_prefix), rows[r].index as nat),
            ),
{
    if let Ok((rows, _)) = as_array_spec(p) {
        let json = crate::rows::fvs(p.json@);
        let root = json[0];
        if let crate::rows::FlatType::Array(n) = root.value_type {
            let end = json.len() - 1;
            let st = ScanState { json: json, j: end, unique: seq![], flat: seq![] };
            assert(opt_text(p.started_parsing_at) is None);
            lemma_rows_scan_under(st, seq![], n as nat, opt_text(p.started_parsing_at), opt_text(p.parsing_prefix));
            let res = rows_scan(st, seq![], n as nat, opt_text(p.started_parsing_at), opt_text(p.parsing_prefix)).1;
            assert(rows == res.reverse());
            assert forall|r: int| 0 <= r < rows.len() implies all_under(
                (#[trigger] rows[r]).entries,
                crate::rows::row_prefix(None, opt_text(p.parsing_prefix), rows[r].index as nat),
            ) by {
                assert(rows[r] == res[res.len() - 1 - r]);
            }
        }
    }
}

/// No two columns share a name.
pub open spec fn distinct_names(s: Seq<ColumnView>) -> bool {
    forall|a: int, b: int| 0 <= a < b < s.len() ==> (#[trigger] s[a]).name != (#[trigger] s[b]).name
}

proof fn lemma_row_scan_distinct(st: ScanState, first: bool, i: nat, pre: Seq<char>)
    requires
        distinct_names(st.unique),
    ensures
        distinct_names(row_scan(st, first, i, pre).unique),
    decreases st.j + 1,
{
    if st.json.len() == 0 || st.j < 0 || st.j >= st.json.len() {
    } else {
        let e = st.json[st.j];
        if crate::model::is_prefix(pre, e.pointer) {
            let key = e.pointer.subrange(pre.len() as int, e.pointer.len() as int);
            crate::rows::lemma_first_column(st.unique, key);
            let cid = match crate::rows::first_column(st.unique, key) {
                Some(c) => st.unique[c].id,
                None => crate::rows::name_id(key),
            };
            let unique2 = match crate::rows::first_column(st.unique, key) {
                Some(c) => st.unique.update(c, crate::rows::bump(st.unique[c], e.value_type)),
                None => st.unique.push(
                    ColumnView {
                        name: key,
                        depth: e.depth,
                        value_type: e.value_type,
                        seen_count: 1,
                        order: st.unique.len(),
                        id: cid,
                    },
                ),
            };
            assert(distinct_names(unique2)) by {
                assert forall|a: int, b: int| 0 <= a < b < unique2.len() implies (#[trigger] unique2[a]).name != (#[trigger] unique2[b]).name by {
                    match crate::rows::first_column(st.unique, key) {
                        Some(c) => {
                            assert(unique2[a].name == st.unique[a].name);
                            assert(unique2[b].name == st.unique[b].name);
                        },
                        None => {
                            if b == st.unique.len() {
                                assert(unique2[a] == st.unique[a]);
                            } else {
                                assert(unique2[a] == st.unique[a] && unique2[b] == st.unique[b]);
                            }
                        },
                    }
                }
            }
            let json2 = st.json.update(st.j, FlatValueView { column_id: cid, ..e });
            let flat2 = if first {
                st.flat.push(crate::rows::row_number_view(i, e.position, pre))
            } else {
                st.flat
            };
            let st2 = ScanState { json: json2.drop_last(), j: st.j, unique: unique2, flat: flat2.push(json2.last()) };
            if st.j != 0 {
                lemma_row_scan_distinct(ScanState { j: st.j - 1, ..st2 }, false, i, pre);
            }
        }
    }
}

proof fn lemma_rows_scan_distinct(st: ScanState, res: Seq<RowView>, n: nat, started: Option<Seq<char>>, prefix: Option<Seq<char>>)
    requires
        distinct_names(st.unique),
    ensures
        distinct_names(rows_scan(st, res, n, started, prefix).0.unique),
    decreases n,
{
    if n > 0 {
        let i = (n - 1) as nat;
        let pre = crate::rows::row_prefix(started, prefix, i);
        let st0 = ScanState { flat: seq![], ..st };
        lemma_row_scan_distinct(st0, true, i, pre);
        let st2 = row_scan(st0, true, i, pre);
        let res2 = if st2.flat.len() > 0 {
            res.push(RowView { entries: st2.flat, index: i as usize })
        } else {
            res
        };
        lemma_rows_scan_distinct(st2, res2, i, started, prefix);
        assert(rows_scan(st, res, n, started, prefix) == rows_scan(st2, res2, i, started, prefix));
    }
}

proof fn lemma_sort_into_distinct(acc: Seq<ColumnView>, rest: Seq<ColumnView>)
    requires
        distinct_names(acc),
        distinct_names(rest),
        forall|a: int, b: int| 0 <= a < acc.len() && 0 <= b < rest.len() ==> (#[trigger] acc[a]).name != (#[trigger] rest[b]).name,
    ensures
        distinct_names(sort_into(acc, rest)),
    decreases rest.len(),
{
    if rest.len() > 0 {
        let x = rest[0];
        let k = insert_pos(acc, x);
        lemma_insert_pos_bounds(acc, x);
        let acc2 = acc.insert(k, x);
        let rest2 = rest.drop_first();
        assert forall|i: int| 0 <= i < acc2.len() implies #[trigger] acc2[i] == if i < k {
            acc[i]
        } else if i == k {
            x
        } else {
            acc[i - 1]
        } by {}
        assert(distinct_names(acc2)) by {
            assert forall|a: int, b: int| 0 <= a < b < acc2.len() implies (#[trigger] acc2[a]).name != (#[trigger] acc2[b]).name by {
                if a == k {
                    assert(acc2[b] == acc[b - 1]);
                    assert(acc[b - 1].name != rest[0].name);
                } else if b == k {
                    assert(acc2[a] == acc[a]);
                    assert(acc[a].name != rest[0].name);
                } else {
                    let a0 = if a < k { a } else { a - 1 };
                    let b0 = if b < k { b } else { b - 1 };
                    assert(acc2[a] == acc[a0] && acc2[b] == acc[b0]);
                    assert(a0 < b0);
                }
            }
        }
        assert(distinct_names(rest2)) by {
            assert forall|a: int, b: int| 0 <= a < b < rest2.len() implies (#[trigger] rest2[a]).name != (#[trigger] rest2[b]).name by {
                assert(rest2[a] == rest[a + 1] && rest2[b] == rest[b + 1]);
            }
        }
        assert forall|a: int, b: int| 0 <= a < acc2.len() && 0 <= b < rest2.len() implies (#[trigger] acc2[a]).name != (#[trigger] rest2[b]).name by {
            assert(rest2[b] == rest[b + 1]);
            if a == k {
                assert(rest[0].name != rest[b + 1].name);
            } else {
                let a0 = if a < k { a } else { a - 1 };
                assert(acc2[a] == acc[a0]);
            }
        }
        lemma_sort_into_distinct(acc2, rest2);
    }
}

/// Law: the columns of an array table have distinct names.
pub proof fn law_as_array_columns_distinct(p: FlatParse)
    ensures
        as_array_spec(p) matches Ok((_, cols)) ==> distinct_names(cols),
{
    if let Ok((_, cols)) = as_array_spec(p) {
        let json = crate::rows::fvs(p.json@);
        let (root, end0) = match p.started_parsing_at {
            Some(_) => (json[p.started_parsing_at_index_start as int], p.started_parsing_at_index_end as int),
            None => (json[0], 0),
        };
        if let crate::rows::FlatType::Array(n) = root.value_type {
            let end = if end0 == 0 {
                json.len() - 1
            } else {
                end0
            };
            let st = ScanState { json: json, j: end, unique: seq![], flat: seq![] };
            lemma_rows_scan_distinct(st, seq![], n as nat, opt_text(p.started_parsing_at), opt_text(p.parsing_prefix));
            let u = rows_scan(st, seq![], n as nat, opt_text(p.started_parsing_at), opt_text(p.parsing_prefix)).0.unique;
            lemma_sort_into_distinct(seq![], u);
            assert(cols == sorted_columns(u));
        }
    }
}

// ---------------------------------------------------------------------------
// Inserting rows
// ---------------------------------------------------------------------------

/// Law: when every row's index is its position, it still is after a row is
/// inserted, and there is one row more.
pub proof fn law_insert_keeps_numbering(old_rows: Seq<RowView>, new_index: nat, parent: Seq<char>, depth: u8)
    requires
        new_index <= old_rows.len(),
        old_rows.len() < usize::MAX,
        forall|k: int| 0 <= k < old_rows.len() ==> (#[trigger] old_rows[k]).index == k,
    ensures
        ({
            let rows = old_rows.take(new_index as int) + seq![new_row(new_index, parent, depth)] + Seq::new(
                (old_rows.len() - new_index) as nat,
                |j: int| moved_row(old_rows[new_index + j], parent, (new_index + j) as nat),
            );
            &&& rows.len() == old_rows.len() + 1
            &&& forall|k: int| 0 <= k < rows.len() ==> (#[trigger] rows[k]).index == k
        }),
{
    let rows = old_rows.take(new_index as int) + seq![new_row(new_index, parent, depth)] + Seq::new(
        (old_rows.len() - new_index) as nat,
        |j: int| moved_row(old_rows[new_index + j], parent, (new_index + j) as nat),
    );
    assert forall|k: int| 0 <= k < rows.len() implies (#[trigger] rows[k]).index == k by {
        if k < new_index {
            assert(rows[k] == old_rows[k]);
        } else if k == new_index {
            assert(rows[k] == new_row(new_index, parent, depth));
        } else {
            assert(rows[k] == moved_row(old_rows[k - 1], parent, (k - 1) as nat));
        }
    }
}

// ---------------------------------------------------------------------------
// Filter toggles
// ---------------------------------------------------------------------------

/// Law: toggling a value that a filter does not accept, then toggling it
/// again, gives back the filters, when no column has two filters and no
/// filter is empty.
pub proof fn law_toggle_twice(f: Seq<(Seq<char>, Seq<Seq<char>>)>, key: Seq<char>, value: Seq<char>)
    requires
        distinct_keys(f),
        forall|m: int| 0 <= m < f.len() ==> (#[trigger] f[m]).1.len() > 0,
        key_index(f, key) matches Some(k) ==> !f[k].1.contains(value),
    ensures
        toggled(toggled(f, key, value), key, value) == f,
{
    let g = toggled(f, key, value);
    match key_index(f, key) {
        None => {
            assert(g == f.push((key, seq![value])));
            assert(g[f.len() as int].0 == key);
            assert(key_index(g, key) == Some(f.len() as int)) by {
                let c = choose|c: int| 0 <= c < g.len() && (#[trigger] g[c]).0 == key;
                if c < f.len() {
                    assert(g[c] == f[c]);
                    assert(exists|k: int| 0 <= k < f.len() && (#[trigger] f[k]).0 == key);
                }
            }
            assert(seq![value].contains(value)) by {
                assert(seq![value][0] == value);
            }
            assert(seq![value].filter(other_than(value)) =~= seq![]) by {
                reveal(Seq::filter);
                assert(seq![value].drop_last() =~= Seq::<Seq<char>>::empty());
                assert(Seq::<Seq<char>>::empty().filter(other_than(value)) =~= seq![]);
                assert(seq![value].len() == 1);
                assert(seq![value].last() == value);
            }
            assert(g.remove(f.len() as int) =~= f);
            assert(toggled(g, key, value) == f);
        },
        Some(k) => {
            let vals = f[k].1;
            assert(f[k].0 == key) by {
                assert(exists|c: int| 0 <= c < f.len() && (#[trigger] f[c]).0 == key);
            }
            assert(g == f.update(k, (key, vals.push(value))));
            assert(key_index(g, key) == Some(k)) by {
                let c = choose|c: int| 0 <= c < g.len() && (#[trigger] g[c]).0 == key;
                assert(g[k].0 == key);
                if c != k {
                    assert(g[c] == f[c]);
                    if c < k {
                        assert(f[c].0 != f[k].0);
                    } else {
                        assert(f[k].0 != f[c].0);
                    }
                }
            }
            assert(vals.push(value).contains(value)) by {
                assert(vals.push(value)[vals.len() as int] == value);
            }
            assert(vals.push(value).filter(other_than(value)) =~= vals) by {
                lemma_filter_keeps_all(vals, value);
                reveal(Seq::filter);
                assert(vals.push(value).drop_last() =~= vals);
            }
            assert(g.update(k, (key, vals)) =~= f);
            assert(toggled(g, key, value) == f);
        },
    }
}

proof fn lemma_filter_keeps_all(s: Seq<Seq<char>>, value: Seq<char>)
    requires
        !s.contains(value),
    ensures
        s.filter(other_than(value)) == s,
    decreases s.len(),
{
    reveal(Seq::filter);
    if s.len() > 0 {
        assert(!s.drop_last().contains(value)) by {
            if s.drop_last().contains(value) {
                let j = choose|j: int| 0 <= j < s.drop_last().len() && #[trigger] s.drop_last()[j] == value;
                assert(s[j] == value);
            }
        }
        lemma_filter_keeps_all(s.drop_last(), value);
        assert(s.last() != value) by {
            if s.last() == value {
                assert(s[s.len() - 1] == value);
            }
        }
        assert(s.drop_last().push(s.last()) =~= s);
    } else {
        assert(s.filter(other_than(value)) =~= s);
    }
}

// ---------------------------------------------------------------------------
// Literal replacement
// ---------------------------------------------------------------------------

/// Law: a literal, case-sensitive replacement of a non-empty text that does
/// not occur in a value leaves the value as it is.
pub proof fn law_replace_absent_text(s: Seq<char>, from: Seq<char>, to: Seq<char>)
    requires
        from.len() > 0,
        !contains_text(s, from),
    ensures
        replaced(s, from, to) == s,
    decreases s.len(),
{
    if s.len() >= from.len() {
        assert(s.subrange(0, from.len() as int) != from) by {
            if s.subrange(0, from.len() as int) == from {
                assert(s.subrange(0int, 0int + from.len()) == from);
            }
        }
        assert(!contains_text(s.drop_first(), from)) by {
            if contains_text(s.drop_first(), from) {
                let i = choose|i: int|
                    0 <= i && i + from.len() <= s.drop_first().len() && #[trigger] s.drop_first().subrange(
                        i,
                        i + from.len(),
                    ) == from;
                assert(s.subrange(i + 1, i + 1 + from.len()) =~= s.drop_first().subrange(i, i + from.len()));
            }
        }
        law_replace_absent_text(s.drop_first(), from, to);
        assert(seq![s[0]] + s.drop_first() =~= s);
    }
}

// ---------------------------------------------------------------------------
// Table order
// ---------------------------------------------------------------------------

proof fn lemma_column_insert_sorted(s: Seq<ColumnView>, c: ColumnView)
    requires
        forall|a: int, b: int| 0 <= a < b < s.len() ==> !column_before(s[b], s[a]),
    ensures
        ({
            let k = insert_pos(s, c);
            let t = s.insert(k, c);
            &&& 0 <= k <= s.len()
            &&& forall|a: int, b: int| 0 <= a < b < t.len() ==> !column_before(t[b], t[a])
        }),
    decreases s.len(),
{
    if s.len() > 0 && column_before(c, s.last()) {
        let d = s.drop_last();
        lemma_column_insert_sorted(d, c);
        let k = insert_pos(d, c);
        assert(insert_pos(s, c) == k);
        let t = s.insert(k, c);
        let u = d.insert(k, c);
        assert(t =~= u.push(s.last()));
        assert forall|a: int, b: int| 0 <= a < b < t.len() implies !column_before(t[b], t[a]) by {
            if b == t.len() - 1 {
                if a == k {
                    assert(t[a] == c);
                } else if a < k {
                    assert(t[a] == s[a]);
                    assert(!column_before(s[s.len() - 1], s[a]));
                } else {
                    assert(t[a] == s[a - 1]);
                    assert(!column_before(s[s.len() - 1], s[a - 1]));
                }
            } else {
                assert(t[a] == u[a] && t[b] == u[b]);
            }
        }
    } else {
        let t = s.insert(s.len() as int, c);
        assert forall|a: int, b: int| 0 <= a < b < t.len() implies !column_before(t[b], t[a]) by {
            if b == s.len() {
                assert(t[b] == c);
                assert(t[a] == s[a]);
                if s.len() > 0 {
                    assert(!column_before(c, s[s.len() - 1]));
                    assert(a == s.len() - 1 || !column_before(s[s.len() - 1], s[a]));
                }
            } else {
                assert(t[a] == s[a] && t[b] == s[b]);
            }
        }
    }
}

proof fn lemma_sort_into_sorted(acc: Seq<ColumnView>, rest: Seq<ColumnView>)
    requires
        forall|a: int, b: int| 0 <= a < b < acc.len() ==> !column_before(acc[b], acc[a]),
    ensures
        forall|a: int, b: int|
            0 <= a < b < sort_into(acc, rest).len() ==> !column_before(sort_into(acc, rest)[b], sort_into(acc, rest)[a]),
        sort_into(acc, rest).len() == acc.len() + rest.len(),
    decreases rest.len(),
{
    if rest.len() > 0 {
        lemma_column_insert_sorted(acc, rest[0]);
        lemma_sort_into_sorted(acc.insert(insert_pos(acc, rest[0]), rest[0]), rest.drop_first());
    }
}

/// Law: columns in table order come most seen first, and among columns seen
/// as often, the one found later first; sorting keeps every column.
pub proof fn law_columns_in_table_order(s: Seq<ColumnView>)
    ensures
        sorted_columns(s).len() == s.len(),
        forall|a: int, b: int|
            0 <= a < b < sorted_columns(s).len() ==> sorted_columns(s)[a].seen_count > sorted_columns(s)[b].seen_count
                || (sorted_columns(s)[a].seen_count == sorted_columns(s)[b].seen_count && sorted_columns(s)[a].order
                >= sorted_columns(s)[b].order),
{
    lemma_sort_into_sorted(seq![], s);
    let t = sorted_columns(s);
    assert forall|a: int, b: int| 0 <= a < b < t.len() implies t[a].seen_count > t[b].seen_count || (t[a].seen_count
        == t[b].seen_count && t[a].order >= t[b].order) by {
        assert(!column_before(t[b], t[a]));
    }
}

proof fn lemma_row_insert_sorted(s: Seq<RowView>, r: RowView)
    requires
        forall|a: int, b: int| 0 <= a < b < s.len() ==> s[a].index <= s[b].index,
    ensures
        ({
            let k = row_insert_pos(s, r);
            let t = s.insert(k, r);
            &&& 0 <= k <= s.len()
            &&& forall|a: int, b: int| 0 <= a < b < t.len() ==> t[a].index <= t[b].index
        }),
    decreases s.len(),
{
    if s.len() > 0 && r.index < s.last().index {
        let d = s.drop_last();
        lemma_row_insert_sorted(d, r);
        let k = row_insert_pos(d, r);
        let t = s.insert(k, r);
        let u = d.insert(k, r);
        assert(t =~= u.push(s.last()));
        assert forall|a: int, b: int| 0 <= a < b < t.len() implies t[a].index <= t[b].index by {
            if b == t.len() - 1 {
                if a == k {
                    assert(t[a] == r);
                } else if a < k {
                    assert(t[a] == s[a]);
                } else {
                    assert(t[a] == s[a - 1]);
                }
            } else {
                assert(t[a] == u[a] && t[b] == u[b]);
            }
        }
    } else {
        let t = s.insert(s.len() as int, r);
        assert forall|a: int, b: int| 0 <= a < b < t.len() implies t[a].index <= t[b].index by {
            if b == s.len() {
                assert(t[a] == s[a]);
                if s.len() > 0 {
                    assert(a == s.len() - 1 || s[a].index <= s[s.len() - 1].index);
                }
            } else {
                assert(t[a] == s[a] && t[b] == s[b]);
            }
        }
    }
}

proof fn lemma_sort_rows_into_sorted(acc: Seq<RowView>, rest: Seq<RowView>)
    requires
        forall|a: int, b: int| 0 <= a < b < acc.len() ==> acc[a].index <= acc[b].index,
    ensures
        forall|a: int, b: int|
            0 <= a < b < sort_rows_into(acc, rest).len() ==> sort_rows_into(acc, rest)[a].index <= sort_rows_into(
                acc,
                rest,
            )[b].index,
        sort_rows_into(acc, rest).len() == acc.len() + rest.len(),
    decreases rest.len(),
{
    if rest.len() > 0 {
        lemma_row_insert_sorted(acc, rest[0]);
        lemma_sort_rows_into_sorted(acc.insert(row_insert_pos(acc, rest[0]), rest[0]), rest.drop_first());
    }
}

/// Law: rows put in index order are in index order, and none is lost.
pub proof fn law_rows_in_index_order(s: Seq<RowView>)
    ensures
        rows_by_index(s).len() == s.len(),
        forall|a: int, b: int| 0 <= a < b < rows_by_index(s).len() ==> rows_by_index(s)[a].index <= rows_by_index(s)[b].index,
{
    lemma_sort_rows_into_sorted(seq![], s);
}

// ---------------------------------------------------------------------------
// Writing values
// ---------------------------------------------------------------------------

/// Law: writing the same value twice in a row changes nothing the second
/// time.
pub proof fn law_write_twice(s: Seq<FlatValueView>, u: FlatValueView)
    requires
        view_at(s, u.pointer) is None && u.value is Some ==> s.len() > 0,
    ensures
        !row_written(row_written(s, u).0, u).1,
{
    let t = row_written(s, u).0;
    lemma_view_at_all(s, u.pointer);
    match view_at(s, u.pointer) {
        Some(k) => {
            lemma_view_at_all(t, u.pointer);
            if s[k].value != u.value {
                assert(t[k].pointer == u.pointer);
                assert forall|m: int| 0 <= m < k implies (#[trigger] t[m]).pointer != u.pointer by {
                    assert(t[m] == s[m]);
                }
                assert(view_at(t, u.pointer) == Some(k));
            }
        },
        None => {
            if u.value is Some {
                let k = s.len() - 1;
                lemma_view_at_all(t, u.pointer);
                assert(t[k].pointer == u.pointer);
                assert forall|m: int| 0 <= m < k implies (#[trigger] t[m]).pointer != u.pointer by {
                    assert(t[m] == s[m]);
                }
                assert(view_at(t, u.pointer) == Some(k));
            }
        },
    }
}

/// Law: after a value is written in a row, the row's entry at its pointer
/// holds the value written (a null value for a pointer the row does not
/// have leaves the row as it was).
pub proof fn law_read_after_write(s: Seq<FlatValueView>, u: FlatValueView)
    requires
        view_at(s, u.pointer) is None && u.value is Some ==> s.len() > 0,
    ensures
        view_at(s, u.pointer) is Some || u.value is Some ==> {
            let t = row_written(s, u).0;
            view_at(t, u.pointer) matches Some(k) && t[k].value == u.value
        },
{
    let t = row_written(s, u).0;
    lemma_view_at_all(s, u.pointer);
    match view_at(s, u.pointer) {
        Some(k) => {
            lemma_view_at_all(t, u.pointer);
            assert(t[k].pointer == u.pointer);
            assert forall|m: int| 0 <= m < k implies (#[trigger] t[m]).pointer != u.pointer by {
                assert(t[m] == s[m]);
            }
            assert(view_at(t, u.pointer) == Some(k));
        },
        None => {
            if u.value is Some {
                let k = s.len() - 1;
                lemma_view_at_all(t, u.pointer);
                assert(t[k].pointer == u.pointer);
                assert forall|m: int| 0 <= m < k implies (#[trigger] t[m]).pointer != u.pointer by {
                    assert(t[m] == s[m]);
                }
                assert(view_at(t, u.pointer) == Some(k));
            }
        },
    }
}

proof fn lemma_view_at_all(s: Seq<FlatValueView>, p: Seq<char>)
    ensures
        view_at(s, p) matches Some(k) ==> 0 <= k < s.len() && s[k].pointer == p && forall|m: int|
            0 <= m < k ==> (#[trigger] s[m]).pointer != p,
        view_at(s, p) is None ==> forall|m: int| 0 <= m < s.len() ==> (#[trigger] s[m]).pointer != p,
        (exists|k: int| 0 <= k < s.len() && (#[trigger] s[k]).pointer == p && forall|m: int|
            0 <= m < k ==> (#[trigger] s[m]).pointer != p) ==> view_at(s, p) is Some,
    decreases s.len(),
{
    if s.len() > 0 {
        lemma_view_at_all(s.drop_last(), p);
        assert forall|m: int| 0 <= m < s.len() - 1 implies #[trigger] s[m] == s.drop_last()[m] by {}
    }
}

// ---------------------------------------------------------------------------
// Pointer fragments
// ---------------------------------------------------------------------------

/// Each `a` of `s` written as `to`, other characters kept.
pub open spec fn each_char(s: Seq<char>, a: char, to: Seq<char>) -> Seq<char>
    decreases s.len(),
{
    if s.len() == 0 {
        seq![]
    } else {
        (if s[0] == a {
            to
        } else {
            seq![s[0]]
        }) + each_char(s.drop_first(), a, to)
    }
}

/// A key with `~` written `~0` and `/` written `~1`.
pub open spec fn escaped_chars(s: Seq<char>) -> Seq<char>
    decreases s.len(),
{
    if s.len() == 0 {
        seq![]
    } else {
        (if s[0] == '~' {
            seq!['~', '0']
        } else if s[0] == '/' {
            seq!['~', '1']
        } else {
            seq![s[0]]
        }) + escaped_chars(s.drop_first())
    }
}

proof fn lemma_replace_one_char(s: Seq<char>, a: char, to: Seq<char>)
    ensures
        replaced(s, seq![a], to) == each_char(s, a, to),
    decreases s.len(),
{
    if s.len() > 0 {
        lemma_replace_one_char(s.drop_first(), a, to);
        assert(s.subrange(1, s.len() as int) =~= s.drop_first());
        if s[0] == a {
            assert(s.subrange(0, 1) =~= seq![a]);
        } else {
            assert(s.subrange(0, 1)[0] == s[0]);
        }
    }
}

proof fn lemma_each_char_concat(x: Seq<char>, y: Seq<char>, a: char, to: Seq<char>)
    ensures
        each_char(x + y, a, to) == each_char(x, a, to) + each_char(y, a, to),
    decreases x.len(),
{
    if x.len() == 0 {
        assert(x + y =~= y);
    } else {
        assert((x + y).drop_first() =~= x.drop_first() + y);
        assert((x + y)[0] == x[0]);
        lemma_each_char_concat(x.drop_first(), y, a, to);
    }
}

proof fn lemma_escape_chars(s: Seq<char>)
    ensures
        each_char(each_char(s, '~', seq!['~', '0']), '/', seq!['~', '1']) == escaped_chars(s),
    decreases s.len(),
{
    if s.len() > 0 {
        lemma_escape_chars(s.drop_first());
        let head = if s[0] == '~' {
            seq!['~', '0']
        } else {
            seq![s[0]]
        };
        let rest = each_char(s.drop_first(), '~', seq!['~', '0']);
        lemma_each_char_concat(head, rest, '/', seq!['~', '1']);
        if s[0] == '~' {
            assert(each_char(head, '/', seq!['~', '1']) =~= seq!['~', '0']) by {
                reveal_with_fuel(each_char, 3);
                assert(head.drop_first() =~= seq!['0']);
                assert(seq!['0'].drop_first() =~= Seq::<char>::empty());
            }
        } else if s[0] == '/' {
            assert(each_char(head, '/', seq!['~', '1']) =~= seq!['~', '1']) by {
                reveal_with_fuel(each_char, 2);
                assert(head.drop_first() =~= Seq::<char>::empty());
            }
        } else {
            assert(each_char(head, '/', seq!['~', '1']) =~= seq![s[0]]) by {
                reveal_with_fuel(each_char, 2);
                assert(head.drop_first() =~= Seq::<char>::empty());
                assert(head[0] == s[0]);
            }
        }
    }
}

/// Reading `~1` back as `/` in an escaped key undoes only the `/`.
proof fn lemma_unescape_slash(s: Seq<char>)
    ensures
        replaced(escaped_chars(s), seq!['~', '1'], seq!['/']) == each_char(s, '~', seq!['~', '0']),
    decreases s.len(),
{
    if s.len() > 0 {
        let e = escaped_chars(s.drop_first());
        lemma_unescape_slash(s.drop_first());
        let from = seq!['~', '1'];
        let to = seq!['/'];
        let rest = each_char(s.drop_first(), '~', seq!['~', '0']);
        assert(replaced(e, from, to) == rest);
        if s[0] == '/' {
            let t = seq!['~', '1'] + e;
            assert(escaped_chars(s) == t);
            assert(t.subrange(0, 2) =~= from);
            assert(t.subrange(2, t.len() as int) =~= e);
            assert(replaced(t, from, to) == to + replaced(e, from, to));
            assert(each_char(s, '~', seq!['~', '0']) == seq![s[0]] + rest);
            assert(to =~= seq![s[0]]);
        } else if s[0] == '~' {
            let t = seq!['~', '0'] + e;
            assert(escaped_chars(s) == t);
            assert(t.subrange(0, 2) != from) by {
                assert(t.subrange(0, 2)[1] == '0');
            }
            let u = seq!['0'] + e;
            assert(t.drop_first() =~= u);
            assert(replaced(t, from, to) == seq![t[0]] + replaced(u, from, to));
            if u.len() >= 2 {
                assert(u.subrange(0, 2) != from) by {
                    assert(u.subrange(0, 2)[0] == '0');
                }
                assert(u.drop_first() =~= e);
                assert(replaced(u, from, to) == seq![u[0]] + replaced(e, from, to));
            } else {
                assert(e.len() == 0);
                assert(replaced(u, from, to) == u);
                assert(replaced(e, from, to) =~= e);
            }
            assert(replaced(u, from, to) =~= seq!['0'] + rest);
            assert(each_char(s, '~', seq!['~', '0']) == seq!['~', '0'] + rest);
            assert(replaced(t, from, to) =~= seq!['~', '0'] + rest);
        } else {
            let t = seq![s[0]] + e;
            assert(escaped_chars(s) == t);
            if t.len() >= 2 {
                assert(t.subrange(0, 2) != from) by {
                    assert(t.subrange(0, 2)[0] == s[0]);
                }
                assert(t.drop_first() =~= e);
                assert(replaced(t, from, to) == seq![t[0]] + replaced(e, from, to));
            } else {
                assert(e.len() == 0);
                assert(replaced(t, from, to) == t);
                assert(replaced(e, from, to) =~= e);
            }
            assert(each_char(s, '~', seq!['~', '0']) == seq![s[0]] + rest);
            assert(replaced(t, from, to) =~= seq![s[0]] + rest);
        }
    }
}

/// Reading `~0` back as `~` undoes the escaping of `~`.
proof fn lemma_unescape_tilde(s: Seq<char>)
    ensures
        replaced(each_char(s, '~', seq!['~', '0']), seq!['~', '0'], seq!['~']) == s,
    decreases s.len(),
{
    if s.len() > 0 {
        let e = each_char(s.drop_first(), '~', seq!['~', '0']);
        lemma_unescape_tilde(s.drop_first());
        let from = seq!['~', '0'];
        let to = seq!['~'];
        if s[0] == '~' {
            let t = seq!['~', '0'] + e;
            assert(t.subrange(0, 2) =~= from);
            assert(t.subrange(2, t.len() as int) =~= e);
            assert(to + s.drop_first() =~= s);
        } else {
            let t = seq![s[0]] + e;
            if t.len() >= 2 {
                assert(t.subrange(0, 2) != from) by {
                    assert(t.subrange(0, 2)[0] == s[0]);
                }
                assert(t.drop_first() =~= e);
            } else {
                assert(e.len() == 0);
                assert(s.drop_first().len() == 0);
            }
            assert(seq![s[0]] + s.drop_first() =~= s);
        }
    }
}

/// Law: a key escaped as a pointer fragment reads back as the key.
pub proof fn law_unescape_escape(s: Seq<char>)
    ensures
        unescaped_key(escaped_key(s)) == s,
{
    reveal_strlit("~");
    reveal_strlit("~0");
    reveal_strlit("/");
    reveal_strlit("~1");
    assert("~"@ =~= seq!['~']);
    assert("~0"@ =~= seq!['~', '0']);
    assert("/"@ =~= seq!['/']);
    assert("~1"@ =~= seq!['~', '1']);
    lemma_replace_one_char(s, '~', seq!['~', '0']);
    lemma_replace_one_char(each_char(s, '~', seq!['~', '0']), '/', seq!['~', '1']);
    lemma_escape_chars(s);
    lemma_unescape_slash(s);
    lemma_unescape_tilde(s);
}

/// No `/`, and every `~` followed by `0` or `1`.
pub open spec fn fragment_shaped(t: Seq<char>) -> bool {
    &&& forall|i: int| 0 <= i < t.len() ==> #[trigger] t[i] != '/'
    &&& forall|i: int| 0 <= i < t.len() && #[trigger] t[i] == '~' ==> i + 1 < t.len() && (t[i + 1] == '0' || t[i + 1] == '1')
}

proof fn lemma_escaped_chars_shaped(s: Seq<char>)
    ensures
        fragment_shaped(escaped_chars(s)),
    decreases s.len(),
{
    if s.len() > 0 {
        lemma_escaped_chars_shaped(s.drop_first());
        let head = if s[0] == '~' {
            seq!['~', '0']
        } else if s[0] == '/' {
            seq!['~', '1']
        } else {
            seq![s[0]]
        };
        let rest = escaped_chars(s.drop_first());
        let t = head + rest;
        assert(escaped_chars(s) == t);
        assert forall|i: int| 0 <= i < t.len() implies #[trigger] t[i] != '/' by {
            if i >= head.len() {
                assert(t[i] == rest[i - head.len()]);
            }
        }
        assert forall|i: int| 0 <= i < t.len() && #[trigger] t[i] == '~' implies i + 1 < t.len() && (t[i + 1] == '0' || t[i + 1] == '1') by {
            if i >= head.len() {
                assert(t[i] == rest[i - head.len()]);
                assert(t[i + 1] == rest[i + 1 - head.len()]);
            }
        }
    }
}

/// Law: a key escaped as a pointer fragment holds no `/`, and each `~` in
/// it is followed by `0` or `1`.
pub proof fn law_escaped_key_shape(s: Seq<char>)
    ensures
        fragment_shaped(escaped_key(s)),
{
    reveal_strlit("~");
    reveal_strlit("~0");
    reveal_strlit("/");
    reveal_strlit("~1");
    assert("~"@ =~= seq!['~']);
    assert("~0"@ =~= seq!['~', '0']);
    assert("/"@ =~= seq!['/']);
    assert("~1"@ =~= seq!['~', '1']);
    lemma_replace_one_char(s, '~', seq!['~', '0']);
    lemma_replace_one_char(each_char(s, '~', seq!['~', '0']), '/', seq!['~', '1']);
    lemma_escape_chars(s);
    lemma_escaped_chars_shaped(s);
}

// ---------------------------------------------------------------------------
// Pinned columns
// ---------------------------------------------------------------------------

proof fn lemma_insert_pos_bounds(s: Seq<ColumnView>, c: ColumnView)
    ensures
        0 <= insert_pos(s, c) <= s.len(),
    decreases s.len(),
{
    if s.len() > 0 && column_before(c, s.last()) {
        lemma_insert_pos_bounds(s.drop_last(), c);
    }
}

proof fn lemma_empty_multiset(s: Seq<ColumnView>)
    requires
        s.len() == 0,
    ensures
        s.to_multiset() =~= vstd::multiset::Multiset::empty(),
{
    broadcast use vstd::multiset::group_multiset_axioms;
    assert(s + s =~= s);
    vstd::seq_lib::lemma_multiset_commutative(s, s);
    assert forall|x: ColumnView| s.to_multiset().count(x) == 0 by {
        assert(s.to_multiset().add(s.to_multiset()).count(x) == s.to_multiset().count(x) + s.to_multiset().count(x));
    }
}

proof fn lemma_sort_into_keeps(acc: Seq<ColumnView>, rest: Seq<ColumnView>)
    ensures
        sort_into(acc, rest).to_multiset() =~= acc.to_multiset().add(rest.to_multiset()),
    decreases rest.len(),
{
    broadcast use vstd::multiset::group_multiset_axioms;
    if rest.len() == 0 {
        lemma_empty_multiset(rest);
    } else {
        let x = rest[0];
        let k = insert_pos(acc, x);
        lemma_insert_pos_bounds(acc, x);
        vstd::seq_lib::to_multiset_insert(acc, k, x);
        lemma_sort_into_keeps(acc.insert(k, x), rest.drop_first());
        assert(rest =~= seq![x] + rest.drop_first());
        vstd::seq_lib::lemma_multiset_commutative(seq![x], rest.drop_first());
        let e = Seq::<ColumnView>::empty();
        lemma_empty_multiset(e);
        vstd::seq_lib::to_multiset_build(e, x);
        assert(seq![x] =~= e.push(x));
    }
}

/// Law: pinning column `i` of the scrolling table, then unpinning it (it is
/// the last pinned column), gives back the pinned columns, and the
/// scrolling table its columns, now in table order.
pub proof fn law_pin_then_unpin(selected: Seq<ColumnView>, pinned: Seq<ColumnView>, i: int)
    requires
        0 <= i < selected.len(),
    ensures
        ({
            let selected_after_pin = selected.remove(i);
            let pinned_after_pin = pinned.push(selected[i]);
            let last = pinned_after_pin.len() - 1;
            &&& pinned_after_pin.remove(last) == pinned
            &&& sorted_columns(selected_after_pin.push(pinned_after_pin[last])).to_multiset() == selected.to_multiset()
        }),
{
    broadcast use vstd::multiset::group_multiset_axioms;
    let after = selected.remove(i);
    let pin = pinned.push(selected[i]);
    assert(pin.remove(pin.len() - 1) =~= pinned);
    let back = after.push(selected[i]);
    lemma_sort_into_keeps(seq![], back);
    lemma_empty_multiset(Seq::<ColumnView>::empty());
    vstd::seq_lib::to_multiset_build(after, selected[i]);
    vstd::seq_lib::to_multiset_remove(selected, i);
    assert(selected.to_multiset().count(selected[i]) > 0) by {
        vstd::seq_lib::to_multiset_contains(selected, selected[i]);
        assert(selected.contains(selected[i]));
    }
    assert(back.to_multiset() =~= selected.to_multiset());
}

/// Law: after a change of depth, the scrolling table is never empty, and
/// it shows no pinned column: each of its columns is a column of the table
/// shown at that depth whose name no pinned column has, or the placeholder
/// column.
pub proof fn law_selection_shows_no_pinned(all: Seq<ColumnView>, pinned: Seq<ColumnView>, depth: u8)
    ensures
        ArrayTable::selection_at(all, pinned, depth).len() > 0,
        forall|k: int|
            0 <= k < ArrayTable::selection_at(all, pinned, depth).len() ==> {
                let c = #[trigger] ArrayTable::selection_at(all, pinned, depth)[k];
                c == ArrayTable::placeholder(depth) || (all.contains(c) && visible_at(c, depth) && !has_name(pinned, c.name))
            },
{
    broadcast use vstd::seq_lib::group_filter_ensures;
    let shown = visible_columns(all, depth);
    let keep = |c: ColumnView| !has_name(pinned, c.name);
    let vis = |c: ColumnView| visible_at(c, depth);
    let sel = ArrayTable::selection_at(all, pinned, depth);
    if shown.filter(keep).len() > 0 {
        assert forall|k: int| 0 <= k < sel.len() implies (all.contains(#[trigger] sel[k]) && visible_at(sel[k], depth)
            && !has_name(pinned, sel[k].name)) by {
            assert(keep(shown.filter(keep)[k]));
            assert(shown.filter(keep).contains(sel[k]));
            lemma_filter_member(shown, keep, sel[k]);
            lemma_filter_member(all, vis, sel[k]);
        }
    }
}

proof fn lemma_filter_member<A>(s: Seq<A>, p: spec_fn(A) -> bool, x: A)
    requires
        s.filter(p).contains(x),
    ensures
        s.contains(x),
        p(x),
    decreases s.len(),
{
    reveal(Seq::filter);
    if s.len() > 0 {
        let rest = s.drop_last().filter(p);
        if p(s.last()) && x == s.last() {
            assert(s[s.len() - 1] == x);
        } else {
            if p(s.last()) {
                let j = choose|j: int| 0 <= j < s.filter(p).len() && s.filter(p)[j] == x;
                assert(s.filter(p) == rest.push(s.last()));
                assert(j < rest.len());
                assert(rest[j] == x);
            }
            assert(rest.contains(x));
            lemma_filter_member(s.drop_last(), p, x);
            let j = choose|j: int| 0 <= j < s.drop_last().len() && s.drop_last()[j] == x;
            assert(s[j] == x);
        }
    }
}

// ---------------------------------------------------------------------------
// Object tables
// ---------------------------------------------------------------------------

/// Law: writing a value at a row of an object table, then writing the same
/// value there again, changes nothing the second time.
pub proof fn law_object_write_twice(nodes: Seq<FlatValueView>, u: FlatValueView, i: int)
    requires
        0 <= i < nodes.len(),
    ensures
        written(written(nodes, u, i).0, u, i) == (written(nodes, u, i).0, false),
{
    let once = written(nodes, u, i).0;
    assert(once.len() == nodes.len());
    assert(once[i].value == u.value);
}

// ---------------------------------------------------------------------------
// Search occurrences
// ---------------------------------------------------------------------------

/// Law: going to the next occurrence, then to the previous one, comes back
/// to the occurrence selected, and the next occurrence is always one of
/// them.
pub proof fn law_next_then_previous(selected: usize, len: nat)
    requires
        selected < len <= usize::MAX,
    ensures
        next_occurrence(selected, len) < len,
        previous_occurrence(next_occurrence(selected, len), len) == selected,
{
}

/// Law: a search for a column finds exactly the shown columns whose name
/// matches (see `column_matches`), each once, in the order they are shown.
pub proof fn law_column_search_finds_matches(cols: Seq<ColumnView>, term: Seq<char>)
    requires
        cols.len() <= usize::MAX,
    ensures
        forall|k: int|
            0 <= k < matching_column_positions(cols, term).len() ==> {
                let i = #[trigger] matching_column_positions(cols, term)[k];
                i < cols.len() && column_matches(cols[i as int].name, term)
            },
        forall|i: int|
            0 <= i < cols.len() && column_matches(#[trigger] cols[i].name, term) ==> matching_column_positions(
                cols,
                term,
            ).contains(i as usize),
        forall|a: int, b: int|
            0 <= a < b < matching_column_positions(cols, term).len() ==> matching_column_positions(cols, term)[a]
                < matching_column_positions(cols, term)[b],
    decreases cols.len(),
{
    if cols.len() > 0 {
        let d = cols.drop_last();
        law_column_search_finds_matches(d, term);
        let rest = matching_column_positions(d, term);
        let all = matching_column_positions(cols, term);
        assert forall|k: int| 0 <= k < all.len() implies {
            let i = #[trigger] all[k];
            i < cols.len() && column_matches(cols[i as int].name, term)
        } by {
            if k < rest.len() {
                assert(all[k] == rest[k]);
                assert(cols[rest[k] as int] == d[rest[k] as int]);
            }
        }
        assert forall|i: int| 0 <= i < cols.len() && column_matches(#[trigger] cols[i].name, term) implies all.contains(
            i as usize,
        ) by {
            if i < cols.len() - 1 {
                assert(d[i] == cols[i]);
                assert(rest.contains(i as usize));
                let k = choose|k: int| 0 <= k < rest.len() && rest[k] == i as usize;
                assert(all[k] == rest[k]);
            } else {
                assert(all[all.len() - 1] == i as usize);
            }
        }
        assert forall|a: int, b: int| 0 <= a < b < all.len() implies all[a] < all[b] by {
            if b < rest.len() {
                assert(all[a] == rest[a] && all[b] == rest[b]);
            } else {
                assert(all[a] == rest[a]);
                assert(rest[a] < d.len());
            }
        }
    }
}

} // verus!
