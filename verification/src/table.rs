//! The state behind the array table view: which columns show at a depth,
//! where a cell's value is found, column filters, inserting rows, editing
//! values, and moving the focused cell with the keyboard.
use vstd::prelude::*;
use vstd::utf8::{decode_utf8, encode_utf8, is_char_boundary};
use crate::model::decimal;
use crate::rows::{
    ArrayEntries, Column, ColumnView, FlatPointer, FlatType, FlatValue, FlatValueView, RowView, cv, cvs, filter_columns, filtered_rows,
    first_at, fv, fvs, row_number_entry, row_number_view, rv, rvs, text_of, texts,
};
use crate::text::{concat2, concat3, str_eq, usize_text};
use crate::flat_json::{
    flat_parse, parse_flat_check, flat_parse_safe, parse_flat, raw_json_valid, raw_texts_check, raw_texts_valid, row_pretty_json,
    row_pretty_text, serializer_safe, serializer_safe_check,
};

verus! {

// ---------------------------------------------------------------------------
// Columns
// ---------------------------------------------------------------------------

/// A column shown at `depth`: one of that depth, or a shallower one that is
/// not an object (objects shallower than the depth show as their members).
pub open spec fn visible_at(c: ColumnView, depth: u8) -> bool {
    c.depth == depth || (c.depth < depth && !(c.value_type is Object))
}

pub open spec fn visible_columns(cols: Seq<ColumnView>, depth: u8) -> Seq<ColumnView> {
    cols.filter(|c: ColumnView| visible_at(c, depth))
}

pub(crate) proof fn lemma_filter_push<A>(s: Seq<A>, p: spec_fn(A) -> bool, x: A)
    ensures
        s.push(x).filter(p) == if p(x) {
            s.filter(p).push(x)
        } else {
            s.filter(p)
        },
{
    reveal(Seq::filter);
    assert(s.push(x).drop_last() =~= s);
}

/// A copy of a column.
pub fn clone_column(c: &Column) -> (r: Column)
    ensures
        cv(r) == cv(*c),
{
    Column {
        name: c.name.clone(),
        depth: c.depth,
        value_type: c.value_type,
        seen_count: c.seen_count,
        order: c.order,
        id: c.id,
    }
}

/// Copies of the columns shown at `depth`, in order.
pub fn selected_columns(all_columns: &Vec<Column>, depth: u8) -> (r: Vec<Column>)
    ensures
        cvs(r@) == visible_columns(cvs(all_columns@), depth),
{
    let ghost all = cvs(all_columns@);
    let mut r: Vec<Column> = Vec::new();
    let mut k: usize = 0;
    proof {
        assert(all.take(0).filter(|c: ColumnView| visible_at(c, depth)) =~= seq![]);
        assert(cvs(r@) =~= seq![]);
    }
    while k < all_columns.len()
        invariant
            k <= all_columns@.len(),
            all == cvs(all_columns@),
            cvs(r@) == all.take(k as int).filter(|c: ColumnView| visible_at(c, depth)),
        decreases all_columns@.len() - k,
    {
        let c = &all_columns[k];
        proof {
            assert(all.take(k + 1) =~= all.take(k as int).push(all[k as int]));
            lemma_filter_push(all.take(k as int), |c: ColumnView| visible_at(c, depth), all[k as int]);
        }
        let shown = match c.value_type {
            FlatType::Object(_, _) => c.depth == depth,
            _ => c.depth == depth || c.depth < depth,
        };
        if shown {
            let ghost before = r@;
            r.push(clone_column(c));
            proof {
                assert(cvs(r@) =~= cvs(before).push(cv(r@.last())));
            }
        }
        k += 1;
    }
    proof {
        assert(all.take(all_columns@.len() as int) =~= all);
    }
    r
}

/// Values of this column can be filtered on: it holds neither objects,
/// arrays nor only `null`.
pub fn is_filterable(column: &Column) -> (r: bool)
    ensures
        r == !(column.value_type is Object || column.value_type is Array || column.value_type is Null),
{
    match column.value_type {
        FlatType::Object(_, _) => false,
        FlatType::Array(_) => false,
        FlatType::Null => false,
        _ => true,
    }
}

/// A column of `cols` has this name (columns are equal when their names
/// are).
pub open spec fn has_name(cols: Seq<ColumnView>, name: Seq<char>) -> bool {
    exists|i: int| 0 <= i < cols.len() && (#[trigger] cols[i]).name == name
}

/// Whether a column of `cols` has this name.
pub fn contains_name(cols: &Vec<Column>, name: &str) -> (r: bool)
    ensures
        r == has_name(cvs(cols@), name@),
{
    let ghost s = cvs(cols@);
    let mut k: usize = 0;
    while k < cols.len()
        invariant
            k <= cols@.len(),
            s == cvs(cols@),
            forall|m: int| 0 <= m < k ==> (#[trigger] s[m]).name != name@,
        decreases cols@.len() - k,
    {
        if str_eq(cols[k].name.as_str(), name) {
            proof {
                assert(s[k as int].name == name@);
            }
            return true;
        }
        k += 1;
    }
    false
}

// ---------------------------------------------------------------------------
// Cells
// ---------------------------------------------------------------------------

/// The pointer of the cell of row `row_index` in column `key`.
pub open spec fn cell_pointer(parent: Seq<char>, row_index: nat, key: Seq<char>) -> Seq<char> {
    parent + "/"@ + decimal(row_index) + key
}

/// The pointer of the cell of row `row_index` in column `key`.
pub fn pointer_key(parent_pointer: &str, row_index: usize, key: &str) -> (r: String)
    ensures
        r@ == cell_pointer(parent_pointer@, row_index as nat, key@),
{
    let index_text = usize_text(row_index);
    let mut r = concat3(parent_pointer, "/", index_text.as_str());
    r.append(key);
    r
}

/// The position of the first entry at `pointer`.
pub(crate) fn position_of(data: &Vec<FlatValue>, pointer: &str) -> (r: Option<usize>)
    ensures
        r is None <==> first_at(data@, pointer@) is None,
        r matches Some(k) ==> first_at(data@, pointer@) == Some(k as int) && k < data@.len(),
{
    let mut k: usize = 0;
    while k < data.len()
        invariant
            k <= data@.len(),
            forall|m: int| 0 <= m < k ==> (#[trigger] data@[m]).pointer.pointer@ != pointer@,
        decreases data@.len() - k,
    {
        if str_eq(data[k].pointer.pointer.as_str(), pointer) {
            proof {
                crate::rows::lemma_first_at_bounds(data@, pointer@);
                if let Some(f) = first_at(data@, pointer@) {
                    if f < k {
                        assert(data@[f].pointer.pointer@ != pointer@);
                    }
                }
            }
            return Some(k);
        }
        k += 1;
    }
    proof {
        crate::rows::lemma_first_at_bounds(data@, pointer@);
    }
    None
}

/// Where the cell of row `row_index` in the `index`-th of `columns` is in
/// the row's entries.
pub fn get_pointer_index(
    parent_pointer: &FlatPointer,
    columns: &Vec<Column>,
    data: &Vec<FlatValue>,
    index: usize,
    row_index: usize,
) -> (r: Option<usize>)
    ensures
        index >= columns@.len() ==> r is None,
        index < columns@.len() ==> (r is None <==> first_at(
            data@,
            cell_pointer(parent_pointer.pointer@, row_index as nat, columns@[index as int].name@),
        ) is None),
        r matches Some(k) ==> index < columns@.len() && first_at(
            data@,
            cell_pointer(parent_pointer.pointer@, row_index as nat, columns@[index as int].name@),
        ) == Some(k as int),
{
    if index < columns.len() {
        let key = pointer_key(parent_pointer.pointer.as_str(), row_index, columns[index].name.as_str());
        position_of(data, key.as_str())
    } else {
        None
    }
}

/// The entry of the cell of row `row_index` in `column`.
pub fn get_pointer_for_column<'a>(
    parent_pointer: &str,
    data: &'a Vec<FlatValue>,
    row_index: usize,
    column: &Column,
) -> (r: Option<&'a FlatValue>)
    ensures
        match first_at(data@, cell_pointer(parent_pointer@, row_index as nat, column.name@)) {
            Some(k) => r == Some(&data@[k]),
            None => r is None,
        },
{
    let key = pointer_key(parent_pointer, row_index, column.name.as_str());
    match position_of(data, key.as_str()) {
        Some(k) => Some(&data[k]),
        None => None,
    }
}

/// The entry of the cell of row `row_index` in the `index`-th of `columns`.
pub fn get_pointer<'a>(
    parent_pointer: &str,
    columns: &Vec<Column>,
    data: &'a Vec<FlatValue>,
    index: usize,
    row_index: usize,
) -> (r: Option<&'a FlatValue>)
    ensures
        index >= columns@.len() ==> r is None,
        index < columns@.len() ==> match first_at(
            data@,
            cell_pointer(parent_pointer@, row_index as nat, columns@[index as int].name@),
        ) {
            Some(k) => r == Some(&data@[k]),
            None => r is None,
        },
{
    if index < columns.len() {
        get_pointer_for_column(parent_pointer, data, row_index, &columns[index])
    } else {
        None
    }
}

// ---------------------------------------------------------------------------
// Column filters
// ---------------------------------------------------------------------------

/// Column filters as pairs of a column and the values it accepts.
pub open spec fn filters_view(f: Seq<(String, Vec<String>)>) -> Seq<(Seq<char>, Seq<Seq<char>>)> {
    f.map_values(|p: (String, Vec<String>)| (p.0@, texts(p.1@)))
}

/// No column has two filters.
pub open spec fn distinct_keys(f: Seq<(Seq<char>, Seq<Seq<char>>)>) -> bool {
    forall|a: int, b: int| 0 <= a < b < f.len() ==> (#[trigger] f[a]).0 != (#[trigger] f[b]).0
}

/// Where the filter of `key` is.
pub open spec fn key_index(f: Seq<(Seq<char>, Seq<Seq<char>>)>, key: Seq<char>) -> Option<int> {
    if exists|k: int| 0 <= k < f.len() && (#[trigger] f[k]).0 == key {
        Some(choose|k: int| 0 <= k < f.len() && (#[trigger] f[k]).0 == key)
    } else {
        None
    }
}

/// Not `value`.
pub open spec fn other_than(value: Seq<char>) -> spec_fn(Seq<char>) -> bool {
    |v: Seq<char>| v != value
}

/// The filters after `value` is toggled for `key`: a value already
/// accepted is dropped (and the filter with it when none is left), any
/// other value is added, and a column without a filter gets one.
pub open spec fn toggled(
    f: Seq<(Seq<char>, Seq<Seq<char>>)>,
    key: Seq<char>,
    value: Seq<char>,
) -> Seq<(Seq<char>, Seq<Seq<char>>)> {
    match key_index(f, key) {
        Some(k) => {
            let vals = f[k].1;
            if vals.contains(value) {
                let kept = vals.filter(other_than(value));
                if kept.len() == 0 {
                    f.remove(k)
                } else {
                    f.update(k, (key, kept))
                }
            } else {
                f.update(k, (key, vals.push(value)))
            }
        },
        None => f.push((key, seq![value])),
    }
}

proof fn lemma_filters_view_update(f: Seq<(String, Vec<String>)>, k: int, p: (String, Vec<String>))
    requires
        0 <= k < f.len(),
    ensures
        filters_view(f.update(k, p)) == filters_view(f).update(k, (p.0@, texts(p.1@))),
        filters_view(f.remove(k)) == filters_view(f).remove(k),
        filters_view(f.push(p)) == filters_view(f).push((p.0@, texts(p.1@))),
{
    assert(filters_view(f.update(k, p)) =~= filters_view(f).update(k, (p.0@, texts(p.1@))));
    assert(filters_view(f.remove(k)) =~= filters_view(f).remove(k));
    assert(filters_view(f.push(p)) =~= filters_view(f).push((p.0@, texts(p.1@))));
}

/// Toggles `value` in the filter of `column` (see `toggled`).
pub fn on_filter_column_value(columns_filter: &mut Vec<(String, Vec<String>)>, column: String, value: String)
    requires
        distinct_keys(filters_view(old(columns_filter)@)),
    ensures
        filters_view(final(columns_filter)@) == toggled(filters_view(old(columns_filter)@), column@, value@),
        distinct_keys(filters_view(final(columns_filter)@)),
{
    let ghost f = filters_view(columns_filter@);
    let mut found: Option<usize> = None;
    let mut k: usize = 0;
    while k < columns_filter.len() && found.is_none()
        invariant
            k <= columns_filter@.len(),
            f == filters_view(columns_filter@),
            found is None ==> forall|m: int| 0 <= m < k ==> (#[trigger] f[m]).0 != column@,
            found matches Some(j) ==> j < f.len() && f[j as int].0 == column@ && forall|m: int|
                0 <= m < j ==> (#[trigger] f[m]).0 != column@,
        decreases columns_filter@.len() - k + if found is None { 1int } else { 0int },
    {
        if str_eq(columns_filter[k].0.as_str(), column.as_str()) {
            found = Some(k);
        } else {
            k += 1;
        }
    }
    match found {
        None => {
            proof {
                assert(key_index(f, column@) is None);
            }
            let ghost before = columns_filter@;
            let mut values: Vec<String> = Vec::new();
            values.push(value);
            columns_filter.push((column, values));
            proof {
                assert(texts(columns_filter@.last().1@) =~= seq![value@]);
                assert(columns_filter@ =~= before.push(columns_filter@.last()));
                assert(filters_view(columns_filter@) =~= f.push((column@, seq![value@])));
            }
        },
        Some(k) => {
            proof {
                assert(f[k as int].0 == column@);
                assert(key_index(f, column@) == Some(k as int)) by {
                    let c = choose|c: int| 0 <= c < f.len() && (#[trigger] f[c]).0 == column@;
                    if c != k as int {
                        if c < k {
                            assert(f[c].0 != column@);
                        } else {
                            assert(f[k as int].0 != f[c].0);
                        }
                    }
                }
            }
            let ghost before = columns_filter@;
            let entry = columns_filter.remove(k);
            let ghost vals = texts(entry.1@);
            proof {
                assert(vals == f[k as int].1);
            }
            let mut kept: Vec<String> = Vec::new();
            let mut contains = false;
            let mut m: usize = 0;
            while m < entry.1.len()
                invariant
                    m <= entry.1@.len(),
                    vals == texts(entry.1@),
                    contains == vals.take(m as int).contains(value@),
                    texts(kept@) == vals.take(m as int).filter(other_than(value@)),
                decreases entry.1@.len() - m,
            {
                proof {
                    assert(vals.take(m + 1) =~= vals.take(m as int).push(vals[m as int]));
                    lemma_filter_push(vals.take(m as int), other_than(value@), vals[m as int]);
                }
                proof {
                    assert(vals.take(m + 1).contains(value@) <==> (vals.take(m as int).contains(value@) || vals[m as int] == value@)) by {
                        if vals.take(m + 1).contains(value@) {
                            let j = choose|j: int| 0 <= j < m + 1 && #[trigger] vals.take(m + 1)[j] == value@;
                            if j < m {
                                assert(vals.take(m as int)[j] == value@);
                            }
                        }
                        if vals.take(m as int).contains(value@) {
                            let j = choose|j: int| 0 <= j < m && #[trigger] vals.take(m as int)[j] == value@;
                            assert(vals.take(m + 1)[j] == value@);
                        }
                        if vals[m as int] == value@ {
                            assert(vals.take(m + 1)[m as int] == value@);
                        }
                    }
                }
                if str_eq(entry.1[m].as_str(), value.as_str()) {
                    contains = true;
                } else {
                    let ghost kb = kept@;
                    kept.push(entry.1[m].clone());
                    proof {
                        assert(texts(kept@) =~= texts(kb).push(vals[m as int]));
                    }
                }
                m += 1;
            }
            proof {
                assert(vals.take(entry.1@.len() as int) =~= vals);
            }
            if contains {
                if kept.len() == 0 {
                    proof {
                        lemma_filters_view_update(before, k as int, entry);
                        assert(columns_filter@ =~= before.remove(k as int));
                    }
                } else {
                    let (name, _) = entry;
                    columns_filter.insert(k, (name, kept));
                    proof {
                        assert(columns_filter@ =~= before.update(k as int, columns_filter@[k as int]));
                        lemma_filters_view_update(before, k as int, columns_filter@[k as int]);
                    }
                }
            } else {
                let (name, mut values) = entry;
                let ghost vb = values@;
                values.push(value);
                columns_filter.insert(k, (name, values));
                proof {
                    assert(texts(values@) =~= texts(vb).push(value@));
                    assert(columns_filter@ =~= before.update(k as int, columns_filter@[k as int]));
                    lemma_filters_view_update(before, k as int, columns_filter@[k as int]);
                }
            }
        },
    }
    proof {
        let g = filters_view(columns_filter@);
        assert forall|a: int, b: int| 0 <= a < b < g.len() implies (#[trigger] g[a]).0 != (#[trigger] g[b]).0 by {
            if found is Some {
                let k = found->0 as int;
                if a >= k && g.len() < f.len() {
                    assert(g[a] == f[a + 1] && g[b] == f[b + 1]);
                } else if b >= k && g.len() < f.len() {
                    assert(g[a] == f[a] && g[b] == f[b + 1]);
                } else if g.len() == f.len() {
                    if a == k {
                        assert(g[a].0 == f[a].0);
                    }
                    if b == k {
                        assert(g[b].0 == f[b].0);
                    }
                }
            } else {
                if b == f.len() {
                    assert(f[a].0 != column@);
                }
            }
        }
    }
}

/// The rows shown under the filters: every row when there are none, else
/// those `filter_columns` keeps.
pub fn do_filter_column(nodes: &Vec<ArrayEntries>, parent_pointer: &str, columns_filter: &Vec<(String, Vec<String>)>) -> (r: Vec<usize>)
    ensures
        columns_filter@.len() == 0 ==> r@ == Seq::new(nodes@.len(), |i: int| i as usize),
        columns_filter@.len() > 0 ==> r@ == filtered_rows(nodes@, parent_pointer@, columns_filter@),
{
    if columns_filter.len() == 0 {
        let mut r: Vec<usize> = Vec::new();
        let mut i: usize = 0;
        while i < nodes.len()
            invariant
                i <= nodes@.len(),
                r@ == Seq::new(i as nat, |j: int| j as usize),
            decreases nodes@.len() - i,
        {
            r.push(i);
            i += 1;
            proof {
                assert(r@ =~= Seq::new(i as nat, |j: int| j as usize));
            }
        }
        r
    } else {
        filter_columns(nodes, parent_pointer, columns_filter)
    }
}

// ---------------------------------------------------------------------------
// Open windows
// ---------------------------------------------------------------------------

/// Marks the window `key` open or closed in the set of open windows.
pub fn set_open(open: &mut Vec<String>, key: &str, is_open: bool)
    requires
        texts(old(open)@).no_duplicates(),
    ensures
        texts(final(open)@).no_duplicates(),
        texts(final(open)@).to_set() == if is_open {
            texts(old(open)@).to_set().insert(key@)
        } else {
            texts(old(open)@).to_set().remove(key@)
        },
{
    let ghost s = texts(open@);
    let mut k: usize = 0;
    let mut found: Option<usize> = None;
    while k < open.len() && found.is_none()
        invariant
            k <= open@.len(),
            s == texts(open@),
            found is None ==> forall|m: int| 0 <= m < k ==> s[m] != key@,
            found matches Some(j) ==> j < s.len() && s[j as int] == key@,
        decreases open@.len() - k + if found is None { 1int } else { 0int },
    {
        if str_eq(open[k].as_str(), key) {
            found = Some(k);
        } else {
            k += 1;
        }
    }
    if is_open {
        if found.is_none() {
            let ghost before = open@;
            open.push(key.to_owned());
            proof {
                assert(texts(open@) =~= s.push(key@));
                assert(!s.contains(key@));
                assert forall|x: Seq<char>| texts(open@).contains(x) <==> (s.contains(x) || x == key@) by {
                    if texts(open@).contains(x) {
                        let j = choose|j: int| 0 <= j < texts(open@).len() && #[trigger] texts(open@)[j] == x;
                        if j < s.len() {
                            assert(s[j] == x);
                        }
                    }
                    if s.contains(x) {
                        let j = choose|j: int| 0 <= j < s.len() && #[trigger] s[j] == x;
                        assert(texts(open@)[j] == x);
                    }
                    if x == key@ {
                        assert(texts(open@)[s.len() as int] == x);
                    }
                }
                assert(texts(open@).to_set() =~= s.to_set().insert(key@));
            }
        } else {
            proof {
                let k = found->0 as int;
                assert(s[k] == key@);
                assert(s.to_set().insert(key@) =~= s.to_set());
            }
        }
    } else {
        match found {
            Some(k) => {
                let ghost before = open@;
                open.remove(k);
                proof {
                    assert(texts(open@) =~= s.remove(k as int));
                    assert forall|x: Seq<char>| texts(open@).to_set().contains(x) <==> s.to_set().remove(key@).contains(x) by {
                        if x == key@ {
                            if texts(open@).contains(x) {
                                let j = choose|j: int| 0 <= j < texts(open@).len() && #[trigger] texts(open@)[j] == x;
                                if j < k {
                                    assert(s[j] == x);
                                } else {
                                    assert(s[j + 1] == x);
                                }
                            }
                        } else if s.contains(x) {
                            let j = choose|j: int| 0 <= j < s.len() && #[trigger] s[j] == x;
                            if j < k {
                                assert(texts(open@)[j] == x);
                            } else {
                                assert(texts(open@)[j - 1] == x);
                            }
                        } else if texts(open@).contains(x) {
                            let j = choose|j: int| 0 <= j < texts(open@).len() && #[trigger] texts(open@)[j] == x;
                            if j < k {
                                assert(s[j] == x);
                            } else {
                                assert(s[j + 1] == x);
                            }
                        }
                    }
                    assert(texts(open@).to_set() =~= s.to_set().remove(key@));
                }
            },
            None => {
                proof {
                    assert(!s.contains(key@));
                    assert(s.to_set().remove(key@) =~= s.to_set());
                }
            },
        }
    }
}

// ---------------------------------------------------------------------------
// Inserting a row
// ---------------------------------------------------------------------------

proof fn lemma_decimal_len(n: nat)
    ensures
        decimal(n).len() >= 1,
        n >= 1 ==> decimal(n).len() <= n,
    decreases n,
{
    if n >= 10 {
        lemma_decimal_len(n / 10);
    }
}

proof fn lemma_decimal_len_mono(i: nat, n: nat)
    requires
        i <= n,
    ensures
        decimal(i).len() <= decimal(n).len(),
    decreases n,
{
    lemma_decimal_len(i);
    lemma_decimal_len(n);
    if i >= 10 {
        lemma_decimal_len_mono(i / 10, n / 10);
    }
}

/// The number of decimal digits of `n`.
fn digit_count(n: usize) -> (r: usize)
    ensures
        r == decimal(n as nat).len(),
{
    let mut count: usize = 1;
    let mut m = n;
    proof {
        lemma_decimal_len(n as nat);
    }
    while m >= 10
        invariant
            count + decimal(m as nat).len() - 1 == decimal(n as nat).len(),
            count >= 1,
            decimal(n as nat).len() <= n || n == 0,
        decreases m,
    {
        proof {
            lemma_decimal_len((m / 10) as nat);
        }
        m = m / 10;
        count += 1;
    }
    count
}

/// Where a row's old prefix ends in the bytes of its entries' pointers.
pub open spec fn prefix_cut(parent: Seq<char>, i: nat) -> int {
    (encode_utf8(parent).len() + 1 + decimal(i).len()) as int
}

/// The pointer of an entry of a row moved from index `i` to `i + 1`: the new
/// row prefix, then what follows the old prefix in the pointer's bytes.
pub open spec fn moved_pointer(p: Seq<char>, parent: Seq<char>, i: nat) -> Seq<char> {
    parent + "/"@ + decimal(i + 1) + decode_utf8(
        encode_utf8(p).subrange(prefix_cut(parent, i), encode_utf8(p).len() as int),
    )
}

pub open spec fn moved_row(r: RowView, parent: Seq<char>, i: nat) -> RowView {
    RowView {
        entries: r.entries.map_values(|e: FlatValueView| FlatValueView { pointer: moved_pointer(e.pointer, parent, i), ..e }),
        index: (i + 1) as usize,
    }
}

/// The entries of the rows from `from` on can be cut after their row
/// prefix: the cut falls on a character boundary of each pointer.
pub open spec fn movable(rows: Seq<ArrayEntries>, parent: Seq<char>, from: int) -> bool {
    forall|i: int, k: int|
        from <= i < rows.len() && 0 <= k < rows[i].entries@.len() ==> is_char_boundary(
            encode_utf8(#[trigger] rows[i].entries@[k].pointer.pointer@),
            prefix_cut(parent, i as nat),
        )
}

/// The row inserted at index `i`: its row number, then an empty object.
pub open spec fn new_row(i: nat, parent: Seq<char>, depth: u8) -> RowView {
    let p = parent + "/"@ + decimal(i);
    RowView {
        entries: seq![
            row_number_view(i, 0, p),
            FlatValueView {
                pointer: p,
                value_type: FlatType::Object(true, 0),
                depth: depth,
                position: 0,
                column_id: 0,
                value: Some("{}"@),
            },
        ],
        index: i as usize,
    }
}

/// What `insert_new_row` needs to run without panicking.
pub open spec fn can_insert_row(
    nodes: Seq<ArrayEntries>,
    filtered_nodes: Seq<usize>,
    parent: Seq<char>,
    table_row_index: int,
    above_or_below: u8,
) -> bool {
    &&& 0 <= table_row_index < filtered_nodes.len()
    &&& filtered_nodes[table_row_index] < nodes.len()
    &&& nodes[filtered_nodes[table_row_index] as int].entries@.len() > 0
    &&& filtered_nodes[table_row_index] + above_or_below <= nodes.len()
    &&& table_row_index + above_or_below <= filtered_nodes.len()
    &&& forall|j: int|
        table_row_index + above_or_below <= j < filtered_nodes.len() ==> #[trigger] filtered_nodes[j] < usize::MAX
    &&& movable(nodes, parent, filtered_nodes[table_row_index] + above_or_below)
    &&& encode_utf8(parent).len() + 1 + decimal(nodes.len()).len() <= usize::MAX
}

proof fn lemma_encode_concat(a: Seq<char>, b: Seq<char>)
    ensures
        encode_utf8(a + b) == encode_utf8(a) + encode_utf8(b),
    decreases a.len(),
{
    if a.len() == 0 {
        assert(a + b =~= b);
        assert(encode_utf8(a) =~= seq![]);
        assert(encode_utf8(a) + encode_utf8(b) =~= encode_utf8(b));
    } else {
        assert((a + b).drop_first() =~= a.drop_first() + b);
        assert((a + b)[0] == a[0]);
        lemma_encode_concat(a.drop_first(), b);
        assert(encode_utf8(a + b) =~= encode_utf8(a) + encode_utf8(b));
    }
}

/// The entries of one moved row, each pointer given its new prefix.
fn move_entries(entries: &mut Vec<FlatValue>, parent_pointer: &str, new_prefix: &str, i: usize, cut: usize)
    requires
        new_prefix@ == parent_pointer@ + "/"@ + decimal(i as nat + 1),
        cut == prefix_cut(parent_pointer@, i as nat),
        forall|k: int| 0 <= k < old(entries)@.len() ==> is_char_boundary(
            encode_utf8(#[trigger] old(entries)@[k].pointer.pointer@),
            cut as int,
        ),
    ensures
        fvs(final(entries)@) == fvs(old(entries)@).map_values(
            |e: FlatValueView| FlatValueView { pointer: moved_pointer(e.pointer, parent_pointer@, i as nat), ..e },
        ),
{
    let ghost orig = fvs(entries@);
    let ghost target = orig.map_values(
        |e: FlatValueView| FlatValueView { pointer: moved_pointer(e.pointer, parent_pointer@, i as nat), ..e },
    );
    let ghost orig_entries = entries@;
    let mut k: usize = 0;
    while k < entries.len()
        invariant
            k <= entries@.len(),
            entries@.len() == orig.len(),
            orig == fvs(orig_entries),
            orig.len() == orig_entries.len(),
            target == orig.map_values(
                |e: FlatValueView| FlatValueView { pointer: moved_pointer(e.pointer, parent_pointer@, i as nat), ..e },
            ),
            new_prefix@ == parent_pointer@ + "/"@ + decimal(i as nat + 1),
            cut == prefix_cut(parent_pointer@, i as nat),
            forall|m: int| 0 <= m < orig_entries.len() ==> is_char_boundary(
                encode_utf8(#[trigger] orig_entries[m].pointer.pointer@),
                cut as int,
            ),
            forall|m: int| 0 <= m < k ==> fv(#[trigger] entries@[m]) == target[m],
            forall|m: int| k <= m < entries@.len() ==> #[trigger] entries@[m] == orig_entries[m],
        decreases entries@.len() - k,
    {
        let ghost p = entries@[k as int].pointer.pointer@;
        let ghost mut tail_v: Seq<char> = seq![];
        let moved: String = {
            let (_, tail) = entries[k].pointer.pointer.as_str().split_at(cut);
            proof {
                broadcast use vstd::utf8::encode_utf8_decode_utf8;
                assert(decode_utf8(encode_utf8(tail@)) == tail@);
                assert(encode_utf8(tail@) == encode_utf8(p).subrange(cut as int, encode_utf8(p).len() as int));
                tail_v = tail@;
            }
            concat2(new_prefix, tail)
        };
        assert(moved@ == moved_pointer(p, parent_pointer@, i as nat));
        let ghost before = entries@;
        entries[k].pointer.pointer = moved;
        proof {
            assert(before[k as int] == orig_entries[k as int]);
            assert(orig[k as int] == fv(orig_entries[k as int]));
            assert(p == orig[k as int].pointer);
            assert(entries@[k as int].pointer.pointer@ == moved@);
            assert(entries@[k as int].pointer.value_type == before[k as int].pointer.value_type);
            assert(entries@[k as int].pointer.depth == before[k as int].pointer.depth);
            assert(entries@[k as int].pointer.position == before[k as int].pointer.position);
            assert(entries@[k as int].pointer.column_id == before[k as int].pointer.column_id);
            assert(entries@[k as int].value == before[k as int].value);
            assert(target[k as int] == (FlatValueView { pointer: moved_pointer(p, parent_pointer@, i as nat), ..orig[k as int] }));
            assert(fv(entries@[k as int]) == target[k as int]);
            assert forall|m: int| 0 <= m < entries@.len() && m != k implies #[trigger] entries@[m] == before[m] by {}
        }
        k += 1;
    }
    proof {
        assert(fvs(entries@) =~= target);
    }
}

/// Inserts an empty object as a new row before (`above_or_below == 0`) or
/// after (`1`) the row shown at `table_row_index`: the rows after it move
/// down one index, their entries' pointers renumbered, and the shown rows
/// follow.
pub fn insert_new_row(
    nodes: &mut Vec<ArrayEntries>,
    filtered_nodes: &mut Vec<usize>,
    parent_pointer: &str,
    table_row_index: usize,
    above_or_below: u8,
)
    requires
        can_insert_row(old(nodes)@, old(filtered_nodes)@, parent_pointer@, table_row_index as int, above_or_below),
    ensures
        ({
            let row_index = old(filtered_nodes)@[table_row_index as int];
            let new_index = row_index + above_or_below;
            let depth = old(nodes)@[row_index as int].entries@.last().pointer.depth;
            let old_rows = rvs(old(nodes)@);
            &&& rvs(final(nodes)@) == old_rows.take(new_index) + seq![new_row(new_index as nat, parent_pointer@, depth)]
                + Seq::new(
                (old_rows.len() - new_index) as nat,
                |j: int| moved_row(old_rows[new_index + j], parent_pointer@, (new_index + j) as nat),
            )
            &&& final(filtered_nodes)@ == Seq::new(
                old(filtered_nodes)@.len(),
                |j: int|
                    if j >= table_row_index + above_or_below {
                        (old(filtered_nodes)@[j] + 1) as usize
                    } else {
                        old(filtered_nodes)@[j]
                    },
            ).insert(table_row_index + above_or_below, new_index as usize)
        }),
{
    let ghost old_nodes = nodes@;
    let ghost old_filtered = filtered_nodes@;
    let ghost old_rows = rvs(nodes@);
    let filtered_len = filtered_nodes.len();
    let nodes_len = nodes.len();
    proof {
        assert(table_row_index + above_or_below <= filtered_nodes@.len());
        assert(filtered_nodes@[table_row_index as int] + above_or_below <= nodes@.len());
    }
    let row_index = filtered_nodes[table_row_index];
    let depth = nodes[row_index].entries[nodes[row_index].entries.len() - 1].pointer.depth;
    let new_table_row_index = table_row_index + above_or_below as usize;
    let new_index = row_index + above_or_below as usize;
    let mut j = new_table_row_index;
    while j < filtered_nodes.len()
        invariant
            new_table_row_index <= j <= filtered_nodes@.len(),
            filtered_nodes@.len() == old_filtered.len(),
            forall|m: int| new_table_row_index <= m < old_filtered.len() ==> #[trigger] old_filtered[m] < usize::MAX,
            forall|m: int|
                0 <= m < filtered_nodes@.len() ==> #[trigger] filtered_nodes@[m] == if new_table_row_index <= m < j {
                    (old_filtered[m] + 1) as usize
                } else {
                    old_filtered[m]
                },
        decreases filtered_nodes@.len() - j,
    {
        filtered_nodes[j] = filtered_nodes[j] + 1;
        j += 1;
    }
    let parent_len = parent_pointer.len();
    let mut i = new_index;
    while i < nodes.len()
        invariant
            new_index <= i <= nodes@.len(),
            nodes@.len() == old_nodes.len(),
            old_rows == rvs(old_nodes),
            parent_len == encode_utf8(parent_pointer@).len(),
            movable(old_nodes, parent_pointer@, new_index as int),
            encode_utf8(parent_pointer@).len() + 1 + decimal(old_nodes.len() as nat).len() <= usize::MAX,
            forall|m: int| 0 <= m < new_index ==> #[trigger] nodes@[m] == old_nodes[m],
            forall|m: int| i <= m < nodes@.len() ==> #[trigger] nodes@[m] == old_nodes[m],
            forall|m: int| new_index <= m < i ==> #[trigger] rv(nodes@[m]) == moved_row(old_rows[m], parent_pointer@, m as nat),
        decreases nodes@.len() - i,
    {
        let digits = digit_count(i);
        proof {
            lemma_decimal_len_mono(i as nat, old_nodes.len() as nat);
        }
        let cut = parent_len + 1 + digits;
        let index_text = usize_text(i + 1);
        let new_prefix = concat3(parent_pointer, "/", index_text.as_str());
        let ghost before = nodes@;
        let mut row = nodes.remove(i);
        row.index = i + 1;
        proof {
            assert forall|k: int| 0 <= k < row.entries@.len() implies is_char_boundary(
                encode_utf8(#[trigger] row.entries@[k].pointer.pointer@),
                cut as int,
            ) by {
                assert(old_nodes[i as int].entries@[k] == row.entries@[k]);
            }
        }
        let ghost row_before = row.entries@;
        move_entries(&mut row.entries, parent_pointer, new_prefix.as_str(), i, cut);
        nodes.insert(i, row);
        proof {
            assert(nodes@ =~= before.update(i as int, nodes@[i as int]));
            assert(rv(nodes@[i as int]).entries =~= moved_row(old_rows[i as int], parent_pointer@, i as nat).entries);
        }
        i += 1;
    }
    let index_text = usize_text(new_index);
    let new_entry_pointer = concat3(parent_pointer, "/", index_text.as_str());
    let mut entries: Vec<FlatValue> = Vec::new();
    entries.push(row_number_entry(new_index, 0, new_entry_pointer.as_str()));
    entries.push(
        FlatValue {
            pointer: FlatPointer {
                pointer: new_entry_pointer,
                value_type: FlatType::Object(true, 0),
                depth,
                position: 0,
                column_id: 0,
            },
            value: Some("{}".to_owned()),
        },
    );
    let ghost moved_nodes = nodes@;
    nodes.insert(new_index, ArrayEntries { entries, index: new_index });
    proof {
        assert(rv(nodes@[new_index as int]).entries =~= new_row(new_index as nat, parent_pointer@, depth).entries);
        assert(rvs(nodes@) =~= old_rows.take(new_index as int) + seq![new_row(new_index as nat, parent_pointer@, depth)]
            + Seq::new(
            (old_rows.len() - new_index) as nat,
            |j: int| moved_row(old_rows[new_index + j], parent_pointer@, (new_index + j) as nat),
        ));
    }
    let ghost incremented = filtered_nodes@;
    filtered_nodes.insert(new_table_row_index, new_index);
    proof {
        assert(incremented =~= Seq::new(
            old_filtered.len(),
            |j: int|
                if j >= table_row_index + above_or_below {
                    (old_filtered[j] + 1) as usize
                } else {
                    old_filtered[j]
                },
        ));
    }
}

// ---------------------------------------------------------------------------
// Keyboard navigation
// ---------------------------------------------------------------------------

/// What the scroll-to-row box scrolls to.
#[derive(Clone, Copy, PartialEq, Eq, Structural, Debug)]
pub enum ScrollToRowMode {
    RowNumber,
    MatchingTerm,
}

impl Default for ScrollToRowMode {
    fn default() -> (r: Self)
        ensures
            r == ScrollToRowMode::RowNumber,
    {
        ScrollToRowMode::RowNumber
    }
}

impl ScrollToRowMode {
    /// The mode's label.
    pub fn as_str(&self) -> (r: &'static str)
        ensures
            r@ == match *self {
                ScrollToRowMode::RowNumber => "row number"@,
                ScrollToRowMode::MatchingTerm => "matching term"@,
            },
    {
        match self {
            ScrollToRowMode::RowNumber => "row number",
            ScrollToRowMode::MatchingTerm => "matching term",
        }
    }
}

/// A cell of the table: its shown row, its column, and whether it is in the
/// pinned columns.
#[derive(Clone, Copy, PartialEq, Eq, Structural, Debug)]
pub struct CellLocation {
    pub row_index: usize,
    pub column_index: usize,
    pub is_pinned_column_table: bool,
}

/// A key that moves the focused cell.
#[derive(Clone, Copy, PartialEq, Eq, Structural, Debug)]
pub enum NavigationKey {
    Tab,
    ArrowLeft,
    ArrowRight,
    ArrowUp,
    ArrowDown,
}

/// The focused cell after a key, and where the table must scroll: to a
/// column, to a row, or nowhere.
#[derive(Clone, Copy, PartialEq, Eq, Structural, Debug)]
pub struct FocusMove {
    pub cell: CellLocation,
    pub scroll_to_column: Option<usize>,
    pub scroll_to_row: Option<usize>,
}

/// The keys that can be handled without running past a table edge: the
/// last column or row is looked up only in a table that has one, and a
/// tab at the end of the pinned columns needs a next row index.
pub open spec fn can_move(c: CellLocation, key: NavigationKey, selected_len: usize, pinned_len: usize, rows_len: usize) -> bool {
    match key {
        NavigationKey::Tab => if !c.is_pinned_column_table {
            selected_len >= 1 && (c.column_index + 1 >= selected_len ==> rows_len >= 1)
        } else {
            pinned_len >= 1 && (c.column_index + 1 >= pinned_len ==> c.row_index < usize::MAX)
        },
        NavigationKey::ArrowRight => if !c.is_pinned_column_table {
            selected_len >= 1
        } else {
            pinned_len >= 1
        },
        NavigationKey::ArrowDown => rows_len >= 1,
        _ => true,
    }
}

/// Where a key moves the focused cell.  Tab goes to the next column, and
/// from the last one to the first column of the next row (in the pinned
/// columns, to the column after the row number); the arrows move one cell,
/// stopping at the edges; the pinned columns never scroll horizontally.
pub open spec fn moved_focus(c: CellLocation, key: NavigationKey, selected_len: usize, pinned_len: usize, rows_len: usize) -> FocusMove {
    let stay = FocusMove { cell: c, scroll_to_column: None, scroll_to_row: None };
    match key {
        NavigationKey::Tab => if !c.is_pinned_column_table && c.column_index + 1 < selected_len {
            let cell = CellLocation { column_index: (c.column_index + 1) as usize, ..c };
            FocusMove { cell, scroll_to_column: Some(cell.column_index), scroll_to_row: None }
        } else if !c.is_pinned_column_table && c.row_index + 1 < rows_len {
            let cell = CellLocation { column_index: 0, row_index: (c.row_index + 1) as usize, ..c };
            FocusMove { cell, scroll_to_column: None, scroll_to_row: Some(cell.row_index) }
        } else if c.is_pinned_column_table && c.column_index + 1 < pinned_len {
            FocusMove { cell: CellLocation { column_index: (c.column_index + 1) as usize, ..c }, ..stay }
        } else if c.is_pinned_column_table {
            let cell = CellLocation { column_index: 1, row_index: (c.row_index + 1) as usize, ..c };
            FocusMove { cell, scroll_to_column: None, scroll_to_row: Some(cell.row_index) }
        } else {
            stay
        },
        NavigationKey::ArrowLeft => if !c.is_pinned_column_table && c.column_index > 0 {
            let cell = CellLocation { column_index: (c.column_index - 1) as usize, ..c };
            FocusMove { cell, scroll_to_column: Some(cell.column_index), scroll_to_row: None }
        } else if c.is_pinned_column_table && c.column_index > 1 {
            FocusMove { cell: CellLocation { column_index: (c.column_index - 1) as usize, ..c }, ..stay }
        } else {
            stay
        },
        NavigationKey::ArrowRight => if !c.is_pinned_column_table && c.column_index + 1 < selected_len {
            let cell = CellLocation { column_index: (c.column_index + 1) as usize, ..c };
            FocusMove { cell, scroll_to_column: Some(cell.column_index), scroll_to_row: None }
        } else if c.is_pinned_column_table && c.column_index + 1 < pinned_len {
            FocusMove { cell: CellLocation { column_index: (c.column_index + 1) as usize, ..c }, ..stay }
        } else {
            stay
        },
        NavigationKey::ArrowUp => if c.row_index > 0 {
            let cell = CellLocation { row_index: (c.row_index - 1) as usize, ..c };
            FocusMove { cell, scroll_to_column: None, scroll_to_row: Some(cell.row_index) }
        } else {
            stay
        },
        NavigationKey::ArrowDown => if c.row_index + 1 < rows_len {
            let cell = CellLocation { row_index: (c.row_index + 1) as usize, ..c };
            FocusMove { cell, scroll_to_column: None, scroll_to_row: Some(cell.row_index) }
        } else {
            stay
        },
    }
}

/// Moves the focused cell for one key (see `moved_focus`).
pub fn move_focus(
    focused_cell: CellLocation,
    key: NavigationKey,
    selected_len: usize,
    pinned_len: usize,
    rows_len: usize,
) -> (r: FocusMove)
    requires
        can_move(focused_cell, key, selected_len, pinned_len, rows_len),
    ensures
        r == moved_focus(focused_cell, key, selected_len, pinned_len, rows_len),
{
    let mut cell = focused_cell;
    let mut scroll_to_column: Option<usize> = None;
    let mut scroll_to_row: Option<usize> = None;
    match key {
        NavigationKey::Tab => {
            if !cell.is_pinned_column_table && cell.column_index < selected_len - 1 {
                cell.column_index += 1;
                scroll_to_column = Some(cell.column_index);
            } else if !cell.is_pinned_column_table && cell.row_index < rows_len - 1 {
                cell.column_index = 0;
                cell.row_index += 1;
                scroll_to_row = Some(cell.row_index);
            } else if cell.is_pinned_column_table && cell.column_index < pinned_len - 1 {
                cell.column_index += 1;
            } else if cell.is_pinned_column_table {
                cell.column_index = 1;
                cell.row_index += 1;
                scroll_to_row = Some(cell.row_index);
            }
        },
        NavigationKey::ArrowLeft => {
            if !cell.is_pinned_column_table && cell.column_index > 0 {
                cell.column_index -= 1;
                scroll_to_column = Some(cell.column_index);
            } else if cell.is_pinned_column_table && cell.column_index > 1 {
                cell.column_index -= 1;
            }
        },
        NavigationKey::ArrowRight => {
            if !cell.is_pinned_column_table && cell.column_index < selected_len - 1 {
                cell.column_index += 1;
                scroll_to_column = Some(cell.column_index);
            } else if cell.is_pinned_column_table && cell.column_index < pinned_len - 1 {
                cell.column_index += 1;
            }
        },
        NavigationKey::ArrowUp => {
            if cell.row_index > 0 {
                cell.row_index -= 1;
                scroll_to_row = Some(cell.row_index);
            }
        },
        NavigationKey::ArrowDown => {
            if cell.row_index < rows_len - 1 {
                cell.row_index += 1;
                scroll_to_row = Some(cell.row_index);
            }
        },
    }
    FocusMove { cell, scroll_to_column, scroll_to_row }
}

// ---------------------------------------------------------------------------
// Cell edits
// ---------------------------------------------------------------------------

/// The entry a delete key writes in the hovered cell: the cell's pointer
/// and column, no value.
pub fn deleted_cell_entry(parent_pointer: &str, row_index: usize, column: &Column) -> (r: FlatValue)
    ensures
        fv(r) == (FlatValueView {
            pointer: cell_pointer(parent_pointer@, row_index as nat, column.name@),
            value_type: column.value_type,
            depth: column.depth,
            position: 0,
            column_id: column.id,
            value: None,
        }),
{
    FlatValue {
        pointer: FlatPointer {
            pointer: pointer_key(parent_pointer, row_index, column.name.as_str()),
            value_type: column.value_type,
            depth: column.depth,
            position: 0,
            column_id: column.id,
        },
        value: None,
    }
}

/// The entry pasting `text` in the hovered cell writes: an object column
/// takes the text as an object not parsed yet.
pub fn pasted_cell_entry(parent_pointer: &str, row_index: usize, column: &Column, text: String) -> (r: FlatValue)
    ensures
        fv(r) == (FlatValueView {
            pointer: cell_pointer(parent_pointer@, row_index as nat, column.name@),
            value_type: if column.value_type is Object {
                FlatType::Object(false, 0)
            } else {
                column.value_type
            },
            depth: column.depth,
            position: 0,
            column_id: column.id,
            value: Some(text@),
        }),
{
    let value_type = match column.value_type {
        FlatType::Object(_, _) => FlatType::Object(false, 0),
        t => t,
    };
    FlatValue {
        pointer: FlatPointer {
            pointer: pointer_key(parent_pointer, row_index, column.name.as_str()),
            value_type,
            depth: column.depth,
            position: 0,
            column_id: column.id,
        },
        value: Some(text),
    }
}

// ---------------------------------------------------------------------------
// Writing a value in a row
// ---------------------------------------------------------------------------

/// The position of the first entry at pointer `p`.
pub open spec fn view_at(s: Seq<FlatValueView>, p: Seq<char>) -> Option<int>
    decreases s.len(),
{
    if s.len() == 0 {
        None
    } else {
        match view_at(s.drop_last(), p) {
            Some(k) => Some(k),
            None => if s.last().pointer == p {
                Some(s.len() - 1)
            } else {
                None
            },
        }
    }
}

pub(crate) proof fn lemma_view_at(s: Seq<FlatValueView>, p: Seq<char>)
    ensures
        view_at(s, p) matches Some(k) ==> 0 <= k < s.len() && s[k].pointer == p && forall|m: int|
            0 <= m < k ==> (#[trigger] s[m]).pointer != p,
        view_at(s, p) is None ==> forall|m: int| 0 <= m < s.len() ==> (#[trigger] s[m]).pointer != p,
    decreases s.len(),
{
    if s.len() > 0 {
        lemma_view_at(s.drop_last(), p);
        assert forall|m: int| 0 <= m < s.len() - 1 implies #[trigger] s[m] == s.drop_last()[m] by {}
    }
}

pub(crate) proof fn lemma_view_at_fvs(s: Seq<FlatValue>, p: Seq<char>)
    ensures
        view_at(fvs(s), p) == first_at(s, p),
    decreases s.len(),
{
    if s.len() > 0 {
        assert(fvs(s).drop_last() =~= fvs(s.drop_last()));
        lemma_view_at_fvs(s.drop_last(), p);
    }
}

/// Writing `u` in a row: the first entry at its pointer takes its value
/// (and its type, when the entry was null); a new value that is not null
/// goes before the row's last entry (the row itself), at an unknown
/// position.  Also whether anything changed.
pub open spec fn row_written(s: Seq<FlatValueView>, u: FlatValueView) -> (Seq<FlatValueView>, bool) {
    match view_at(s, u.pointer) {
        Some(k) => if s[k].value != u.value {
            (
                s.update(
                    k,
                    FlatValueView {
                        value: u.value,
                        value_type: if s[k].value_type == FlatType::Null {
                            u.value_type
                        } else {
                            s[k].value_type
                        },
                        ..s[k]
                    },
                ),
                true,
            )
        } else {
            (s, false)
        },
        None => if u.value is Some {
            (s.insert(s.len() - 1, FlatValueView { position: usize::MAX, ..u }), true)
        } else {
            (s, false)
        },
    }
}

/// The entries after the values of nested objects are taken from
/// `reparsed`, in order: each object there gives its value to the first
/// entry at its pointer.
pub open spec fn refreshed(s: Seq<FlatValueView>, reparsed: Seq<FlatValueView>) -> Seq<FlatValueView>
    decreases reparsed.len(),
{
    if reparsed.len() == 0 {
        s
    } else {
        let t = refreshed(s, reparsed.drop_last());
        let x = reparsed.last();
        if x.value_type is Object {
            match view_at(t, x.pointer) {
                Some(k) => t.update(k, FlatValueView { value: x.value, ..t[k] }),
                None => t,
            }
        } else {
            t
        }
    }
}

/// The row after its root was written again as `text`: the nested objects
/// take their values from parsing `text` under the root's pointer (none
/// when the crate's parser would not return on it, or reports an error),
/// and the root takes `text`.
pub open spec fn reserialized(w: Seq<FlatValueView>, text: Seq<char>, max_depth: u8) -> Seq<FlatValueView> {
    let root = w.last();
    let reparsed = if flat_parse_safe(encode_utf8(text), (root.depth + 1) as u8) && (max_depth >= (root.depth + 1) as u8 || raw_json_valid(text)) {
        match flat_parse(text, root.pointer, (root.depth + 1) as u8, max_depth) {
            Some(v) => v,
            None => seq![],
        }
    } else {
        seq![]
    };
    refreshed(w.drop_last(), reparsed).push(FlatValueView { value: Some(text), ..root })
}

/// The row after a change: where the crate's serializer returns on its
/// values (`serializer_safe`, `raw_texts_valid`), its root is written again
/// as the pretty JSON text of its values (`row_pretty_text`) and the row is
/// `reserialized` from that text; else it stays as it is.
pub open spec fn rewritten(w: Seq<FlatValueView>, max_depth: u8) -> Seq<FlatValueView> {
    let root = w.last();
    let rows = w.drop_last();
    let rd = (root.depth + 1) as u8;
    if serializer_safe(rows, root.pointer, rd) && raw_texts_valid(rows, rd) {
        reserialized(w, row_pretty_text(rows, rd), max_depth)
    } else {
        w
    }
}

pub(crate) fn opt_text_eq(a: &Option<String>, b: &Option<String>) -> (r: bool)
    ensures
        r == (text_of(*a) == text_of(*b)),
{
    match (a, b) {
        (Some(x), Some(y)) => str_eq(x.as_str(), y.as_str()),
        (None, None) => true,
        _ => false,
    }
}

/// The values of nested objects taken from `reparsed` (see `refreshed`).
pub fn refresh_objects(row_entries: &mut Vec<FlatValue>, reparsed: Vec<FlatValue>)
    ensures
        fvs(final(row_entries)@) == refreshed(fvs(old(row_entries)@), fvs(reparsed@)),
{
    let ghost start = fvs(row_entries@);
    let ghost rs = fvs(reparsed@);
    let mut reparsed = reparsed;
    let total = reparsed.len();
    let mut rest: Vec<FlatValue> = Vec::new();
    // take the values in order: reverse once, then pop
    while reparsed.len() > 0
        invariant
            rs.len() == reparsed@.len() + rest@.len(),
            rs.len() == total,
            fvs(reparsed@) == rs.take(reparsed@.len() as int),
            forall|m: int| 0 <= m < rest@.len() ==> fv(#[trigger] rest@[m]) == rs[rs.len() - 1 - m],
        decreases reparsed@.len(),
    {
        let ghost before = reparsed@;
        let x = reparsed.pop().unwrap();
        proof {
            assert(before =~= reparsed@.push(x));
            assert(fvs(before)[reparsed@.len() as int] == fv(x));
            assert(rs[reparsed@.len() as int] == fv(x));
            assert(rs.take(reparsed@.len() as int) =~= rs.take(reparsed@.len() + 1int).drop_last());
            assert(fvs(reparsed@) =~= fvs(before).drop_last());
        }
        rest.push(x);
    }
    let mut done: usize = 0;
    proof {
        assert(rs.take(0) =~= seq![]);
    }
    while rest.len() > 0
        invariant
            rs.len() == done + rest@.len(),
            rs.len() == total,
            forall|m: int| 0 <= m < rest@.len() ==> fv(#[trigger] rest@[m]) == rs[rs.len() - 1 - m],
            fvs(row_entries@) == refreshed(start, rs.take(done as int)),
        decreases rest@.len(),
    {
        let x = rest.pop().unwrap();
        proof {
            assert(fv(x) == rs[done as int]);
            assert(rs.take(done + 1int).drop_last() =~= rs.take(done as int));
            assert(rs.take(done + 1int).last() == rs[done as int]);
        }
        let is_object = match x.pointer.value_type {
            FlatType::Object(_, _) => true,
            _ => false,
        };
        if is_object {
            match position_of(row_entries, x.pointer.pointer.as_str()) {
                Some(k) => {
                    let ghost before = row_entries@;
                    proof {
                        lemma_view_at_fvs(before, x.pointer.pointer@);
                    }
                    row_entries[k].value = x.value;
                    proof {
                        assert(fvs(row_entries@) =~= fvs(before).update(
                            k as int,
                            FlatValueView { value: fv(x).value, ..fvs(before)[k as int] },
                        ));
                    }
                },
                None => {
                    proof {
                        lemma_view_at_fvs(row_entries@, x.pointer.pointer@);
                    }
                },
            }
        }
        done += 1;
    }
    proof {
        assert(rs.take(rs.len() as int) =~= rs);
    }
}

/// Writes `updated_entry` in a row (see `row_written`) and tells whether a
/// value changed.  When one did, outside a sub-table, the row's root is
/// written again as JSON text from its entries and parsed back, so nested
/// objects show the new value (see `reserialized`).
pub fn update_row(
    row_entries: &mut Vec<FlatValue>,
    updated_entry: FlatValue,
    is_sub_table: bool,
    last_parsed_max_depth: u8,
) -> (value_changed: bool)
    requires
        view_at(fvs(old(row_entries)@), fv(updated_entry).pointer) is None && updated_entry.value is Some
            ==> old(row_entries)@.len() > 0,
        row_written(fvs(old(row_entries)@), fv(updated_entry)).1 && !is_sub_table ==> row_written(
            fvs(old(row_entries)@),
            fv(updated_entry),
        ).0.last().depth < u8::MAX,
    ensures
        value_changed == row_written(fvs(old(row_entries)@), fv(updated_entry)).1,
        !(value_changed && !is_sub_table) ==> fvs(final(row_entries)@) == row_written(
            fvs(old(row_entries)@),
            fv(updated_entry),
        ).0,
        value_changed && !is_sub_table ==> fvs(final(row_entries)@) == rewritten(
            row_written(fvs(old(row_entries)@), fv(updated_entry)).0,
            last_parsed_max_depth,
        ),
{
    let ghost s = fvs(row_entries@);
    let ghost u = fv(updated_entry);
    let mut value_changed = false;
    proof {
        lemma_view_at_fvs(row_entries@, u.pointer);
        lemma_view_at(s, u.pointer);
    }
    match position_of(row_entries, updated_entry.pointer.pointer.as_str()) {
        Some(k) => {
            if !opt_text_eq(&row_entries[k].value, &updated_entry.value) {
                value_changed = true;
                let ghost before = row_entries@;
                let FlatValue { pointer, value } = updated_entry;
                row_entries[k].value = value;
                if row_entries[k].pointer.value_type == FlatType::Null {
                    row_entries[k].pointer.value_type = pointer.value_type;
                }
                proof {
                    assert(fvs(row_entries@) =~= row_written(s, u).0);
                }
            }
        },
        None => {
            if updated_entry.value.is_some() {
                value_changed = true;
                let mut entry = updated_entry;
                entry.pointer.position = usize::MAX;
                let ghost before = row_entries@;
                let at = row_entries.len() - 1;
                row_entries.insert(at, entry);
                proof {
                    assert(fvs(row_entries@) =~= row_written(s, u).0);
                }
            }
        },
    }
    if value_changed && !is_sub_table {
        let ghost w = fvs(row_entries@);
        let root = row_entries.pop().unwrap();
        proof {
            assert(fvs(row_entries@) =~= w.drop_last());
            assert(fv(root) == w.last());
        }
        let rd = root.pointer.depth + 1;
        if serializer_safe_check(row_entries, root.pointer.pointer.as_str(), rd) && raw_texts_check(row_entries, rd) {
            let text = row_pretty_json(row_entries, rd);
            let reparsed = if parse_flat_check(text.as_str(), rd, last_parsed_max_depth) {
                match parse_flat(text.as_str(), root.pointer.pointer.as_str(), rd, last_parsed_max_depth) {
                    Some(v) => v,
                    None => Vec::new(),
                }
            } else {
                Vec::new()
            };
            proof {
                assert(fvs(reparsed@) == (if flat_parse_safe(encode_utf8(text@), rd) && (last_parsed_max_depth >= rd || raw_json_valid(text@)) {
                    match flat_parse(text@, w.last().pointer, rd, last_parsed_max_depth) {
                        Some(v) => v,
                        None => seq![],
                    }
                } else {
                    seq![]
                })) by {
                    if reparsed@.len() == 0 {
                        assert(fvs(reparsed@) =~= seq![]);
                    }
                }
            }
            refresh_objects(row_entries, reparsed);
            let ghost refreshed_entries = row_entries@;
            let FlatValue { pointer, value: _ } = root;
            row_entries.push(FlatValue { pointer, value: Some(text) });
            proof {
                assert(fvs(row_entries@) =~= fvs(refreshed_entries).push(fv(row_entries@.last())));
                assert(fvs(row_entries@) == reserialized(w, text@, last_parsed_max_depth));
            }
        } else {
            row_entries.push(root);
            proof {
                assert(fvs(row_entries@) =~= w);
            }
        }
    }
    value_changed
}

} // verus!
