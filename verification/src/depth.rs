//! Showing an array table at a greater depth: once each row's nested
//! objects have been parsed further, its values are given their columns
//! again, the columns of all rows are gathered (in the chunks the rows are
//! handed out in), and rows and columns are put in table order.
use vstd::prelude::*;
use vstd::utf8::{decode_utf8, encode_utf8, is_char_boundary};
use crate::rows::{
    ArrayEntries, Column, FlatParse, ColumnView, FlatValue, FlatValueView, RowView, column_id, cv, cvs, find_column, first_column,
    fvs, lemma_cvs_push, lemma_cvs_update, lemma_first_column, name_id, opt_text, row_prefix, row_prefix_text, rv, rvs,
    sort_columns, sorted_columns,
};
use crate::text::{contains_text, str_contains};
use crate::flat_json::{deepen_check, deepen_row, deepen_safe, deepened};

verus! {

// ---------------------------------------------------------------------------
// One row
// ---------------------------------------------------------------------------

/// One value of a deepened row seen, after `cut` bytes of row prefix: a
/// value past the prefix takes the id of its column and counts for it; a
/// column seen for the first time, unless its name holds `#`, is added
/// with the hash of its name as id and a count of zero.
pub open spec fn depth_entry_step(e: FlatValueView, unique: Seq<ColumnView>, cut: int) -> (FlatValueView, Seq<ColumnView>) {
    let bytes = encode_utf8(e.pointer);
    if e.pointer.len() == 0 || bytes.len() <= cut {
        (e, unique)
    } else {
        let key = decode_utf8(bytes.subrange(cut, bytes.len() as int));
        match first_column(unique, key) {
            Some(c) => (
                FlatValueView { column_id: unique[c].id, ..e },
                unique.update(c, ColumnView { seen_count: unique[c].seen_count + 1, ..unique[c] }),
            ),
            None => if contains_text(key, "#"@) {
                (e, unique)
            } else {
                (
                    FlatValueView { column_id: name_id(key), ..e },
                    unique.push(
                        ColumnView {
                            name: key,
                            depth: e.depth,
                            value_type: e.value_type,
                            seen_count: 0,
                            order: unique.len(),
                            id: name_id(key),
                        },
                    ),
                )
            },
        }
    }
}

/// The values of a row seen in order (see `depth_entry_step`).
pub open spec fn depth_row_scan(entries: Seq<FlatValueView>, unique: Seq<ColumnView>, cut: int) -> (Seq<FlatValueView>, Seq<ColumnView>)
    decreases entries.len(),
{
    if entries.len() == 0 {
        (seq![], unique)
    } else {
        let (prev, u) = depth_row_scan(entries.drop_last(), unique, cut);
        let (e, u2) = depth_entry_step(entries.last(), u, cut);
        (prev.push(e), u2)
    }
}

/// A value's pointer can be cut after `cut` bytes: it is empty, no longer
/// than the cut, or the cut falls on a character boundary.
pub open spec fn cuttable(e: FlatValueView, cut: int) -> bool {
    e.pointer.len() == 0 || encode_utf8(e.pointer).len() <= cut || is_char_boundary(encode_utf8(e.pointer), cut)
}

/// The values of a row given their columns (see `depth_row_scan`).
fn deepen_entries(entries: &mut Vec<FlatValue>, unique: &mut Vec<Column>, cut: usize, seen: Ghost<nat>)
    requires
        forall|k: int| 0 <= k < old(entries)@.len() ==> cuttable(fvs(old(entries)@)[k], cut as int),
        forall|k: int| 0 <= k < old(entries)@.len() ==> encode_utf8(#[trigger] old(entries)@[k].pointer.pointer@).len() <= usize::MAX,
        seen_sum(cvs(old(unique)@)) <= seen@,
        seen@ + old(entries)@.len() <= usize::MAX,
    ensures
        (fvs(final(entries)@), cvs(final(unique)@)) == depth_row_scan(fvs(old(entries)@), cvs(old(unique)@), cut as int),
        seen_sum(cvs(final(unique)@)) <= seen@ + old(entries)@.len(),
{
    let ghost orig = fvs(entries@);
    let ghost orig_entries = entries@;
    let ghost u0 = cvs(unique@);
    let mut j: usize = 0;
    proof {
        assert(orig.take(0) =~= seq![]);
        assert(depth_row_scan(orig.take(0), u0, cut as int).0 =~= fvs(entries@).take(0));
    }
    while j < entries.len()
        invariant
            j <= entries@.len(),
            entries@.len() == orig.len(),
            orig == fvs(orig_entries),
            u0 == cvs(old(unique)@),
            forall|k: int| 0 <= k < orig.len() ==> cuttable(orig[k], cut as int),
            forall|k: int| 0 <= k < orig_entries.len() ==> encode_utf8(#[trigger] orig_entries[k].pointer.pointer@).len() <= usize::MAX,
            seen@ + orig.len() <= usize::MAX,
            forall|k: int| j <= k < entries@.len() ==> #[trigger] entries@[k] == orig_entries[k],
            fvs(entries@).take(j as int) == depth_row_scan(orig.take(j as int), u0, cut as int).0,
            cvs(unique@) == depth_row_scan(orig.take(j as int), u0, cut as int).1,
            seen_sum(cvs(unique@)) <= seen@ + j,
        decreases entries@.len() - j,
    {
        let ghost e = orig[j as int];
        let ghost u = cvs(unique@);
        let ghost before = entries@;
        proof {
            assert(orig.take(j + 1int).drop_last() =~= orig.take(j as int));
            assert(orig.take(j + 1int).last() == e);
            assert(entries@[j as int] == orig_entries[j as int]);
            assert(fv_of(entries@[j as int]) == e);
        }
        let plen = entries[j].pointer.pointer.as_str().len();
        let empty = entries[j].pointer.pointer.as_str().is_empty();
        if !empty && plen > cut {
            let key: String = {
                let (_, tail) = entries[j].pointer.pointer.as_str().split_at(cut);
                proof {
                    broadcast use vstd::utf8::encode_utf8_decode_utf8;
                    assert(decode_utf8(encode_utf8(tail@)) == tail@);
                }
                tail.to_owned()
            };
            proof {
                assert(key@ == decode_utf8(encode_utf8(e.pointer).subrange(cut as int, encode_utf8(e.pointer).len() as int)));
            }
            match find_column(unique, key.as_str()) {
                Some(c) => {
                    let id = unique[c].id;
                    let ghost ub = unique@;
                    proof {
                        lemma_first_column(u, key@);
                        lemma_seen_le_sum(u, c as int);
                    }
                    let count = unique[c].seen_count + 1;
                    unique[c].seen_count = count;
                    entries[j].pointer.column_id = id;
                    proof {
                        assert(unique@ =~= ub.update(c as int, unique@[c as int]));
                        lemma_cvs_update(ub, c as int, unique@[c as int]);
                        lemma_seen_sum_update(u, c as int, cv(unique@[c as int]));
                    }
                },
                None => {
                    if !str_contains(key.as_str(), "#") {
                        let id = column_id(key.as_str());
                        let ghost ub = unique@;
                        let order = unique.len();
                        unique.push(
                            Column {
                                name: key,
                                depth: entries[j].pointer.depth,
                                value_type: entries[j].pointer.value_type,
                                seen_count: 0,
                                order,
                                id,
                            },
                        );
                        entries[j].pointer.column_id = id;
                        proof {
                            lemma_cvs_push(ub, unique@.last());
                            lemma_seen_sum_push(u, cv(unique@.last()));
                        }
                    }
                },
            }
        }
        proof {
            assert(fvs(entries@).take(j + 1int) =~= fvs(before).take(j as int).push(fv_of(entries@[j as int])));
            assert(forall|k: int| 0 <= k < entries@.len() && k != j ==> #[trigger] entries@[k] == before[k]);
        }
        j += 1;
    }
    proof {
        assert(orig.take(orig.len() as int) =~= orig);
        assert(fvs(entries@).take(entries@.len() as int) =~= fvs(entries@));
    }
}

pub open spec fn fv_of(e: FlatValue) -> FlatValueView {
    crate::rows::fv(e)
}

/// The counts of the columns added up.
pub open spec fn seen_sum(s: Seq<ColumnView>) -> nat
    decreases s.len(),
{
    if s.len() == 0 {
        0
    } else {
        seen_sum(s.drop_last()) + s.last().seen_count
    }
}

proof fn lemma_seen_sum_push(s: Seq<ColumnView>, c: ColumnView)
    ensures
        seen_sum(s.push(c)) == seen_sum(s) + c.seen_count,
{
    assert(s.push(c).drop_last() =~= s);
}

proof fn lemma_seen_sum_update(s: Seq<ColumnView>, k: int, c: ColumnView)
    requires
        0 <= k < s.len(),
    ensures
        seen_sum(s.update(k, c)) + s[k].seen_count == seen_sum(s) + c.seen_count,
    decreases s.len(),
{
    if k == s.len() - 1 {
        assert(s.update(k, c).drop_last() =~= s.drop_last());
    } else {
        lemma_seen_sum_update(s.drop_last(), k, c);
        assert(s.update(k, c).drop_last() =~= s.drop_last().update(k, c));
    }
}

proof fn lemma_seen_le_sum(s: Seq<ColumnView>, k: int)
    requires
        0 <= k < s.len(),
    ensures
        s[k].seen_count <= seen_sum(s),
    decreases s.len(),
{
    if k < s.len() - 1 {
        lemma_seen_le_sum(s.drop_last(), k);
    }
}

// ---------------------------------------------------------------------------
// All rows
// ---------------------------------------------------------------------------

/// A row after its nested objects were parsed further: its values, its
/// index, and how many values it had before (its own value was last).
pub struct DeepenedRow {
    pub entries: Vec<FlatValue>,
    pub index: usize,
    pub previous_len: usize,
}

/// The last position of a sequence of `n` values, or 0 when there is none.
pub open spec fn last_slot(n: nat) -> int {
    if n == 0 {
        0
    } else {
        n - 1
    }
}

pub open spec fn swapped(s: Seq<FlatValueView>, a: int, b: int) -> Seq<FlatValueView> {
    s.update(a, s[b]).update(b, s[a])
}

/// Where the row prefix of row `i` ends, in bytes.
pub open spec fn row_cut(started: Option<Seq<char>>, prefix: Option<Seq<char>>, i: nat) -> int {
    encode_utf8(row_prefix(started, prefix, i)).len() as int
}

/// A deepened row given its columns: its own value moved back to the end,
/// then its values seen in order.
pub open spec fn deepened_row(
    d: DeepenedRow,
    started: Option<Seq<char>>,
    prefix: Option<Seq<char>>,
    unique: Seq<ColumnView>,
) -> (RowView, Seq<ColumnView>) {
    let s = fvs(d.entries@);
    let (e, u) = depth_row_scan(
        swapped(s, last_slot(d.previous_len as nat), last_slot(s.len())),
        unique,
        row_cut(started, prefix, d.index as nat),
    );
    (RowView { entries: e, index: d.index }, u)
}

/// The columns of a chunk gathered into `m`: a column already there adds
/// its count, another is added unless its name holds `#`.
pub open spec fn merged(m: Seq<ColumnView>, chunk: Seq<ColumnView>) -> Seq<ColumnView>
    decreases chunk.len(),
{
    if chunk.len() == 0 {
        m
    } else {
        let m2 = merged(m, chunk.drop_last());
        let c = chunk.last();
        match first_column(m2, c.name) {
            Some(k) => m2.update(k, ColumnView { seen_count: m2[k].seen_count + c.seen_count, ..m2[k] }),
            None => if contains_text(c.name, "#"@) {
                m2
            } else {
                m2.push(c)
            },
        }
    }
}

/// How many rows a chunk holds: an eighth of the rows, at least one.
pub open spec fn chunk_size(n: nat) -> nat {
    if n < 8 {
        1
    } else {
        n / 8
    }
}

/// The first `k` rows deepened: the rows, the columns of the current
/// chunk, and the columns gathered from the chunks before it.
pub open spec fn depth_scan(
    rows: Seq<DeepenedRow>,
    k: nat,
    c: nat,
    started: Option<Seq<char>>,
    prefix: Option<Seq<char>>,
) -> (Seq<RowView>, Seq<ColumnView>, Seq<ColumnView>)
    decreases k,
{
    if k == 0 {
        (seq![], seq![], seq![])
    } else {
        let (out, cur, m) = depth_scan(rows, (k - 1) as nat, c, started, prefix);
        let i = k - 1;
        let (cur0, m0) = if i > 0 && i % (c as int) == 0 {
            (seq![], merged(m, cur))
        } else {
            (cur, m)
        };
        let (row, cur1) = deepened_row(rows[i], started, prefix, cur0);
        (out.push(row), cur1, m0)
    }
}

/// Where row `r` goes in the rows `s` sorted by index: after the rows of
/// smaller or equal index.
pub open spec fn row_insert_pos(s: Seq<RowView>, r: RowView) -> int
    decreases s.len(),
{
    if s.len() == 0 {
        0
    } else if r.index < s.last().index {
        row_insert_pos(s.drop_last(), r)
    } else {
        s.len() as int
    }
}

pub open spec fn sort_rows_into(acc: Seq<RowView>, rest: Seq<RowView>) -> Seq<RowView>
    decreases rest.len(),
{
    if rest.len() == 0 {
        acc
    } else {
        sort_rows_into(acc.insert(row_insert_pos(acc, rest[0]), rest[0]), rest.drop_first())
    }
}

/// The rows in index order, rows of equal index in their order.
pub open spec fn rows_by_index(s: Seq<RowView>) -> Seq<RowView> {
    sort_rows_into(seq![], s)
}

/// How many values the rows hold in all.
pub open spec fn total_entries(rows: Seq<DeepenedRow>) -> nat
    decreases rows.len(),
{
    if rows.len() == 0 {
        0
    } else {
        total_entries(rows.drop_last()) + rows.last().entries@.len()
    }
}

/// The rows and the columns of the table at the new depth.
pub open spec fn change_depth_spec(
    started: Option<Seq<char>>,
    prefix: Option<Seq<char>>,
    rows: Seq<DeepenedRow>,
) -> (Seq<RowView>, Seq<ColumnView>) {
    let (out, cur, m) = depth_scan(rows, rows.len(), chunk_size(rows.len()), started, prefix);
    (rows_by_index(out), sorted_columns(merged(m, cur)))
}

/// What `change_depth_array` needs to run without panicking: some row,
/// each with a value, its former last position still in it, pointers that
/// can be cut after the row prefix, and lengths that fit in memory.
pub open spec fn can_deepen(started: Option<Seq<char>>, prefix: Option<Seq<char>>, rows: Seq<DeepenedRow>) -> bool {
    &&& rows.len() > 0
    &&& total_entries(rows) <= usize::MAX
    &&& forall|i: int|
        0 <= i < rows.len() ==> (#[trigger] rows[i]).entries@.len() > 0 && last_slot(rows[i].previous_len as nat)
            < rows[i].entries@.len() && row_cut(started, prefix, rows[i].index as nat) <= usize::MAX
    &&& forall|i: int, k: int|
        0 <= i < rows.len() && 0 <= k < rows[i].entries@.len() ==> cuttable(
            fvs(rows[i].entries@)[k],
            row_cut(started, prefix, rows[i].index as nat),
        ) && encode_utf8((#[trigger] rows[i].entries@[k]).pointer.pointer@).len() <= usize::MAX
}

// ---------------------------------------------------------------------------
// Deepening
// ---------------------------------------------------------------------------

fn row_check(d: &DeepenedRow, started: &Option<String>, prefix: &Option<String>) -> (r: bool)
    ensures
        r == ({
            &&& d.entries@.len() > 0
            &&& last_slot(d.previous_len as nat) < d.entries@.len()
            &&& row_cut(opt_text(*started), opt_text(*prefix), d.index as nat) <= usize::MAX
            &&& forall|k: int| 0 <= k < d.entries@.len() ==> cuttable(
                fvs(d.entries@)[k],
                row_cut(opt_text(*started), opt_text(*prefix), d.index as nat),
            ) && encode_utf8((#[trigger] d.entries@[k]).pointer.pointer@).len() <= usize::MAX
        }),
{
    let n = d.entries.len();
    if n == 0 {
        return false;
    }
    let last = if d.previous_len == 0 {
        0
    } else {
        d.previous_len - 1
    };
    if last >= n {
        return false;
    }
    let row_text = row_prefix_text(started, prefix, d.index);
    let cut = row_text.as_str().as_bytes().len();
    let ghost c = row_cut(opt_text(*started), opt_text(*prefix), d.index as nat);
    assert(cut as int == c);
    let mut k: usize = 0;
    while k < n
        invariant
            k <= n,
            n == d.entries@.len(),
            cut as int == c,
            c == row_cut(opt_text(*started), opt_text(*prefix), d.index as nat),
            forall|m: int| 0 <= m < k ==> cuttable(fvs(d.entries@)[m], c) && encode_utf8(
                (#[trigger] d.entries@[m]).pointer.pointer@,
            ).len() <= usize::MAX,
        decreases n - k,
    {
        let p = d.entries[k].pointer.pointer.as_str();
        let bytes = p.as_bytes().len();
        assert(fvs(d.entries@)[k as int].pointer == p@);
        if !(p.unicode_len() == 0 || bytes <= cut || p.is_char_boundary(cut)) {
            proof {
                assert(d.entries@[k as int].pointer.pointer@ == p@);
                assert(!cuttable(fvs(d.entries@)[k as int], c));
                assert(!(cuttable(fvs(d.entries@)[k as int], c) && encode_utf8(d.entries@[k as int].pointer.pointer@).len()
                    <= usize::MAX));
            }
            return false;
        }
        k += 1;
    }
    true
}

/// Tells whether `can_deepen` holds.
pub fn can_deepen_check(started: &Option<String>, prefix: &Option<String>, rows: &Vec<DeepenedRow>) -> (r: bool)
    ensures
        r == can_deepen(opt_text(*started), opt_text(*prefix), rows@),
{
    if rows.len() == 0 {
        return false;
    }
    let mut total: usize = 0;
    let mut i: usize = 0;
    while i < rows.len()
        invariant
            i <= rows@.len(),
            total as nat == total_entries(rows@.take(i as int)),
            forall|j: int| 0 <= j < i ==> {
                &&& (#[trigger] rows@[j]).entries@.len() > 0
                &&& last_slot(rows@[j].previous_len as nat) < rows@[j].entries@.len()
                &&& row_cut(opt_text(*started), opt_text(*prefix), rows@[j].index as nat) <= usize::MAX
            },
            forall|j: int, k: int|
                0 <= j < i && 0 <= k < rows@[j].entries@.len() ==> cuttable(
                    fvs(rows@[j].entries@)[k],
                    row_cut(opt_text(*started), opt_text(*prefix), rows@[j].index as nat),
                ) && encode_utf8((#[trigger] rows@[j].entries@[k]).pointer.pointer@).len() <= usize::MAX,
        decreases rows@.len() - i,
    {
        proof {
            assert(rows@.take(i + 1int).drop_last() =~= rows@.take(i as int));
        }
        if !row_check(&rows[i], started, prefix) {
            return false;
        }
        match total.checked_add(rows[i].entries.len()) {
            Some(t) => {
                total = t;
            },
            None => {
                proof {
                    lemma_total_entries_prefix(rows@, i as int + 1);
                }
                return false;
            },
        }
        i += 1;
    }
    proof {
        assert(rows@.take(rows@.len() as int) =~= rows@);
    }
    true
}

proof fn lemma_total_entries_prefix(rows: Seq<DeepenedRow>, i: int)
    requires
        0 <= i <= rows.len(),
    ensures
        total_entries(rows.take(i)) <= total_entries(rows),
    decreases rows.len(),
{
    if i < rows.len() {
        assert(rows.drop_last().take(i) =~= rows.take(i)) by {
            if i == rows.len() {
            }
        }
        lemma_total_entries_prefix(rows.drop_last(), i);
    } else {
        assert(rows.take(i) =~= rows);
    }
}

/// Every row's values can be parsed deeper (`deepen_safe`).
pub open spec fn rows_deepen_safe(rows: Seq<RowView>, meta: FlatParse, depth: u8) -> bool {
    forall|i: int|
        0 <= i < rows.len() ==> deepen_safe((#[trigger] rows[i]).entries, meta.depth_after_start_at, meta.parsing_max_depth, depth)
}

/// Tells whether `rows_deepen_safe` holds.
pub fn rows_deepen_check(rows: &Vec<ArrayEntries>, meta: &FlatParse, depth: u8) -> (r: bool)
    ensures
        r == rows_deepen_safe(rvs(rows@), *meta, depth),
{
    let mut i: usize = 0;
    while i < rows.len()
        invariant
            i <= rows@.len(),
            forall|k: int|
                0 <= k < i ==> deepen_safe((#[trigger] rvs(rows@)[k]).entries, meta.depth_after_start_at, meta.parsing_max_depth, depth),
        decreases rows@.len() - i,
    {
        if !deepen_check(&rows[i].entries, meta.depth_after_start_at, meta.parsing_max_depth, depth) {
            proof {
                assert(rvs(rows@)[i as int].entries == fvs(rows@[i as int].entries@));
            }
            return false;
        }
        proof {
            assert(rvs(rows@)[i as int].entries == fvs(rows@[i as int].entries@));
        }
        i += 1;
    }
    true
}

/// Rows `d` are `rows` parsed down to `depth` (see `deepen_rows`).
pub open spec fn deepened_as(d: Seq<DeepenedRow>, rows: Seq<RowView>, meta: FlatParse, depth: u8) -> bool {
    &&& d.len() == rows.len()
    &&& forall|i: int|
        0 <= i < rows.len() ==> {
            &&& fvs((#[trigger] d[i]).entries@) == deepened(
                rows[i].entries,
                meta.depth_after_start_at,
                meta.parsing_max_depth,
                meta.max_json_depth,
                depth,
            )
            &&& d[i].index == rows[i].index
            &&& d[i].previous_len == rows[i].entries.len()
        }
}

/// Parses every row's values down to `depth` (`deepened`), keeping each
/// row's index and how many values it had; `None` when the crate's parser
/// would not return on some row (see `deepen_safe`).
pub fn deepen_rows(rows: Vec<ArrayEntries>, meta: &FlatParse, depth: u8) -> (r: Option<Vec<DeepenedRow>>)
    ensures
        r is Some <==> rows_deepen_safe(rvs(rows@), *meta, depth),
        r matches Some(d) ==> deepened_as(d@, rvs(rows@), *meta, depth),
{
    let ghost all = rows@;
    if !rows_deepen_check(&rows, meta, depth) {
        return None;
    }
    let mut rows = rows;
    let mut out: Vec<DeepenedRow> = Vec::new();
    let mut i: usize = 0;
    while i < rows.len()
        invariant
            i <= rows@.len(),
            rows@.len() == all.len(),
            out@.len() == i,
            forall|k: int| i <= k < all.len() ==> #[trigger] rows@[k] == all[k],
            rows_deepen_safe(rvs(all), *meta, depth),
            forall|k: int|
                0 <= k < i ==> {
                    &&& fvs((#[trigger] out@[k]).entries@) == deepened(
                        fvs(all[k].entries@),
                        meta.depth_after_start_at,
                        meta.parsing_max_depth,
                        meta.max_json_depth,
                        depth,
                    )
                    &&& out@[k].index == all[k].index
                    &&& out@[k].previous_len == all[k].entries@.len()
                },
        decreases rows@.len() - i,
    {
        let mut row = ArrayEntries { entries: Vec::new(), index: 0 };
        std::mem::swap(&mut row, &mut rows[i]);
        proof {
            assert(row == all[i as int]);
            assert(rvs(all)[i as int].entries == fvs(row.entries@));
        }
        let previous_len = row.entries.len();
        let index = row.index;
        let entries = deepen_row(row.entries, meta, depth);
        out.push(DeepenedRow { entries, index, previous_len });
        i += 1;
    }
    proof {
        assert forall|k: int| 0 <= k < all.len() implies rvs(all)[k] == crate::rows::rv(all[k]) by {}
    }
    Some(out)
}

/// Exchanges the values at `a` and `b`.
fn swap_entries(v: &mut Vec<FlatValue>, a: usize, b: usize)
    requires
        a < old(v)@.len(),
        b < old(v)@.len(),
    ensures
        final(v)@ == old(v)@.update(a as int, old(v)@[b as int]).update(b as int, old(v)@[a as int]),
{
    let ghost s = v@;
    if a < b {
        let y = v.remove(b);
        let x = v.remove(a);
        v.insert(a, y);
        v.insert(b, x);
    } else if b < a {
        let x = v.remove(a);
        let y = v.remove(b);
        v.insert(b, x);
        v.insert(a, y);
    }
    assert(v@ =~= s.update(a as int, s[b as int]).update(b as int, s[a as int]));
}

proof fn lemma_sum_take_le(s: Seq<ColumnView>, n: int)
    requires
        0 <= n <= s.len(),
    ensures
        seen_sum(s.take(n)) <= seen_sum(s),
    decreases s.len() - n,
{
    if n < s.len() {
        lemma_sum_take_le(s, n + 1);
        assert(s.take(n + 1).drop_last() =~= s.take(n));
    } else {
        assert(s.take(n) =~= s);
    }
}

/// The columns of a chunk gathered into `m` (see `merged`).
fn merge_into(m: &mut Vec<Column>, chunk: Vec<Column>, a: Ghost<nat>, b: Ghost<nat>)
    requires
        seen_sum(cvs(old(m)@)) <= a@,
        seen_sum(cvs(chunk@)) <= b@,
        a@ + b@ <= usize::MAX,
    ensures
        cvs(final(m)@) == merged(cvs(old(m)@), cvs(chunk@)),
        seen_sum(cvs(final(m)@)) <= a@ + b@,
{
    let ghost m0 = cvs(m@);
    let ghost cs = cvs(chunk@);
    let ghost chunk_cols = chunk@;
    let mut chunk = chunk;
    let mut rest: Vec<Column> = Vec::new();
    let total = chunk.len();
    while chunk.len() > 0
        invariant
            cs.len() == chunk@.len() + rest@.len(),
            cs.len() == total,
            chunk@ == chunk_cols.take(chunk@.len() as int),
            cs == cvs(chunk_cols),
            forall|k: int| 0 <= k < rest@.len() ==> #[trigger] rest@[k] == chunk_cols[cs.len() - 1 - k],
        decreases chunk@.len(),
    {
        let ghost before = chunk@;
        let x = chunk.pop().unwrap();
        proof {
            assert(before =~= chunk@.push(x));
            assert(chunk_cols.take(chunk@.len() as int) =~= chunk_cols.take(chunk@.len() + 1int).drop_last());
        }
        rest.push(x);
    }
    let mut done: usize = 0;
    proof {
        assert(cs.take(0) =~= seq![]);
    }
    while rest.len() > 0
        invariant
            cs.len() == done + rest@.len(),
            cs.len() == total,
            cs == cvs(chunk_cols),
            forall|k: int| 0 <= k < rest@.len() ==> #[trigger] rest@[k] == chunk_cols[cs.len() - 1 - k],
            seen_sum(cs) <= b@,
            a@ + b@ <= usize::MAX,
            cvs(m@) == merged(m0, cs.take(done as int)),
            seen_sum(cvs(m@)) <= seen_sum(m0) + seen_sum(cs.take(done as int)),
            seen_sum(m0) <= a@,
        decreases rest@.len(),
    {
        let c = rest.pop().unwrap();
        proof {
            assert(cv(c) == cs[done as int]);
            assert(cs.take(done + 1int).drop_last() =~= cs.take(done as int));
            assert(cs.take(done + 1int).last() == cs[done as int]);
            assert(seen_sum(cs.take(done + 1int)) == seen_sum(cs.take(done as int)) + cs[done as int].seen_count);
            lemma_sum_take_le(cs, done + 1);
        }
        match find_column(m, c.name.as_str()) {
            Some(k) => {
                let ghost mb = m@;
                proof {
                    lemma_first_column(cvs(mb), c.name@);
                    lemma_seen_le_sum(cvs(mb), k as int);
                }
                let count = m[k].seen_count + c.seen_count;
                m[k].seen_count = count;
                proof {
                    assert(m@ =~= mb.update(k as int, m@[k as int]));
                    lemma_cvs_update(mb, k as int, m@[k as int]);
                    lemma_seen_sum_update(cvs(mb), k as int, cv(m@[k as int]));
                }
            },
            None => {
                if !str_contains(c.name.as_str(), "#") {
                    let ghost mb = m@;
                    m.push(c);
                    proof {
                        lemma_cvs_push(mb, m@.last());
                        lemma_seen_sum_push(cvs(mb), cv(m@.last()));
                    }
                }
            },
        }
        done += 1;
    }
    proof {
        assert(cs.take(cs.len() as int) =~= cs);
    }
}

/// The rows in index order (see `rows_by_index`).
fn sort_rows(rows: Vec<ArrayEntries>) -> (r: Vec<ArrayEntries>)
    ensures
        rvs(r@) == rows_by_index(rvs(rows@)),
{
    let ghost all = rvs(rows@);
    let mut rest = rows;
    let mut acc: Vec<ArrayEntries> = Vec::new();
    proof {
        assert(rvs(acc@) =~= seq![]);
    }
    while rest.len() > 0
        invariant
            sort_rows_into(rvs(acc@), rvs(rest@)) == rows_by_index(all),
        decreases rest@.len(),
    {
        let ghost before_rest = rvs(rest@);
        let ghost before_acc = rvs(acc@);
        let r = rest.remove(0);
        proof {
            assert(rvs(rest@) =~= before_rest.drop_first());
            assert(rv(r) == before_rest[0]);
        }
        let mut k = acc.len();
        proof {
            assert(before_acc.take(k as int) =~= before_acc);
        }
        while k > 0 && r.index < acc[k - 1].index
            invariant
                k <= acc@.len(),
                rvs(acc@) == before_acc,
                row_insert_pos(before_acc, rv(r)) == row_insert_pos(before_acc.take(k as int), rv(r)),
            decreases k,
        {
            proof {
                assert(before_acc.take(k as int).drop_last() =~= before_acc.take(k - 1));
                assert(before_acc.take(k as int).last() == before_acc[k - 1]);
            }
            k -= 1;
        }
        proof {
            if k > 0 {
                assert(before_acc.take(k as int).last() == before_acc[k - 1]);
            } else {
                assert(before_acc.take(0).len() == 0);
            }
            assert(row_insert_pos(before_acc, rv(r)) == k);
        }
        acc.insert(k, r);
        proof {
            assert(rvs(acc@) =~= before_acc.insert(k as int, rv(r)));
        }
    }
    acc
}

proof fn lemma_total_take(rows: Seq<DeepenedRow>, i: int)
    requires
        0 <= i < rows.len(),
    ensures
        total_entries(rows.take(i + 1)) == total_entries(rows.take(i)) + rows[i].entries@.len(),
        total_entries(rows.take(i + 1)) <= total_entries(rows),
    decreases rows.len() - i,
{
    assert(rows.take(i + 1).drop_last() =~= rows.take(i));
    if i + 1 < rows.len() {
        lemma_total_take(rows, i + 1);
    } else {
        assert(rows.take(i + 1) =~= rows);
    }
}

/// `rows` in reverse order.
fn reverse_deepened(rows: Vec<DeepenedRow>) -> (r: Vec<DeepenedRow>)
    ensures
        r@.len() == rows@.len(),
        forall|k: int| 0 <= k < r@.len() ==> #[trigger] r@[k] == rows@[rows@.len() - 1 - k],
{
    let ghost orig = rows@;
    let mut v = rows;
    let mut r: Vec<DeepenedRow> = Vec::new();
    while v.len() > 0
        invariant
            v@.len() + r@.len() == orig.len(),
            v@ == orig.take(v@.len() as int),
            forall|m: int| 0 <= m < r@.len() ==> #[trigger] r@[m] == orig[orig.len() - 1 - m],
        decreases v@.len(),
    {
        let x = v.pop().unwrap();
        proof {
            assert(orig.take(v@.len() as int) =~= orig.take(v@.len() + 1int).drop_last());
        }
        r.push(x);
    }
    r
}

/// The rows and columns of an array table at a greater depth, from its rows
/// after their nested objects were parsed further: in each row, the row's
/// own value goes back to the end and the values are given their columns
/// (in chunks of an eighth of the rows, at least one, each chunk counting
/// on its own); then the rows are put in index order, the columns in table
/// order, along with the depth the table now shows.
pub fn change_depth_array(
    started_parsing_at: &Option<String>,
    parsing_prefix: &Option<String>,
    rows: Vec<DeepenedRow>,
) -> (r: (Vec<ArrayEntries>, Vec<Column>, usize))
    requires
        can_deepen(opt_text(*started_parsing_at), opt_text(*parsing_prefix), rows@),
    ensures
        (rvs(r.0@), cvs(r.1@)) == change_depth_spec(opt_text(*started_parsing_at), opt_text(*parsing_prefix), rows@),
        r.2 == 4,
{
    let ghost st = opt_text(*started_parsing_at);
    let ghost pre = opt_text(*parsing_prefix);
    let ghost all = rows@;
    let n = rows.len();
    let c = if n < 8 {
        1
    } else {
        n / 8
    };
    let mut pending = reverse_deepened(rows);
    let mut out: Vec<ArrayEntries> = Vec::new();
    let mut cur: Vec<Column> = Vec::new();
    let mut gathered: Vec<Column> = Vec::new();
    let ghost mut pm: nat = 0;
    let ghost mut pc: nat = 0;
    let mut i: usize = 0;
    proof {
        assert(rvs(out@) =~= seq![]);
        assert(cvs(cur@) =~= seq![]);
        assert(cvs(gathered@) =~= seq![]);
        assert(all.take(0) =~= seq![]);
    }
    while i < n
        invariant
            i <= n,
            n == all.len(),
            c == chunk_size(n as nat),
            c >= 1,
            can_deepen(st, pre, all),
            st == opt_text(*started_parsing_at),
            pre == opt_text(*parsing_prefix),
            pending@.len() == n - i,
            forall|k: int| 0 <= k < pending@.len() ==> #[trigger] pending@[k] == all[n - 1 - k],
            (rvs(out@), cvs(cur@), cvs(gathered@)) == depth_scan(all, i as nat, c as nat, st, pre),
            seen_sum(cvs(cur@)) <= pc,
            seen_sum(cvs(gathered@)) <= pm,
            pm + pc == total_entries(all.take(i as int)),
        decreases n - i,
    {
        proof {
            lemma_total_take(all, i as int);
        }
        if i > 0 && i % c == 0 {
            let chunk = cur;
            cur = Vec::new();
            merge_into(&mut gathered, chunk, Ghost(pm), Ghost(pc));
            proof {
                pm = pm + pc;
                pc = 0;
                assert(cvs(cur@) =~= seq![]);
            }
        }
        let ghost d = all[i as int];
        let ghost cur0 = cvs(cur@);
        let mut row = pending.pop().unwrap();
        proof {
            assert(row == d);
        }
        let len = row.entries.len();
        let last_index = if row.previous_len == 0 {
            0
        } else {
            row.previous_len - 1
        };
        let ghost orig_entries = row.entries@;
        swap_entries(&mut row.entries, last_index, len - 1);
        proof {
            let a = last_slot(d.previous_len as nat);
            let b = last_slot(len as nat);
            assert(fvs(row.entries@) =~= swapped(fvs(orig_entries), a, b));
            assert forall|k: int| 0 <= k < row.entries@.len() implies cuttable(
                fvs(row.entries@)[k],
                row_cut(st, pre, d.index as nat),
            ) && encode_utf8((#[trigger] row.entries@[k]).pointer.pointer@).len() <= usize::MAX by {
                if k == a {
                    assert(row.entries@[k] == orig_entries[b]);
                    assert(all[i as int].entries@[b] == orig_entries[b]);
                } else if k == b {
                    assert(row.entries@[k] == orig_entries[a]);
                    assert(all[i as int].entries@[a] == orig_entries[a]);
                } else {
                    assert(row.entries@[k] == orig_entries[k]);
                    assert(all[i as int].entries@[k] == orig_entries[k]);
                }
            }
        }
        let prefix_text = row_prefix_text(started_parsing_at, parsing_prefix, row.index);
        let cut = prefix_text.as_str().len();
        deepen_entries(&mut row.entries, &mut cur, cut, Ghost(pc));
        proof {
            pc = pc + len as nat;
        }
        let ghost before_out = out@;
        out.push(ArrayEntries { entries: row.entries, index: row.index });
        proof {
            crate::rows::lemma_rvs_push(before_out, out@.last());
            let (o1, c1, m1) = depth_scan(all, i as nat, c as nat, st, pre);
            assert(depth_scan(all, (i + 1) as nat, c as nat, st, pre) == ({
                let (cur0s, m0s) = if (i as int) > 0 && (i as int) % (c as nat as int) == 0 {
                    (seq![], merged(m1, c1))
                } else {
                    (c1, m1)
                };
                let (rw, cur1) = deepened_row(all[i as int], st, pre, cur0s);
                (o1.push(rw), cur1, m0s)
            }));
        }
        i += 1;
    }
    proof {
        assert(all.take(n as int) =~= all);
    }
    merge_into(&mut gathered, cur, Ghost(pm), Ghost(pc));
    let rows_out = sort_rows(out);
    let columns = sort_columns(gathered);
    (rows_out, columns, 4)
}

} // verus!
