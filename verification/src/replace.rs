//! Find and replace over the values of a table's selected columns: a
//! literal, case-insensitive search (the default), a whole-word search, a
//! regular expression, or a case-sensitive literal search.  Without a
//! replacement value, a matching value becomes `null`.
use vstd::prelude::*;
use regex_lite::Regex;
use crate::rows::{ArrayEntries, Column, FlatPointer, FlatValue, FlatValueView, fv, text_of};
use crate::text::{concat2, concat3, contains_text, str_contains};

verus! {

// ---------------------------------------------------------------------------
// Requests
// ---------------------------------------------------------------------------

/// How the search criteria is matched.
#[derive(PartialEq, Eq, Structural, Debug, Clone, Copy)]
pub enum ReplaceMode {
    /// The criteria as a literal, ignoring case.
    Simple,
    /// The criteria as a regular expression.
    Regex,
    /// The criteria as a literal whole word.
    ExactWord,
    /// The criteria as a literal, case-sensitive; no regular expression.
    MatchingCase,
}

impl Default for ReplaceMode {
    fn default() -> (r: Self)
        ensures
            r == ReplaceMode::Simple,
    {
        ReplaceMode::Simple
    }
}

/// A find-and-replace request: what to look for, what to put instead
/// (`None`: set matching values to `null`), in which columns, and how to
/// match.
pub struct SearchReplaceResponse {
    pub search_criteria: String,
    pub replace_value: Option<String>,
    pub selected_column: Option<Vec<Column>>,
    pub replace_mode: ReplaceMode,
}

/// The ids of the selected columns.
pub open spec fn selected_ids(selected: Option<Vec<Column>>) -> Seq<usize> {
    match selected {
        Some(cols) => cols@.map_values(|c: Column| c.id),
        None => seq![],
    }
}

// ---------------------------------------------------------------------------
// Patterns
// ---------------------------------------------------------------------------

/// A character with a meaning in a regular expression.
pub open spec fn is_meta(c: char) -> bool {
    c == '\\' || c == '.' || c == '+' || c == '*' || c == '?' || c == '(' || c == ')' || c == '|'
        || c == '[' || c == ']' || c == '{' || c == '}' || c == '^' || c == '$' || c == '#'
        || c == '&' || c == '-' || c == '~'
}

/// `s` with a backslash before each meta character: a pattern that matches
/// `s` literally.
pub open spec fn escaped(s: Seq<char>) -> Seq<char>
    decreases s.len(),
{
    if s.len() == 0 {
        seq![]
    } else {
        escaped(s.drop_last()) + if is_meta(s.last()) {
            seq!['\\', s.last()]
        } else {
            seq![s.last()]
        }
    }
}

/// The regular expression a mode searches with (not used by
/// `MatchingCase`).
pub open spec fn mode_pattern(mode: ReplaceMode, criteria: Seq<char>) -> Seq<char> {
    match mode {
        ReplaceMode::Regex => criteria,
        ReplaceMode::ExactWord => "\\b"@ + escaped(criteria) + "\\b"@,
        _ => "(?i)"@ + escaped(criteria),
    }
}

/// Whether `Regex::new` accepts a pattern.
pub uninterp spec fn regex_compiles(pattern: Seq<char>) -> bool;

/// What `Regex::is_match` answers for the regex compiled from `pattern`.
pub uninterp spec fn regex_is_match(pattern: Seq<char>, haystack: Seq<char>) -> bool;

/// What `Regex::replace_all` returns for the regex compiled from `pattern`,
/// with a replacement string (where `$name` and `${name}` stand for groups).
pub uninterp spec fn regex_replace_all(pattern: Seq<char>, haystack: Seq<char>, replacement: Seq<char>) -> Seq<char>;

#[verifier::external_type_specification]
#[verifier::external_body]
pub struct ExRegex(Regex);

/// A compiled regular expression and the pattern it was compiled from.
pub struct CompiledPattern {
    regex: Regex,
    pattern: String,
}

impl CompiledPattern {
    /// The pattern the regex was compiled from.
    pub closed spec fn source(&self) -> Seq<char> {
        self.pattern@
    }
}

/// Calls `regex_lite::escape`, which puts a backslash before each meta
/// character; claimed: the result is `escaped(s)`.
#[verifier::external_body]
fn regex_escape(s: &str) -> (r: String)
    ensures
        r@ == escaped(s@),
{
    regex_lite::escape(s)
}

/// Calls `Regex::new`.  Claimed: it succeeds exactly when
/// `regex_compiles(pattern)`, and the value keeps the pattern it was
/// compiled from.  Which patterns compile (syntax, size limit) is left to
/// the name.
#[verifier::external_body]
fn compile_pattern(pattern: &str) -> (r: Option<CompiledPattern>)
    ensures
        r is Some <==> regex_compiles(pattern@),
        r matches Some(c) ==> c.source() == pattern@,
{
    match Regex::new(pattern) {
        Ok(regex) => Some(CompiledPattern { regex, pattern: pattern.to_string() }),
        Err(_) => None,
    }
}

/// Calls `Regex::is_match`.  Claimed: the answer is `regex_is_match` of the
/// pattern and the haystack.
#[verifier::external_body]
fn pattern_is_match(c: &CompiledPattern, haystack: &str) -> (r: bool)
    ensures
        r == regex_is_match(c.source(), haystack@),
{
    c.regex.is_match(haystack)
}

/// Calls `Regex::replace_all` with a string replacement.  Claimed: the
/// result is `regex_replace_all` of the pattern, haystack and replacement,
/// and, as its documentation says, the haystack itself when nothing
/// matches.
#[verifier::external_body]
fn pattern_replace_all(c: &CompiledPattern, haystack: &str, replacement: &str) -> (r: String)
    ensures
        r@ == regex_replace_all(c.source(), haystack@, replacement@),
        !regex_is_match(c.source(), haystack@) ==> r@ == haystack@,
{
    c.regex.replace_all(haystack, replacement).into_owned()
}

// ---------------------------------------------------------------------------
// Literal replacement
// ---------------------------------------------------------------------------

/// `s` with every occurrence of `from` replaced by `to`, left to right and
/// without overlaps; an empty `from` occurs before each character and at
/// the end.
pub open spec fn replaced(s: Seq<char>, from: Seq<char>, to: Seq<char>) -> Seq<char>
    decreases s.len(),
{
    if from.len() == 0 {
        if s.len() == 0 {
            to
        } else {
            to + seq![s[0]] + replaced(s.drop_first(), from, to)
        }
    } else if s.len() < from.len() {
        s
    } else if s.subrange(0, from.len() as int) == from {
        to + replaced(s.subrange(from.len() as int, s.len() as int), from, to)
    } else {
        seq![s[0]] + replaced(s.drop_first(), from, to)
    }
}

/// Calls `str::replace` with string patterns; claimed: the result is
/// `replaced(s, from, to)`.
#[verifier::external_body]
pub(crate) fn str_replace(s: &str, from: &str, to: &str) -> (r: String)
    ensures
        r@ == replaced(s@, from@, to@),
{
    s.replace(from, to)
}

// ---------------------------------------------------------------------------
// New values
// ---------------------------------------------------------------------------

/// Without a replacement, whether a value is a match that becomes `null`:
/// an empty value for an empty criteria, or a value where a non-empty
/// criteria matches.
pub open spec fn nulled(criteria: Seq<char>, value: Seq<char>, matches: bool) -> bool {
    (criteria.len() == 0 && value.len() == 0) || (criteria.len() > 0 && matches)
}

/// The new value of `value` under a request.
pub open spec fn new_value(
    mode: ReplaceMode,
    criteria: Seq<char>,
    replacement: Option<Seq<char>>,
    value: Seq<char>,
) -> Option<Seq<char>> {
    if mode == ReplaceMode::MatchingCase {
        match replacement {
            Some(rv) => Some(replaced(value, criteria, rv)),
            None => if nulled(criteria, value, contains_text(value, criteria)) {
                None
            } else {
                Some(value)
            },
        }
    } else {
        let p = mode_pattern(mode, criteria);
        match replacement {
            Some(rv) => Some(regex_replace_all(p, value, rv)),
            None => if nulled(criteria, value, regex_is_match(p, value)) {
                None
            } else {
                Some(value)
            },
        }
    }
}

/// The new value of `value` when searching with a compiled pattern.
fn replace_with_regex(search_replace_response: &SearchReplaceResponse, value: &str, re: &CompiledPattern) -> (r: Option<String>)
    ensures
        text_of(r) == (match text_of(search_replace_response.replace_value) {
            Some(rv) => Some(regex_replace_all(re.source(), value@, rv)),
            None => if nulled(search_replace_response.search_criteria@, value@, regex_is_match(re.source(), value@)) {
                None
            } else {
                Some(value@)
            },
        }),
{
    match &search_replace_response.replace_value {
        Some(replace_value) => Some(pattern_replace_all(re, value, replace_value.as_str())),
        None => {
            let criteria_empty = search_replace_response.search_criteria.as_str().is_empty();
            if (criteria_empty && value.is_empty()) || (!criteria_empty && pattern_is_match(re, value)) {
                None
            } else {
                Some(value.to_owned())
            }
        },
    }
}

// ---------------------------------------------------------------------------
// Replacing in a table
// ---------------------------------------------------------------------------

/// The entry of a selected column that holds a value.
pub open spec fn selected_entry(e: FlatValue, ids: Seq<usize>) -> bool {
    ids.contains(e.pointer.column_id) && e.value is Some
}

/// What a request makes of the selected entries of one row, in order.
pub open spec fn row_replacements(
    entries: Seq<FlatValue>,
    index: usize,
    mode: ReplaceMode,
    criteria: Seq<char>,
    replacement: Option<Seq<char>>,
    ids: Seq<usize>,
) -> Seq<(FlatValueView, usize)>
    decreases entries.len(),
{
    if entries.len() == 0 {
        seq![]
    } else {
        let rest = row_replacements(entries.drop_last(), index, mode, criteria, replacement, ids);
        let e = entries.last();
        if selected_entry(e, ids) {
            rest.push(
                (FlatValueView { value: new_value(mode, criteria, replacement, e.value->0@), ..fv(e) }, index),
            )
        } else {
            rest
        }
    }
}

/// What a request makes of the selected entries of all rows, in order.
pub open spec fn replacements(
    rows: Seq<ArrayEntries>,
    mode: ReplaceMode,
    criteria: Seq<char>,
    replacement: Option<Seq<char>>,
    ids: Seq<usize>,
) -> Seq<(FlatValueView, usize)>
    decreases rows.len(),
{
    if rows.len() == 0 {
        seq![]
    } else {
        replacements(rows.drop_last(), mode, criteria, replacement, ids) + row_replacements(
            rows.last().entries@,
            rows.last().index,
            mode,
            criteria,
            replacement,
            ids,
        )
    }
}

/// Some row has a selected entry.
pub open spec fn has_selected(rows: Seq<ArrayEntries>, ids: Seq<usize>) -> bool {
    exists|i: int, k: int|
        0 <= i < rows.len() && 0 <= k < rows[i].entries@.len() && #[trigger] selected_entry(
            rows[i].entries@[k],
            ids,
        )
}

/// The pattern a request compiles is needed and does not compile.
pub open spec fn pattern_fails(rows: Seq<ArrayEntries>, r: SearchReplaceResponse) -> bool {
    &&& r.replace_mode != ReplaceMode::MatchingCase
    &&& has_selected(rows, selected_ids(r.selected_column))
    &&& !regex_compiles(mode_pattern(r.replace_mode, r.search_criteria@))
}

pub open spec fn replacement_views(v: Seq<(FlatValue, usize)>) -> Seq<(FlatValueView, usize)> {
    v.map_values(|p: (FlatValue, usize)| (fv(p.0), p.1))
}

/// The new value a request makes of one entry that holds a value, tagged
/// with its row's index.
pub open spec fn replacement_of(
    e: FlatValue,
    index: usize,
    mode: ReplaceMode,
    criteria: Seq<char>,
    replacement: Option<Seq<char>>,
) -> (FlatValueView, usize) {
    (FlatValueView { value: new_value(mode, criteria, replacement, e.value->0@), ..fv(e) }, index)
}

proof fn lemma_row_replacement_present(
    entries: Seq<FlatValue>,
    index: usize,
    mode: ReplaceMode,
    criteria: Seq<char>,
    replacement: Option<Seq<char>>,
    ids: Seq<usize>,
    k: int,
)
    requires
        0 <= k < entries.len(),
        ids.contains(entries[k].pointer.column_id),
        entries[k].value is Some,
    ensures
        row_replacements(entries, index, mode, criteria, replacement, ids).contains(
            replacement_of(entries[k], index, mode, criteria, replacement),
        ),
    decreases entries.len(),
{
    let rest = row_replacements(entries.drop_last(), index, mode, criteria, replacement, ids);
    if k == entries.len() - 1 {
        let s = rest.push(replacement_of(entries[k], index, mode, criteria, replacement));
        assert(s[s.len() - 1] == replacement_of(entries[k], index, mode, criteria, replacement));
    } else {
        assert(entries.drop_last()[k] == entries[k]);
        lemma_row_replacement_present(entries.drop_last(), index, mode, criteria, replacement, ids, k);
        let x = replacement_of(entries[k], index, mode, criteria, replacement);
        let n = choose|n: int| 0 <= n < rest.len() && rest[n] == x;
        if selected_entry(entries.last(), ids) {
            let s = rest.push(
                (FlatValueView { value: new_value(mode, criteria, replacement, entries.last().value->0@), ..fv(entries.last()) }, index),
            );
            assert(s[n] == x);
        }
    }
}

/// Every selected column is searched: for every selected column `c`, every
/// entry of every row whose column id is `c`'s and that holds a value gets
/// its new value in the result, with its row's index.
pub proof fn law_every_selected_column_replaced(
    rows: Seq<ArrayEntries>,
    mode: ReplaceMode,
    criteria: Seq<char>,
    replacement: Option<Seq<char>>,
    cols: Vec<Column>,
    m: int,
    i: int,
    k: int,
)
    requires
        0 <= m < cols@.len(),
        0 <= i < rows.len(),
        0 <= k < rows[i].entries@.len(),
        rows[i].entries@[k].pointer.column_id == cols@[m].id,
        rows[i].entries@[k].value is Some,
    ensures
        replacements(rows, mode, criteria, replacement, selected_ids(Some(cols))).contains(
            replacement_of(rows[i].entries@[k], rows[i].index, mode, criteria, replacement),
        ),
    decreases rows.len(),
{
    let ids = selected_ids(Some(cols));
    assert(ids[m] == cols@[m].id);
    let x = replacement_of(rows[i].entries@[k], rows[i].index, mode, criteria, replacement);
    let front = replacements(rows.drop_last(), mode, criteria, replacement, ids);
    let last = row_replacements(rows.last().entries@, rows.last().index, mode, criteria, replacement, ids);
    assert(replacements(rows, mode, criteria, replacement, ids) == front + last);
    if i == rows.len() - 1 {
        lemma_row_replacement_present(rows.last().entries@, rows.last().index, mode, criteria, replacement, ids, k);
        let n = choose|n: int| 0 <= n < last.len() && last[n] == x;
        assert((front + last)[front.len() + n] == x);
    } else {
        assert(rows.drop_last()[i] == rows[i]);
        law_every_selected_column_replaced(rows.drop_last(), mode, criteria, replacement, cols, m, i, k);
        let n = choose|n: int| 0 <= n < front.len() && front[n] == x;
        assert((front + last)[n] == x);
    }
}

proof fn lemma_row_replacement_source(
    entries: Seq<FlatValue>,
    index: usize,
    mode: ReplaceMode,
    criteria: Seq<char>,
    replacement: Option<Seq<char>>,
    ids: Seq<usize>,
    n: int,
) -> (k: int)
    requires
        0 <= n < row_replacements(entries, index, mode, criteria, replacement, ids).len(),
    ensures
        0 <= k < entries.len(),
        ids.contains(entries[k].pointer.column_id),
        entries[k].value is Some,
        row_replacements(entries, index, mode, criteria, replacement, ids)[n] == replacement_of(
            entries[k],
            index,
            mode,
            criteria,
            replacement,
        ),
    decreases entries.len(),
{
    let rest = row_replacements(entries.drop_last(), index, mode, criteria, replacement, ids);
    if n < rest.len() {
        let k = lemma_row_replacement_source(entries.drop_last(), index, mode, criteria, replacement, ids, n);
        assert(entries.drop_last()[k] == entries[k]);
        if selected_entry(entries.last(), ids) {
            assert(rest.push(replacement_of(entries.last(), index, mode, criteria, replacement))[n] == rest[n]);
        }
        k
    } else {
        entries.len() - 1
    }
}

/// Only the selected columns are touched: each element of the result is
/// the new value of an entry, holding a value, of some row, whose column
/// id is the id of one of the selected columns, tagged with that row's
/// index.
pub proof fn law_only_selected_columns_replaced(
    rows: Seq<ArrayEntries>,
    mode: ReplaceMode,
    criteria: Seq<char>,
    replacement: Option<Seq<char>>,
    cols: Vec<Column>,
    n: int,
)
    requires
        0 <= n < replacements(rows, mode, criteria, replacement, selected_ids(Some(cols))).len(),
    ensures
        exists|i: int, k: int, m: int|
            #![trigger rows[i].entries@[k], cols@[m]]
            0 <= i < rows.len() && 0 <= k < rows[i].entries@.len() && 0 <= m < cols@.len()
                && rows[i].entries@[k].pointer.column_id == cols@[m].id && rows[i].entries@[k].value is Some
                && replacements(rows, mode, criteria, replacement, selected_ids(Some(cols)))[n]
                == replacement_of(rows[i].entries@[k], rows[i].index, mode, criteria, replacement),
    decreases rows.len(),
{
    let ids = selected_ids(Some(cols));
    let front = replacements(rows.drop_last(), mode, criteria, replacement, ids);
    let last = row_replacements(rows.last().entries@, rows.last().index, mode, criteria, replacement, ids);
    assert(replacements(rows, mode, criteria, replacement, ids) == front + last);
    if n < front.len() {
        law_only_selected_columns_replaced(rows.drop_last(), mode, criteria, replacement, cols, n);
        let (i, k, m) = choose|i: int, k: int, m: int|
            #![trigger rows.drop_last()[i].entries@[k], cols@[m]]
            0 <= i < rows.drop_last().len() && 0 <= k < rows.drop_last()[i].entries@.len() && 0 <= m < cols@.len()
                && rows.drop_last()[i].entries@[k].pointer.column_id == cols@[m].id
                && rows.drop_last()[i].entries@[k].value is Some
                && front[n] == replacement_of(rows.drop_last()[i].entries@[k], rows.drop_last()[i].index, mode, criteria, replacement);
        assert(rows.drop_last()[i] == rows[i]);
        assert((front + last)[n] == front[n]);
    } else {
        let i = rows.len() - 1;
        let k = lemma_row_replacement_source(rows.last().entries@, rows.last().index, mode, criteria, replacement, ids, n - front.len());
        let m = choose|m: int| 0 <= m < ids.len() && ids[m] == rows[i].entries@[k].pointer.column_id;
        assert(ids[m] == cols@[m].id);
        assert((front + last)[n] == last[n - front.len()]);
    }
}

pub(crate) fn clone_pointer(p: &FlatPointer) -> (r: FlatPointer)
    ensures
        r.pointer@ == p.pointer@,
        r.value_type == p.value_type,
        r.depth == p.depth,
        r.position == p.position,
        r.column_id == p.column_id,
{
    FlatPointer {
        pointer: p.pointer.clone(),
        value_type: p.value_type,
        depth: p.depth,
        position: p.position,
        column_id: p.column_id,
    }
}

fn column_ids(selected: &Option<Vec<Column>>) -> (r: Vec<usize>)
    ensures
        r@ == selected_ids(*selected),
{
    let mut r: Vec<usize> = Vec::new();
    match selected {
        Some(cols) => {
            let mut k: usize = 0;
            while k < cols.len()
                invariant
                    k <= cols@.len(),
                    r@ == cols@.take(k as int).map_values(|c: Column| c.id),
                decreases cols@.len() - k,
            {
                r.push(cols[k].id);
                k += 1;
                proof {
                    assert(cols@.take(k as int).map_values(|c: Column| c.id) =~= cols@.take(k - 1).map_values(
                        |c: Column| c.id,
                    ).push(cols@[k - 1].id));
                }
            }
            proof {
                assert(cols@.take(cols@.len() as int) =~= cols@);
            }
        },
        None => {
            proof {
                assert(r@ =~= seq![]);
            }
        },
    }
    r
}

fn contains_id(ids: &Vec<usize>, id: usize) -> (r: bool)
    ensures
        r == ids@.contains(id),
{
    let mut k: usize = 0;
    while k < ids.len()
        invariant
            k <= ids@.len(),
            forall|m: int| 0 <= m < k ==> ids@[m] != id,
        decreases ids@.len() - k,
    {
        if ids[k] == id {
            return true;
        }
        k += 1;
    }
    false
}

/// The pattern of a request's mode, as `mode_pattern` states it.
fn pattern_text(mode: ReplaceMode, criteria: &str) -> (r: String)
    requires
        mode != ReplaceMode::MatchingCase,
    ensures
        r@ == mode_pattern(mode, criteria@),
{
    match mode {
        ReplaceMode::Regex => criteria.to_owned(),
        ReplaceMode::ExactWord => concat3("\\b", regex_escape(criteria).as_str(), "\\b"),
        _ => concat2("(?i)", regex_escape(criteria).as_str()),
    }
}

/// The new values of the selected columns' entries of every row, in row
/// order, each with its row's index.  A literal, case-sensitive search
/// replaces every occurrence; the other modes search with a regular
/// expression.  Without a replacement value, a matching value becomes
/// `null` and any other keeps its text.
pub fn replace_occurrences(previous_parse_result: &[ArrayEntries], search_replace_response: SearchReplaceResponse) -> (r: Vec<(FlatValue, usize)>)
    requires
        !pattern_fails(previous_parse_result@, search_replace_response),
    ensures
        replacement_views(r@) == replacements(
            previous_parse_result@,
            search_replace_response.replace_mode,
            search_replace_response.search_criteria@,
            text_of(search_replace_response.replace_value),
            selected_ids(search_replace_response.selected_column),
        ),
{
    let ghost rows = previous_parse_result@;
    let ghost mode = search_replace_response.replace_mode;
    let ghost criteria = search_replace_response.search_criteria@;
    let ghost replacement = text_of(search_replace_response.replace_value);
    let column_ids = column_ids(&search_replace_response.selected_column);
    let ghost ids = column_ids@;
    let mut compiled: Option<CompiledPattern> = None;
    let mut new_values: Vec<(FlatValue, usize)> = Vec::new();
    let mut i: usize = 0;
    proof {
        assert(replacement_views(new_values@) =~= seq![]);
        assert(rows.take(0) =~= seq![]);
    }
    while i < previous_parse_result.len()
        invariant
            i <= rows.len(),
            rows == previous_parse_result@,
            ids == selected_ids(search_replace_response.selected_column),
            ids == column_ids@,
            mode == search_replace_response.replace_mode,
            criteria == search_replace_response.search_criteria@,
            replacement == text_of(search_replace_response.replace_value),
            !pattern_fails(rows, search_replace_response),
            compiled matches Some(c) ==> c.source() == mode_pattern(mode, criteria),
            replacement_views(new_values@) == replacements(rows.take(i as int), mode, criteria, replacement, ids),
        decreases rows.len() - i,
    {
        let row = &previous_parse_result[i];
        let ghost before_row = new_values@;
        let mut k: usize = 0;
        proof {
            assert(row.entries@.take(0) =~= seq![]);
        }
        while k < row.entries.len()
            invariant
                i < rows.len(),
                row == &rows[i as int],
                k <= row.entries@.len(),
                rows == previous_parse_result@,
                ids == selected_ids(search_replace_response.selected_column),
                ids == column_ids@,
                mode == search_replace_response.replace_mode,
                criteria == search_replace_response.search_criteria@,
                replacement == text_of(search_replace_response.replace_value),
                !pattern_fails(rows, search_replace_response),
                compiled matches Some(c) ==> c.source() == mode_pattern(mode, criteria),
                replacement_views(new_values@) == replacement_views(before_row) + row_replacements(
                    row.entries@.take(k as int),
                    row.index,
                    mode,
                    criteria,
                    replacement,
                    ids,
                ),
            decreases row.entries@.len() - k,
        {
            let entry = &row.entries[k];
            let ghost before = new_values@;
            proof {
                assert(row.entries@.take(k + 1).drop_last() =~= row.entries@.take(k as int));
                assert(row.entries@.take(k + 1).last() == row.entries@[k as int]);
            }
            if contains_id(&column_ids, entry.pointer.column_id) {
                if let Some(value) = &entry.value {
                    let replaced_value: Option<String> = match search_replace_response.replace_mode {
                        ReplaceMode::MatchingCase => match &search_replace_response.replace_value {
                            Some(replace_value) => Some(
                                str_replace(value.as_str(), search_replace_response.search_criteria.as_str(), replace_value.as_str()),
                            ),
                            None => {
                                let criteria_text = search_replace_response.search_criteria.as_str();
                                if (criteria_text.is_empty() && value.as_str().is_empty()) || (!criteria_text.is_empty()
                                    && str_contains(value.as_str(), criteria_text)) {
                                    None
                                } else {
                                    Some(value.clone())
                                }
                            },
                        },
                        _ => {
                            if compiled.is_none() {
                                proof {
                                    assert(selected_entry(rows[i as int].entries@[k as int], ids));
                                }
                                let pattern = pattern_text(
                                    search_replace_response.replace_mode,
                                    search_replace_response.search_criteria.as_str(),
                                );
                                compiled = compile_pattern(pattern.as_str());
                            }
                            match &compiled {
                                Some(re) => replace_with_regex(&search_replace_response, value.as_str(), re),
                                None => None,
                            }
                        },
                    };
                    proof {
                        assert(text_of(replaced_value) == new_value(mode, criteria, replacement, value@));
                    }
                    new_values.push((FlatValue { pointer: clone_pointer(&entry.pointer), value: replaced_value }, row.index));
                    proof {
                        assert(replacement_views(new_values@) =~= replacement_views(before).push(
                            (fv(new_values@.last().0), row.index),
                        ));
                    }
                }
            }
            k += 1;
        }
        proof {
            assert(row.entries@.take(row.entries@.len() as int) =~= row.entries@);
            assert(rows.take(i + 1).drop_last() =~= rows.take(i as int));
            assert(rows.take(i + 1).last() == rows[i as int]);
        }
        i += 1;
    }
    proof {
        assert(rows.take(rows.len() as int) =~= rows);
    }
    new_values
}

/// `replace_occurrences`, or `None` when its pattern is needed and does not
/// compile.
pub fn try_replace_occurrences(previous_parse_result: &[ArrayEntries], search_replace_response: SearchReplaceResponse) -> (r: Option<Vec<(FlatValue, usize)>>)
    ensures
        r is None <==> pattern_fails(previous_parse_result@, search_replace_response),
        r matches Some(v) ==> replacement_views(v@) == replacements(
            previous_parse_result@,
            search_replace_response.replace_mode,
            search_replace_response.search_criteria@,
            text_of(search_replace_response.replace_value),
            selected_ids(search_replace_response.selected_column),
        ),
{
    if !pattern_works(previous_parse_result, &search_replace_response) {
        return None;
    }
    Some(replace_occurrences(previous_parse_result, search_replace_response))
}

/// Whether the request can be carried out: its pattern compiles, or no
/// pattern is needed (a case-sensitive literal search, or no selected value
/// to search).
pub fn pattern_works(previous_parse_result: &[ArrayEntries], search_replace_response: &SearchReplaceResponse) -> (r: bool)
    ensures
        r == !pattern_fails(previous_parse_result@, *search_replace_response),
{
    if search_replace_response.replace_mode != ReplaceMode::MatchingCase {
        let ids = column_ids(&search_replace_response.selected_column);
        let mut needed = false;
        let mut i: usize = 0;
        while i < previous_parse_result.len() && !needed
            invariant
                i <= previous_parse_result@.len(),
                ids@ == selected_ids(search_replace_response.selected_column),
                needed ==> has_selected(previous_parse_result@, ids@),
                !needed ==> forall|a: int, b: int|
                    0 <= a < i && 0 <= b < previous_parse_result@[a].entries@.len() ==> !#[trigger] selected_entry(
                        previous_parse_result@[a].entries@[b],
                        ids@,
                    ),
            decreases previous_parse_result@.len() - i,
        {
            let row = &previous_parse_result[i];
            let mut k: usize = 0;
            while k < row.entries.len() && !needed
                invariant
                    i < previous_parse_result@.len(),
                    row == &previous_parse_result@[i as int],
                    k <= row.entries@.len(),
                    ids@ == selected_ids(search_replace_response.selected_column),
                    needed ==> has_selected(previous_parse_result@, ids@),
                    !needed ==> forall|a: int, b: int|
                        0 <= a < i && 0 <= b < previous_parse_result@[a].entries@.len() ==> !#[trigger] selected_entry(
                            previous_parse_result@[a].entries@[b],
                            ids@,
                        ),
                    !needed ==> forall|b: int| 0 <= b < k ==> !#[trigger] selected_entry(row.entries@[b], ids@),
                decreases row.entries@.len() - k,
            {
                if contains_id(&ids, row.entries[k].pointer.column_id) && row.entries[k].value.is_some() {
                    proof {
                        assert(selected_entry(previous_parse_result@[i as int].entries@[k as int], ids@));
                    }
                    needed = true;
                }
                k += 1;
            }
            i += 1;
        }
        if needed {
            let pattern = pattern_text(search_replace_response.replace_mode, search_replace_response.search_criteria.as_str());
            if compile_pattern(pattern.as_str()).is_none() {
                return false;
            }
        } else {
            proof {
                assert(!has_selected(previous_parse_result@, ids@));
            }
        }
    }
    true
}

} // verus!
