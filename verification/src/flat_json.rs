//! Calls into the `json_flat_parser` crate: parsing a document, parsing a
//! row's objects further, turning a row's flattened values back into JSON
//! text, and flattening JSON text under a pointer prefix.  Values cross
//! over one for one, pointer, type, depth, position, column and text.
//!
//! The crate panics on some inputs.  Before each call the library checks,
//! with a verified function, a condition under which the call returns
//! (`serializer_safe`, `raw_texts_valid`, `flat_parse_safe`,
//! `document_safe`, `deepen_safe`).
use vstd::prelude::*;
use vstd::string::StringSliceAdditionalSpecFns;
use vstd::utf8::{decode_utf8, encode_utf8, valid_utf8};
use crate::rows::{DocumentView, FlatParse, FlatPointer, FlatValue, FlatValueView, doc_view, fvs, opt_text};
use crate::rows::FlatType as F;
use crate::model::is_prefix;
use crate::text::{all_digits, digits_value, parse_usize, str_starts_with, concat2};
use json_flat_parser::ValueType as J;
use json_flat_parser::PointerKey as Key;
use json_flat_parser::FlatJsonValue;
use json_flat_parser::ParseOptions as Options;
use json_flat_parser::JSONParser as FlatJsonParser;
use json_flat_parser::ParseResult as FlatResult;

verus! {

// ---------------------------------------------------------------------------
// When the crate's serializer returns
// ---------------------------------------------------------------------------

/// The number of `/` in a text.
pub open spec fn slash_count(p: Seq<char>) -> nat
    decreases p.len(),
{
    if p.len() == 0 {
        0
    } else {
        slash_count(p.drop_last()) + if p.last() == '/' {
            1nat
        } else {
            0nat
        }
    }
}

/// No two `/` follow each other.
pub open spec fn no_double_slash(p: Seq<char>) -> bool {
    forall|i: int| 0 <= i < p.len() - 1 ==> !(#[trigger] p[i] == '/' && p[i + 1] == '/')
}

/// A pointer of `d` non-empty segments, each after a `/`.
pub open spec fn pointer_ok(p: Seq<char>, d: nat) -> bool {
    &&& p.len() > 0
    &&& p[0] == '/'
    &&& p.last() != '/'
    &&& no_double_slash(p)
    &&& slash_count(p) == d
}

/// The pointer of a root whose members sit at depth `rd`.
pub open spec fn base_ok(base: Seq<char>, rd: u8) -> bool {
    if rd == 1 {
        base.len() == 0
    } else {
        pointer_ok(base, (rd - 1) as nat)
    }
}

pub open spec fn is_digit(c: char) -> bool {
    '0' <= c && c <= '9'
}

/// Where the segment starting at `i` ends: the next `/`, or the end.
pub open spec fn seg_end(p: Seq<char>, i: int) -> int
    decreases p.len() - i,
{
    if i < 0 || i >= p.len() {
        p.len() as int
    } else if p[i] == '/' {
        i
    } else {
        seg_end(p, i + 1)
    }
}

/// The first segment of `p` after the prefix `base` and a `/`.
pub open spec fn first_segment(p: Seq<char>, base: Seq<char>) -> Seq<char> {
    p.subrange(base.len() + 1int, seg_end(p, base.len() + 1int))
}

/// A decimal numeral without leading zeros.
pub open spec fn canonical_index(s: Seq<char>) -> bool {
    s.len() > 0 && all_digits(s) && (s.len() == 1 || s[0] != '0')
}

/// The number of entries at depth `d`.
pub open spec fn count_depth(es: Seq<FlatValueView>, d: u8) -> nat
    decreases es.len(),
{
    if es.len() == 0 {
        0
    } else {
        count_depth(es.drop_last(), d) + if es.last().depth == d {
            1nat
        } else {
            0nat
        }
    }
}

/// Some entry lies deeper than the root's members.
pub open spec fn has_deeper(es: Seq<FlatValueView>, rd: u8) -> bool {
    exists|k: int| 0 <= k < es.len() && (#[trigger] es[k]).depth > rd && es[k].pointer.len() > 0
}

/// An entry of empty pointer stands for a root that is an array.
pub open spec fn has_array_root(es: Seq<FlatValueView>) -> bool {
    exists|k: int| 0 <= k < es.len() && (#[trigger] es[k]).pointer.len() == 0 && es[k].value_type is Array
}

/// One entry, for `serializer_safe`.
pub open spec fn entry_safe(e: FlatValueView, base: Seq<char>, rd: u8, array_root: bool, roots: nat, roots_objects: bool, deeper: bool) -> bool {
    if e.pointer.len() == 0 {
        e.depth < rd
    } else if e.depth < rd {
        true
    } else if e.depth == rd && !deeper {
        &&& (rd == 1 ==> (e.pointer[0] as u32) < 128)
        &&& (e.value_type matches F::Object(false, _) ==> e.value is Some)
    } else {
        &&& pointer_ok(e.pointer, e.depth as nat)
        &&& is_prefix(base + seq!['/'], e.pointer)
        &&& (e.value_type matches F::Object(false, _) ==> e.value is Some)
        &&& (e.depth > rd ==> {
            let seg = first_segment(e.pointer, base);
            seg.len() > 0 && (!is_digit(seg[0]) || (array_root && roots_objects && canonical_index(seg)
                && digits_value(seg) < roots))
        })
    }
}

/// Every entry at depth `d` is an object whose members are entries.
pub open spec fn all_objects_at(es: Seq<FlatValueView>, d: u8) -> bool {
    forall|k: int| 0 <= k < es.len() && (#[trigger] es[k]).depth == d ==> es[k].value_type matches F::Object(true, _)
}

/// A value written before a deeper one on its path is an object whose
/// members are entries.
pub open spec fn ancestors_ok(es: Seq<FlatValueView>, rd: u8) -> bool {
    forall|k: int, m: int|
        0 <= k < es.len() && 0 <= m < es.len() && es[k].depth >= rd && es[m].depth >= rd
            && es[m].pointer.len() > 0 && is_prefix(#[trigger] es[m].pointer + seq!['/'], #[trigger] es[k].pointer)
            ==> es[m].value_type matches F::Object(true, _)
}

/// Entries on which `serializer::serialize_to_json_with_option` returns, for
/// a root of pointer `base` whose members sit at depth `rd`: an object kept
/// as text has its text; a member of a root at depth 1 has a pointer that
/// starts with an ASCII character; and where some entry lies deeper, every
/// entry at depth `rd` or deeper has a well-formed pointer under `base`,
/// every value on the path of a deeper one is an object of entries, and a
/// deeper entry under a root array names an element of it.  (The crate
/// panics where a path runs into something else.)
pub open spec fn serializer_safe(es: Seq<FlatValueView>, base: Seq<char>, rd: u8) -> bool {
    &&& rd >= 1
    &&& has_deeper(es, rd) ==> base_ok(base, rd)
    &&& forall|k: int| 0 <= k < es.len() ==> entry_safe(
        #[trigger] es[k],
        base,
        rd,
        has_array_root(es),
        count_depth(es, rd),
        all_objects_at(es, rd),
        has_deeper(es, rd),
    )
    &&& has_deeper(es, rd) ==> ancestors_ok(es, rd)
}

/// The entry that tells the serializer the root is an array of `n` elements.
pub open spec fn array_marker(n: nat) -> FlatValueView {
    FlatValueView { pointer: seq![], value_type: F::Array(n as usize), depth: 0, position: 0, column_id: 0, value: None }
}

/// What `serde_json::value::RawValue::from_string` accepts: one JSON value,
/// possibly surrounded by whitespace.
pub uninterp spec fn raw_json_valid(text: Seq<char>) -> bool;

/// Calls `RawValue::from_string` on a copy of the text.  Claimed: it
/// succeeds exactly on `raw_json_valid` texts.
#[verifier::external_body]
fn raw_json_ok(text: &str) -> (r: bool)
    ensures
        r == raw_json_valid(text@),
{
    serde_json::value::RawValue::from_string(text.to_string()).is_ok()
}

/// Every array, and every object not parsed into entries, kept as text at
/// depth `rd` or deeper is valid JSON: serializing it with serde then
/// succeeds (the crate unwraps `RawValue::from_string` on those texts).
pub open spec fn raw_texts_valid(es: Seq<FlatValueView>, rd: u8) -> bool {
    forall|k: int|
        0 <= k < es.len() && (#[trigger] es[k]).depth >= rd && (es[k].value_type is Array || es[k].value_type matches F::Object(
            false,
            _,
        )) && es[k].value is Some ==> raw_json_valid(es[k].value.unwrap())
}

fn pointer_check(p: &str, d: u8) -> (r: bool)
    ensures
        r == pointer_ok(p@, d as nat),
{
    let n = p.unicode_len();
    if n == 0 {
        return false;
    }
    if p.get_char(0) != '/' || p.get_char(n - 1) == '/' {
        return false;
    }
    let mut i: usize = 0;
    let mut count: usize = 0;
    let mut ok = true;
    while i < n
        invariant
            i <= n,
            n == p@.len(),
            count as nat == slash_count(p@.take(i as int)),
            count <= i,
            ok == (forall|j: int| 0 <= j < i - 1 ==> !(#[trigger] p@[j] == '/' && p@[j + 1] == '/')),
        decreases n - i,
    {
        let c = p.get_char(i);
        let ghost ok0 = ok;
        if c == '/' {
            if i > 0 && p.get_char(i - 1) == '/' {
                ok = false;
            }
            count += 1;
        }
        proof {
            assert(p@.take(i + 1int).drop_last() =~= p@.take(i as int));
            if !ok && ok0 {
                assert(p@[i - 1] == '/' && p@[i - 1 + 1] == '/');
            }
        }
        i += 1;
    }
    proof {
        assert(p@.take(n as int) =~= p@);
    }
    ok && count == d as usize
}

fn first_segment_end(p: &str, start: usize) -> (r: usize)
    requires
        start <= p@.len(),
    ensures
        r == seg_end(p@, start as int),
        start <= r <= p@.len(),
{
    let n = p.unicode_len();
    let mut i = start;
    while i < n && p.get_char(i) != '/'
        invariant
            start <= i <= n,
            n == p@.len(),
            seg_end(p@, i as int) == seg_end(p@, start as int),
        decreases n - i,
    {
        i += 1;
    }
    i
}

fn count_depth_of(es: &Vec<FlatValue>, d: u8) -> (r: usize)
    ensures
        r as nat == count_depth(fvs(es@), d),
{
    let mut i: usize = 0;
    let mut c: usize = 0;
    while i < es.len()
        invariant
            i <= es@.len(),
            c <= i,
            c as nat == count_depth(fvs(es@).take(i as int), d),
        decreases es@.len() - i,
    {
        proof {
            assert(fvs(es@).take(i + 1int).drop_last() =~= fvs(es@).take(i as int));
        }
        if es[i].pointer.depth == d {
            c += 1;
        }
        i += 1;
    }
    proof {
        assert(fvs(es@).take(es@.len() as int) =~= fvs(es@));
    }
    c
}

fn deeper_check(es: &Vec<FlatValue>, rd: u8) -> (r: bool)
    ensures
        r == has_deeper(fvs(es@), rd),
{
    let mut i: usize = 0;
    while i < es.len()
        invariant
            i <= es@.len(),
            forall|k: int| 0 <= k < i ==> !((#[trigger] fvs(es@)[k]).depth > rd && fvs(es@)[k].pointer.len() > 0),
        decreases es@.len() - i,
    {
        if es[i].pointer.depth > rd && es[i].pointer.pointer.unicode_len() > 0 {
            proof {
                assert(fvs(es@)[i as int].depth > rd);
            }
            return true;
        }
        i += 1;
    }
    false
}

fn all_objects_check(es: &Vec<FlatValue>, d: u8) -> (r: bool)
    ensures
        r == all_objects_at(fvs(es@), d),
{
    let mut i: usize = 0;
    while i < es.len()
        invariant
            i <= es@.len(),
            forall|k: int| 0 <= k < i && (#[trigger] fvs(es@)[k]).depth == d ==> fvs(es@)[k].value_type matches F::Object(true, _),
        decreases es@.len() - i,
    {
        if es[i].pointer.depth == d {
            match es[i].pointer.value_type {
                F::Object(true, _) => {},
                _ => {
                    proof {
                        assert(fvs(es@)[i as int].depth == d);
                    }
                    return false;
                },
            }
        }
        i += 1;
    }
    true
}

fn array_root_of(es: &Vec<FlatValue>) -> (r: bool)
    ensures
        r == has_array_root(fvs(es@)),
{
    let mut i: usize = 0;
    while i < es.len()
        invariant
            i <= es@.len(),
            forall|k: int| 0 <= k < i ==> !((#[trigger] fvs(es@)[k]).pointer.len() == 0 && fvs(es@)[k].value_type is Array),
        decreases es@.len() - i,
    {
        let is_array = match es[i].pointer.value_type {
            F::Array(_) => true,
            _ => false,
        };
        if es[i].pointer.pointer.unicode_len() == 0 && is_array {
            proof {
                assert(fvs(es@)[i as int].pointer.len() == 0);
            }
            return true;
        }
        i += 1;
    }
    false
}

proof fn lemma_digits_value_nonneg(s: Seq<char>)
    requires
        all_digits(s),
    ensures
        digits_value(s) >= 0,
    decreases s.len(),
{
    if s.len() > 0 {
        assert(all_digits(s.drop_last())) by {
            assert forall|i: int| 0 <= i < s.drop_last().len() implies '0' <= #[trigger] s.drop_last()[i] <= '9' by {
                assert(s.drop_last()[i] == s[i]);
            }
        }
        lemma_digits_value_nonneg(s.drop_last());
        assert('0' <= s[s.len() - 1]);
    }
}

fn all_digits_check(s: &str) -> (r: bool)
    ensures
        r == all_digits(s@),
{
    let n = s.unicode_len();
    let mut k: usize = 0;
    while k < n
        invariant
            k <= n,
            n == s@.len(),
            forall|j: int| 0 <= j < k ==> '0' <= #[trigger] s@[j] <= '9',
        decreases n - k,
    {
        let ch = s.get_char(k);
        if !('0' <= ch && ch <= '9') {
            return false;
        }
        k += 1;
    }
    true
}

fn entry_check(e: &FlatValue, base: &str, base_slash: &str, rd: u8, array_root: bool, roots: usize, roots_objects: bool, deeper: bool) -> (r: bool)
    requires
        base_slash@ == base@ + seq!['/'],
    ensures
        r == entry_safe(crate::rows::fv(*e), base@, rd, array_root, roots as nat, roots_objects, deeper),
{
    let p = e.pointer.pointer.as_str();
    let d = e.pointer.depth;
    if p.unicode_len() == 0 {
        return d < rd;
    }
    if d < rd {
        return true;
    }
    if d == rd && !deeper {
        if rd == 1 && (p.get_char(0) as u32) >= 128 {
            return false;
        }
        return match (&e.pointer.value_type, &e.value) {
            (F::Object(false, _), None) => false,
            _ => true,
        };
    }
    if !pointer_check(p, d) || !str_starts_with(p, base_slash) {
        return false;
    }
    match (&e.pointer.value_type, &e.value) {
        (F::Object(false, _), None) => {
            return false;
        },
        _ => {},
    }
    if d > rd {
        let start = base.unicode_len() + 1;
        let end = first_segment_end(p, start);
        if end == start {
            return false;
        }
        let c = p.get_char(start);
        if '0' <= c && c <= '9' {
            if !array_root || !roots_objects {
                return false;
            }
            let seg = p.substring_char(start, end);
            proof {
                assert(seg@ =~= first_segment(p@, base@));
            }
            let n = end - start;
            if !all_digits_check(seg) {
                return false;
            }
            if n > 1 && c == '0' {
                return false;
            }
            match parse_usize(seg) {
                Some(v) => {
                    proof {
                        assert(seg@[0] != '+');
                        lemma_digits_value_nonneg(seg@);
                        assert(v as int == digits_value(seg@));
                    }
                    return v < roots;
                },
                None => {
                    proof {
                        assert(all_digits(seg@));
                        assert(seg@[0] != '+');
                    }
                    return false;
                },
            }
        }
    }
    true
}

/// Tells whether `serializer_safe` holds.
pub fn serializer_safe_check(es: &Vec<FlatValue>, base: &str, rd: u8) -> (r: bool)
    ensures
        r == serializer_safe(fvs(es@), base@, rd),
{
    let ghost s = fvs(es@);
    if rd < 1 {
        return false;
    }
    let deeper = deeper_check(es, rd);
    let base_good = if rd == 1 {
        base.unicode_len() == 0
    } else {
        pointer_check(base, rd - 1)
    };
    if deeper && !base_good {
        return false;
    }
    let base_slash = concat2(base, "/");
    proof {
        reveal_strlit("/");
        assert(base_slash@ =~= base@ + seq!['/']);
    }
    let array_root = array_root_of(es);
    let roots = count_depth_of(es, rd);
    let roots_objects = all_objects_check(es, rd);
    let mut i: usize = 0;
    while i < es.len()
        invariant
            i <= es@.len(),
            s == fvs(es@),
            rd >= 1,
            deeper == has_deeper(s, rd),
            deeper ==> base_ok(base@, rd),
            base_slash@ == base@ + seq!['/'],
            array_root == has_array_root(s),
            roots as nat == count_depth(s, rd),
            roots_objects == all_objects_at(s, rd),
            forall|k: int| 0 <= k < i ==> entry_safe(#[trigger] s[k], base@, rd, array_root, roots as nat, roots_objects, deeper),
        decreases es@.len() - i,
    {
        if !entry_check(&es[i], base, base_slash.as_str(), rd, array_root, roots, roots_objects, deeper) {
            proof {
                assert(s[i as int] == crate::rows::fv(es@[i as int]));
                assert(!entry_safe(s[i as int], base@, rd, array_root, roots as nat, roots_objects, deeper));
            }
            return false;
        }
        i += 1;
    }
    if !deeper {
        assert(forall|k: int| 0 <= k < s.len() ==> entry_safe(#[trigger] s[k], base@, rd, array_root, roots as nat, roots_objects, deeper));
        return true;
    }
    let mut k: usize = 0;
    while k < es.len()
        invariant
            k <= es@.len(),
            s == fvs(es@),
            rd >= 1,
            deeper,
            deeper == has_deeper(s, rd),
            deeper ==> base_ok(base@, rd),
            array_root == has_array_root(s),
            roots as nat == count_depth(s, rd),
            roots_objects == all_objects_at(s, rd),
            forall|j: int| 0 <= j < s.len() ==> entry_safe(#[trigger] s[j], base@, rd, array_root, roots as nat, roots_objects, deeper),
            forall|a: int, m: int|
                0 <= a < k && 0 <= m < s.len() && s[a].depth >= rd && s[m].depth >= rd && s[m].pointer.len() > 0
                    && is_prefix(#[trigger] s[m].pointer + seq!['/'], #[trigger] s[a].pointer)
                    ==> s[m].value_type matches F::Object(true, _),
        decreases es@.len() - k,
    {
        let mut m: usize = 0;
        while m < es.len()
            invariant
                k < es@.len(),
                m <= es@.len(),
                s == fvs(es@),
                deeper,
                deeper == has_deeper(s, rd),
                forall|a: int, j: int|
                    0 <= a < k && 0 <= j < s.len() && s[a].depth >= rd && s[j].depth >= rd && s[j].pointer.len() > 0
                        && is_prefix(#[trigger] s[j].pointer + seq!['/'], #[trigger] s[a].pointer)
                        ==> s[j].value_type matches F::Object(true, _),
                forall|j: int|
                    0 <= j < m && s[k as int].depth >= rd && s[j].depth >= rd && s[j].pointer.len() > 0
                        && is_prefix(#[trigger] s[j].pointer + seq!['/'], s[k as int].pointer)
                        ==> s[j].value_type matches F::Object(true, _),
            decreases es@.len() - m,
        {
            if es[k].pointer.depth >= rd && es[m].pointer.depth >= rd && es[m].pointer.pointer.unicode_len() > 0 {
                let mp = concat2(es[m].pointer.pointer.as_str(), "/");
                proof {
                    reveal_strlit("/");
                    assert(mp@ =~= s[m as int].pointer + seq!['/']);
                }
                if str_starts_with(es[k].pointer.pointer.as_str(), mp.as_str()) {
                    match es[m].pointer.value_type {
                        F::Object(true, _) => {},
                        _ => {
                            return false;
                        },
                    }
                }
            }
            m += 1;
        }
        k += 1;
    }
    true
}

/// Tells whether `raw_texts_valid` holds.
pub fn raw_texts_check(es: &Vec<FlatValue>, rd: u8) -> (r: bool)
    ensures
        r == raw_texts_valid(fvs(es@), rd),
{
    let ghost s = fvs(es@);
    let mut i: usize = 0;
    while i < es.len()
        invariant
            i <= es@.len(),
            s == fvs(es@),
            forall|k: int|
                0 <= k < i && (#[trigger] s[k]).depth >= rd && (s[k].value_type is Array || s[k].value_type matches F::Object(
                    false,
                    _,
                )) && s[k].value is Some ==> raw_json_valid(s[k].value.unwrap()),
        decreases es@.len() - i,
    {
        let kept = match es[i].pointer.value_type {
            F::Array(_) => true,
            F::Object(false, _) => true,
            _ => false,
        };
        if kept && es[i].pointer.depth >= rd {
            match &es[i].value {
                Some(v) => {
                    if !raw_json_ok(v.as_str()) {
                        proof {
                            assert(s[i as int].value.unwrap() == v@);
                            assert(s[i as int].depth >= rd);
                        }
                        return false;
                    }
                },
                None => {},
            }
        }
        i += 1;
    }
    true
}

// ---------------------------------------------------------------------------
// When the crate's parser returns
// ---------------------------------------------------------------------------

/// Where the scan behind `flat_parse_safe` stands: inside a string or not;
/// in a string, the backslashes just read and the braces and brackets
/// still open in it; outside strings, the containers open (`true` for an
/// object).
pub struct LexScan {
    pub in_str: bool,
    pub bs: nat,
    pub curly: nat,
    pub square: nat,
    pub stack: Seq<bool>,
}

pub open spec fn lex_start() -> LexScan {
    LexScan { in_str: false, bs: 0, curly: 0, square: 0, stack: seq![] }
}

/// One byte of the scan; `None` where the text is refused.
pub open spec fn lex_step(c: u8, s: LexScan, limit: nat) -> Option<LexScan> {
    if s.in_str {
        if c == 0x22u8 {
            if s.bs == 0 {
                if s.curly == 0 && s.square == 0 {
                    Some(LexScan { in_str: false, ..s })
                } else {
                    None
                }
            } else if s.bs % 2 == 0 {
                None
            } else {
                Some(LexScan { bs: 0, ..s })
            }
        } else if c == 0x5cu8 {
            Some(LexScan { bs: s.bs + 1, ..s })
        } else if c == 0x7bu8 {
            Some(LexScan { bs: 0, curly: s.curly + 1, ..s })
        } else if c == 0x7du8 {
            if s.curly > 0 {
                Some(LexScan { bs: 0, curly: (s.curly - 1) as nat, ..s })
            } else {
                None
            }
        } else if c == 0x5bu8 {
            Some(LexScan { bs: 0, square: s.square + 1, ..s })
        } else if c == 0x5du8 {
            if s.square > 0 {
                Some(LexScan { bs: 0, square: (s.square - 1) as nat, ..s })
            } else {
                None
            }
        } else {
            Some(LexScan { bs: 0, ..s })
        }
    } else if c == 0x22u8 {
        Some(LexScan { in_str: true, bs: 0, curly: 0, square: 0, ..s })
    } else if c == 0x45u8 {
        None
    } else if c == 0x7bu8 || c == 0x5bu8 {
        if s.stack.len() + 1 <= limit {
            Some(LexScan { stack: s.stack.push(c == 0x7bu8), ..s })
        } else {
            None
        }
    } else if c == 0x7du8 || c == 0x5du8 {
        if s.stack.len() > 0 && s.stack.last() == (c == 0x7du8) {
            Some(LexScan { stack: s.stack.drop_last(), ..s })
        } else {
            None
        }
    } else {
        Some(s)
    }
}

/// The scan from byte `i` on: every byte accepted, and at the end no string
/// and no container left open.
pub open spec fn lex_scan(b: Seq<u8>, i: int, s: LexScan, limit: nat) -> bool
    decreases b.len() - i,
{
    if i < 0 || i >= b.len() {
        !s.in_str && s.stack.len() == 0
    } else {
        match lex_step(b[i], s, limit) {
            Some(s2) => lex_scan(b, i + 1, s2, limit),
            None => false,
        }
    }
}

/// Text on which `JSONParser::parse` returns, starting at depth `sd`, read
/// as the crate's lexer reads it (a string ends at a quote with no
/// backslash just before it):
/// - no string ends at a quote after an even run of backslashes (the lexer
///   takes such a quote for an escaped one, where JSON ends the string);
/// - in each string, braces and brackets, each kind on its own, never close
///   more than they opened and end balanced (the crate counts them, inside
///   strings too, when it copies an object or array as text);
/// - outside strings, every `}` and `]` closes the last open container of
///   its kind, all are closed at the end, and they nest few enough that no
///   depth passes 255 (the crate adds one to a `u8` depth per level);
/// - no `E` outside strings (the lexer reads no `E` in a number).
pub open spec fn flat_parse_safe(b: Seq<u8>, sd: u8) -> bool {
    sd <= 254 && lex_scan(b, 0, lex_start(), (254 - sd) as nat)
}

/// Tells whether `flat_parse_safe` holds of the bytes.
pub fn flat_parse_scan(b: &[u8], sd: u8) -> (r: bool)
    ensures
        r == flat_parse_safe(b@, sd),
{
    if sd > 254 {
        return false;
    }
    let ghost bytes = b@;
    let limit: usize = 254 - sd as usize;
    let mut i: usize = 0;
    let mut in_str = false;
    let mut bs: usize = 0;
    let mut curly: usize = 0;
    let mut square: usize = 0;
    let mut stack: Vec<bool> = Vec::new();
    while i < b.len()
        invariant
            bytes == b@,
            i <= bytes.len(),
            bs <= i,
            curly <= i,
            square <= i,
            stack@.len() <= limit,
            limit == 254 - sd,
            lex_scan(bytes, i as int, LexScan { in_str, bs: bs as nat, curly: curly as nat, square: square as nat, stack: stack@ }, limit as nat)
                == lex_scan(bytes, 0, lex_start(), limit as nat),
        decreases bytes.len() - i,
    {
        let c = b[i];
        if in_str {
            if c == 0x22u8 {
                if bs == 0 {
                    if curly != 0 || square != 0 {
                        return false;
                    }
                    in_str = false;
                } else if bs % 2 == 0 {
                    return false;
                } else {
                    bs = 0;
                }
            } else if c == 0x5cu8 {
                bs += 1;
            } else if c == 0x7bu8 {
                bs = 0;
                curly += 1;
            } else if c == 0x7du8 {
                if curly == 0 {
                    return false;
                }
                bs = 0;
                curly -= 1;
            } else if c == 0x5bu8 {
                bs = 0;
                square += 1;
            } else if c == 0x5du8 {
                if square == 0 {
                    return false;
                }
                bs = 0;
                square -= 1;
            } else {
                bs = 0;
            }
        } else if c == 0x22u8 {
            in_str = true;
            bs = 0;
            curly = 0;
            square = 0;
        } else if c == 0x45u8 {
            return false;
        } else if c == 0x7bu8 || c == 0x5bu8 {
            if stack.len() + 1 > limit {
                return false;
            }
            stack.push(c == 0x7bu8);
        } else if c == 0x7du8 || c == 0x5du8 {
            let n = stack.len();
            if n == 0 || stack[n - 1] != (c == 0x7du8) {
                return false;
            }
            let ghost before = stack@;
            stack.pop();
            proof {
                assert(stack@ =~= before.drop_last());
            }
        }
        i += 1;
    }
    !in_str && stack.len() == 0
}

/// Tells whether the crate's parser returns on the text from depth `sd`,
/// objects parsed down to `max_depth` (see `parse_flat`).
pub fn parse_flat_check(text: &str, sd: u8, max_depth: u8) -> (r: bool)
    ensures
        r == (flat_parse_safe(text.spec_bytes(), sd) && (max_depth >= sd || raw_json_valid(text@))),
{
    flat_parse_scan(text.as_bytes(), sd) && (max_depth >= sd || raw_json_ok(text))
}

/// A pointer of one segment: `/` and a name without `/`.
pub open spec fn one_segment(p: Seq<char>) -> bool {
    p.len() >= 2 && p[0] == '/' && forall|i: int| 1 <= i < p.len() ==> #[trigger] p[i] != '/'
}

/// A document on which `JSONParser::parse_bytes` returns, parsing from
/// depth 1: valid UTF-8 (the crate gives up on a copy that is not, and
/// panics), `flat_parse_safe`; objects parsed to depth 1 at least, else
/// valid JSON (`raw_json_valid`: on a syntax error the crate reports the
/// last value kept, and panics when none was kept); and, when the parse
/// starts at a pointer, a member of the root, parsed to depth 1 at least,
/// in a valid JSON document (from a deeper pointer the crate subtracts a
/// depth from a smaller one once it leaves the array, and values before
/// the pointer are not kept).
pub open spec fn document_safe(json: Seq<u8>, max_depth: u8, start_at: Option<Seq<char>>) -> bool {
    &&& flat_parse_safe(json, 1)
    &&& valid_utf8(json)
    &&& max_depth >= 1 || raw_json_valid(decode_utf8(json))
    &&& start_at matches Some(p) ==> one_segment(p) && max_depth >= 1 && raw_json_valid(decode_utf8(json))
}

/// Tells whether `document_safe` holds.
pub fn document_check(json: &[u8], max_depth: u8, start_at: &Option<String>) -> (r: bool)
    ensures
        r == document_safe(json@, max_depth, match start_at {
            Some(s) => Some(s@),
            None => None,
        }),
{
    if !flat_parse_scan(json, 1) {
        return false;
    }
    let text = match crate::lexer::utf8_str(json) {
        Some(t) => t,
        None => {
            return false;
        },
    };
    match start_at {
        None => max_depth >= 1 || raw_json_ok(text),
        Some(p) => max_depth >= 1 && one_segment_check(p.as_str()) && raw_json_ok(text),
    }
}

fn one_segment_check(p: &str) -> (r: bool)
    ensures
        r == one_segment(p@),
{
    let n = p.unicode_len();
    if n < 2 || p.get_char(0) != '/' {
        return false;
    }
    let mut i: usize = 1;
    while i < n
        invariant
            1 <= i <= n,
            n == p@.len(),
            forall|j: int| 1 <= j < i ==> #[trigger] p@[j] != '/',
        decreases n - i,
    {
        if p.get_char(i) == '/' {
            return false;
        }
        i += 1;
    }
    true
}

// ---------------------------------------------------------------------------
// The calls
// ---------------------------------------------------------------------------

/// What `serializer::serialize_to_json_with_option` and then
/// `serde_json::to_string_pretty` give for these entries, entries of depth
/// `root_depth` being the root's members.
pub uninterp spec fn row_pretty_text(entries: Seq<FlatValueView>, root_depth: u8) -> Seq<char>;

/// What `serializer::serialize_to_json_with_option` and then the value's
/// `to_json` give for these entries, entries of depth `root_depth` being the
/// root's members.
pub uninterp spec fn row_compact_text(entries: Seq<FlatValueView>, root_depth: u8) -> Seq<char>;

/// Calls `serializer::serialize_to_json_with_option` on copies of the
/// entries, then `serde_json::to_string_pretty` on the value.  Claimed: the
/// text is `row_pretty_text` of the entries; the calls return on entries
/// that are `serializer_safe` and `raw_texts_valid` (serialization then
/// cannot fail, so the `unwrap` does not panic).
#[verifier::external_body]
pub(crate) fn row_pretty_json(entries: &Vec<FlatValue>, root_depth: u8) -> (r: String)
    requires
        exists|base: Seq<char>| serializer_safe(fvs(entries@), base, root_depth),
        raw_texts_valid(fvs(entries@), root_depth),
    ensures
        r@ == row_pretty_text(fvs(entries@), root_depth),
{
    let mut data: Vec<_> = entries.iter().map(|e| {
        let t = match e.pointer.value_type { F::Array(n) => J::Array(n), F::Object(b, n) => J::Object(b, n), F::Number => J::Number, F::String => J::String, F::Bool => J::Bool, F::Null => J::Null, F::Unset => J::None };
        let p = &e.pointer;
        FlatJsonValue { pointer: Key { pointer: p.pointer.clone(), value_type: t, depth: p.depth, position: p.position, column_id: p.column_id }, value: e.value.clone() }
    }).collect();
    serde_json::to_string_pretty(&json_flat_parser::serializer::serialize_to_json_with_option(&mut data, root_depth)).unwrap()
}

/// Calls `serializer::serialize_to_json_with_option` on copies of the
/// entries, then `Value::to_json`, which writes the value as JSON text,
/// members indented by two spaces.  Claimed: the text is
/// `row_compact_text` of the entries; the calls return on entries that are
/// `serializer_safe`.
#[verifier::external_body]
pub(crate) fn row_json_text(entries: &Vec<FlatValue>, root_depth: u8) -> (r: String)
    requires
        exists|base: Seq<char>| serializer_safe(fvs(entries@), base, root_depth),
    ensures
        r@ == row_compact_text(fvs(entries@), root_depth),
{
    let mut data: Vec<_> = entries.iter().map(|e| {
        let t = match e.pointer.value_type { F::Array(n) => J::Array(n), F::Object(b, n) => J::Object(b, n), F::Number => J::Number, F::String => J::String, F::Bool => J::Bool, F::Null => J::Null, F::Unset => J::None };
        let p = &e.pointer;
        FlatJsonValue { pointer: Key { pointer: p.pointer.clone(), value_type: t, depth: p.depth, position: p.position, column_id: p.column_id }, value: e.value.clone() }
    }).collect();
    json_flat_parser::serializer::serialize_to_json_with_option(&mut data, root_depth).to_json()
}

/// What `JSONParser::parse` gives for `text` with these options: no array
/// parsed into rows, pointers under `prefix`, depths from `start_depth`,
/// objects parsed down to `max_depth`; `None` when it reports an error.
pub uninterp spec fn flat_parse(text: Seq<char>, prefix: Seq<char>, start_depth: u8, max_depth: u8) -> Option<Seq<FlatValueView>>;

pub open spec fn flat_views(v: Seq<FlatValue>) -> Seq<FlatValueView> {
    v.map_values(|e: FlatValue| crate::rows::fv(e))
}

/// Calls `JSONParser::parse` with those options, and takes the flattened
/// values.  Claimed: the values are `flat_parse` of the arguments; the call
/// returns on `flat_parse_safe` text whose first members are kept (objects
/// parsed down to `start_depth` at least) or that is valid JSON (on a
/// syntax error the crate reports the last value kept, and panics when none
/// was kept).
#[verifier::external_body]
pub(crate) fn parse_flat(text: &str, prefix: &str, start_depth: u8, max_depth: u8) -> (r: Option<Vec<FlatValue>>)
    requires
        flat_parse_safe(text.spec_bytes(), start_depth),
        max_depth >= start_depth || raw_json_valid(text@),
    ensures
        r is None <==> flat_parse(text@, prefix@, start_depth, max_depth) is None,
        r matches Some(v) ==> flat_parse(text@, prefix@, start_depth, max_depth) == Some(flat_views(v@)),
{
    FlatJsonParser::parse(text, Options { parse_array: false, max_depth, start_depth, prefix: Some(prefix.into()), ..Default::default() }).ok().map(|r| r.to_owned().json.into_iter().map(|e| {
        let t = match e.pointer.value_type { J::Array(n) => F::Array(n), J::Object(b, n) => F::Object(b, n), J::Number => F::Number, J::String => F::String, J::Bool => F::Bool, J::Null => F::Null, J::None => F::Unset };
        let Key { pointer, depth, position, column_id, .. } = e.pointer;
        FlatValue { pointer: FlatPointer { pointer, value_type: t, depth, position, column_id }, value: e.value }
    }).collect())
}

/// The first byte that is not whitespace opens an object.
pub open spec fn opens_object(b: Seq<u8>) -> bool {
    let p = crate::lexer::skip_ws(b, 0);
    0 <= p < b.len() && b[p] == 0x7bu8
}

/// One value of a row, for `deepen_safe`: a container's depth leaves room
/// for one more, and an object kept as text that is parsed again lies at or
/// below the depth the parse started under, and is a JSON object the
/// crate's parser returns on, from the depth below it.
pub open spec fn deepen_entry_safe(e: FlatValueView, da: u8, previous: u8, depth: u8) -> bool {
    &&& (e.value_type is Array || e.value_type is Object) ==> e.depth < 255
    &&& (e.value_type matches F::Object(false, _) && previous < depth) ==> {
        &&& e.depth >= da
        &&& (e.depth - da <= previous && e.value is Some) ==> {
            let v = e.value.unwrap();
            &&& flat_parse_safe(encode_utf8(v), (e.depth + 1) as u8)
            &&& raw_json_valid(v)
            &&& opens_object(encode_utf8(v))
        }
    }
}

/// The values of a row on which `JSONParser::change_depth_owned` returns,
/// going from depth `previous` to `depth` under a parse that started at
/// depth `da`.
pub open spec fn deepen_safe(es: Seq<FlatValueView>, da: u8, previous: u8, depth: u8) -> bool {
    forall|k: int| 0 <= k < es.len() ==> deepen_entry_safe(#[trigger] es[k], da, previous, depth)
}

fn opens_object_check(b: &[u8]) -> (r: bool)
    ensures
        r == opens_object(b@),
{
    let mut p: usize = 0;
    while p < b.len() && crate::lexer::byte_is_ws(b[p])
        invariant
            p <= b@.len(),
            crate::lexer::skip_ws(b@, p as int) == crate::lexer::skip_ws(b@, 0),
        decreases b@.len() - p,
    {
        p += 1;
    }
    p < b.len() && b[p] == 0x7bu8
}

fn deepen_entry_check(e: &FlatValue, da: u8, previous: u8, depth: u8) -> (r: bool)
    ensures
        r == deepen_entry_safe(crate::rows::fv(*e), da, previous, depth),
{
    let container = match e.pointer.value_type {
        F::Array(_) => true,
        F::Object(_, _) => true,
        _ => false,
    };
    if container && e.pointer.depth >= 255 {
        return false;
    }
    let unparsed = match e.pointer.value_type {
        F::Object(false, _) => true,
        _ => false,
    };
    if !unparsed || previous >= depth {
        return true;
    }
    if e.pointer.depth < da {
        return false;
    }
    if e.pointer.depth - da > previous {
        return true;
    }
    match &e.value {
        None => true,
        Some(v) => {
            let b = v.as_str().as_bytes();
            flat_parse_scan(b, e.pointer.depth + 1) && raw_json_ok(v.as_str()) && opens_object_check(b)
        },
    }
}

/// Tells whether `deepen_safe` holds.
pub fn deepen_check(es: &Vec<FlatValue>, da: u8, previous: u8, depth: u8) -> (r: bool)
    ensures
        r == deepen_safe(fvs(es@), da, previous, depth),
{
    let mut i: usize = 0;
    while i < es.len()
        invariant
            i <= es@.len(),
            forall|k: int| 0 <= k < i ==> deepen_entry_safe(#[trigger] fvs(es@)[k], da, previous, depth),
        decreases es@.len() - i,
    {
        if !deepen_entry_check(&es[i], da, previous, depth) {
            proof {
                assert(fvs(es@)[i as int] == crate::rows::fv(es@[i as int]));
            }
            return false;
        }
        i += 1;
    }
    true
}

/// What `JSONParser::parse_bytes` gives for a document with no array
/// parsed into rows, objects parsed down to `max_depth`, from depth 1, and
/// the parse starting at `start_at` when there is one: the parse, or the
/// error it reports.
pub uninterp spec fn flat_document(json: Seq<u8>, max_depth: u8, start_at: Option<Seq<char>>) -> Result<DocumentView, Seq<char>>;

/// A parse of the crate, held as it is.  (Verus cannot take the crate's
/// `ParseResult` as a declared type: its parameter is bound by traits Verus
/// does not know.)
#[verifier::external_body]
pub struct CrateParse {
    inner: FlatResult<String>,
}

/// What a parse of the crate holds, as values: its flattened values, one
/// for one, and its settings and findings.
pub uninterp spec fn parse_result_view(r: CrateParse) -> DocumentView;

/// Calls `JSONParser::parse_bytes` with those options.  Claimed: the parse,
/// or the error text, is `flat_document` of the arguments; the call returns
/// on `document_safe` documents.
#[verifier::external_body]
fn parse_bytes(json: &[u8], max_depth: u8, start_at: Option<String>) -> (r: Result<CrateParse, String>)
    requires
        document_safe(json@, max_depth, opt_text(start_at)),
    ensures
        match r {
            Ok(p) => flat_document(json@, max_depth, opt_text(start_at)) == Ok::<DocumentView, Seq<char>>(parse_result_view(p)),
            Err(e) => flat_document(json@, max_depth, opt_text(start_at)) == Err::<DocumentView, Seq<char>>(e@),
        },
{
    FlatJsonParser::parse_bytes(json, Options { parse_array: false, max_depth, start_parse_at: start_at, ..Default::default() }).map(|r| CrateParse { inner: r.to_owned() })
}

/// Moves a parse of the crate into the library's type, value for value.
/// Claimed: the library's view of it is `parse_result_view` of the parse.
#[verifier::external_body]
fn from_parse_result(r: CrateParse) -> (p: FlatParse)
    ensures
        doc_view(p) == parse_result_view(r),
{
    let FlatResult { json, max_json_depth, parsing_max_depth, started_parsing_at, started_parsing_at_index_start, started_parsing_at_index_end, parsing_prefix, depth_after_start_at } = r.inner;
    let json = json.into_iter().map(|e| {
        let t = match e.pointer.value_type { J::Array(n) => F::Array(n), J::Object(b, n) => F::Object(b, n), J::Number => F::Number, J::String => F::String, J::Bool => F::Bool, J::Null => F::Null, J::None => F::Unset };
        let Key { pointer, depth, position, column_id, .. } = e.pointer;
        FlatValue { pointer: FlatPointer { pointer, value_type: t, depth, position, column_id }, value: e.value }
    }).collect();
    FlatParse { json, max_json_depth, parsing_max_depth, started_parsing_at, started_parsing_at_index_start, started_parsing_at_index_end, parsing_prefix, depth_after_start_at }
}

/// Parses a document with `JSONParser::parse_bytes` (see `flat_document`):
/// no array parsed into rows, objects down to `max_depth`, from depth 1,
/// from `start_at` when there is one.
pub(crate) fn parse_document(json: &[u8], max_depth: u8, start_at: Option<String>) -> (r: Result<FlatParse, String>)
    requires
        document_safe(json@, max_depth, opt_text(start_at)),
    ensures
        match r {
            Ok(p) => flat_document(json@, max_depth, opt_text(start_at)) == Ok::<DocumentView, Seq<char>>(doc_view(p)),
            Err(e) => flat_document(json@, max_depth, opt_text(start_at)) == Err::<DocumentView, Seq<char>>(e@),
        },
{
    match parse_bytes(json, max_depth, start_at) {
        Ok(r) => Ok(from_parse_result(r)),
        Err(e) => Err(e),
    }
}

/// What `JSONParser::change_depth_owned` leaves as the values of a row,
/// with no array parsed into rows and objects parsed down to `depth`, under
/// a parse that started at depth `da`, went down to `previous`, and found
/// the document `max_json_depth` deep.
pub uninterp spec fn deepened(es: Seq<FlatValueView>, da: u8, previous: u8, max_json_depth: usize, depth: u8) -> Seq<FlatValueView>;

/// Builds a parse of the crate holding copies of the row's values, under
/// those settings (no start pointer, no prefix).  Claimed: its view holds
/// exactly those.
#[verifier::external_body]
fn to_parse_result(entries: Vec<FlatValue>, da: u8, previous: u8, max_json_depth: usize) -> (r: CrateParse)
    ensures
        parse_result_view(r) == (DocumentView {
            json: fvs(entries@),
            max_json_depth,
            parsing_max_depth: previous,
            started_parsing_at: None,
            started_parsing_at_index_start: 0,
            started_parsing_at_index_end: 0,
            parsing_prefix: None,
            depth_after_start_at: da,
        }),
{
    let json = entries.into_iter().map(|e| {
        let t = match e.pointer.value_type { F::Array(n) => J::Array(n), F::Object(b, n) => J::Object(b, n), F::Number => J::Number, F::String => J::String, F::Bool => J::Bool, F::Null => J::Null, F::Unset => J::None };
        FlatJsonValue { pointer: Key { pointer: e.pointer.pointer, value_type: t, depth: e.pointer.depth, position: e.pointer.position, column_id: e.pointer.column_id }, value: e.value }
    }).collect();
    CrateParse { inner: FlatResult { json, max_json_depth, parsing_max_depth: previous, started_parsing_at: None, started_parsing_at_index_start: 0, started_parsing_at_index_end: 0, parsing_prefix: None, depth_after_start_at: da } }
}

/// Calls `JSONParser::change_depth_owned` with no array parsed into rows
/// and objects parsed down to `depth`, and `unwrap`s its answer.  Claimed:
/// the values become `deepened` of the values and settings before; nothing
/// is said of the settings after.  The call returns, with no error, on
/// `deepen_safe` values.
#[verifier::external_body]
fn change_depth(r: &mut CrateParse, depth: u8)
    requires
        deepen_safe(parse_result_view(*old(r)).json, parse_result_view(*old(r)).depth_after_start_at, parse_result_view(*old(r)).parsing_max_depth, depth),
    ensures
        parse_result_view(*final(r)).json == deepened(
            parse_result_view(*old(r)).json,
            parse_result_view(*old(r)).depth_after_start_at,
            parse_result_view(*old(r)).parsing_max_depth,
            parse_result_view(*old(r)).max_json_depth,
            depth,
        ),
{
    FlatJsonParser::change_depth_owned(&mut r.inner, Options::default().parse_array(false).max_depth(depth)).unwrap();
}

/// The row's values parsed down to `depth` by the crate (see `deepened`).
pub(crate) fn deepen_row(entries: Vec<FlatValue>, meta: &FlatParse, depth: u8) -> (r: Vec<FlatValue>)
    requires
        deepen_safe(fvs(entries@), meta.depth_after_start_at, meta.parsing_max_depth, depth),
    ensures
        fvs(r@) == deepened(fvs(entries@), meta.depth_after_start_at, meta.parsing_max_depth, meta.max_json_depth, depth),
{
    let mut res = to_parse_result(entries, meta.depth_after_start_at, meta.parsing_max_depth, meta.max_json_depth);
    change_depth(&mut res, depth);
    from_parse_result(res).json
}

} // verus!
