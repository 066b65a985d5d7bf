//! The flat JSON parser as pure functions over the input bytes.
//!
//! A parser state (`PState`) holds the lexer position, the current token,
//! the parser's bookkeeping fields, the route (pointer fragments) and the
//! entries emitted so far.  Each function below mirrors one phase of the
//! parser and returns the state after it together with how it ended
//! (`Flow`): normally, with an error message, or by halting (the parser
//! would panic or loop forever on this input).
use vstd::prelude::*;
use crate::lexer::{
    LexStep, TokenView, balance_end, closing_quote, consume_array, consume_from, consume_step, is_number_rest, lemma_skip_ws_bounds,
    next_token_step, number_end, skip_ws,
};
use crate::parser::ValueType;

verus! {

/// Parse options as mathematical values.
pub struct OptionsView {
    pub parse_array: bool,
    pub max_depth: nat,
    pub start_parse_at: Option<Seq<char>>,
    pub prefix: Option<Seq<char>>,
}

/// One emitted entry: pointer, value type, depth and value text.
pub struct EntryView {
    pub pointer: Seq<char>,
    pub value_type: ValueType,
    pub index: nat,
    pub value: Option<Seq<char>>,
}

pub struct PState {
    pub pos: int,
    pub cur: Option<TokenView>,
    pub seen: bool,
    pub max_depth: nat,
    pub root_type: ValueType,
    pub root_len: nat,
    pub depth_after: nat,
    pub route: Seq<Seq<char>>,
    pub out: Seq<EntryView>,
}

pub enum Flow {
    Done,
    Fail(Seq<char>),
    Halt,
}

// ---------------------------------------------------------------------------
// Text helpers
// ---------------------------------------------------------------------------

/// The character of a decimal digit.
pub open spec fn digit_char(d: nat) -> char {
    (d + 48) as char
}

/// Decimal notation of `n`, as `usize::to_string` writes it.
pub open spec fn decimal(n: nat) -> Seq<char>
    decreases n,
{
    if n < 10 {
        seq![digit_char(n)]
    } else {
        decimal(n / 10).push(digit_char(n % 10))
    }
}

/// The pointer of a route: its fragments concatenated.
pub open spec fn route_text(r: Seq<Seq<char>>) -> Seq<char>
    decreases r.len(),
{
    if r.len() == 0 {
        seq![]
    } else {
        route_text(r.drop_last()) + r.last()
    }
}

/// `Vec::pop` on the route: the last fragment removed, if any.
pub open spec fn pop_route(r: Seq<Seq<char>>) -> Seq<Seq<char>> {
    if r.len() == 0 {
        r
    } else {
        r.drop_last()
    }
}

/// `p` is a prefix of `s`.
pub open spec fn is_prefix(p: Seq<char>, s: Seq<char>) -> bool {
    p.len() <= s.len() && s.subrange(0, p.len() as int) == p
}

/// What `format!("{:?}", s)` writes for a string: the string in double
/// quotes, with quotes, backslashes and control characters escaped.
pub uninterp spec fn str_debug_text(s: Seq<char>) -> Seq<char>;

/// A token as the error messages show it: the variant's name, and its payload
/// in parentheses (a text payload quoted and escaped).
pub open spec fn token_debug_text(t: TokenView) -> Seq<char> {
    match t {
        TokenView::CurlyOpen => "CurlyOpen"@,
        TokenView::CurlyClose => "CurlyClose"@,
        TokenView::SquareOpen => "SquareOpen"@,
        TokenView::SquareClose => "SquareClose"@,
        TokenView::Colon => "Colon"@,
        TokenView::Comma => "Comma"@,
        TokenView::Str(s) => "String("@ + str_debug_text(s) + ")"@,
        TokenView::Num(s) => "Number("@ + str_debug_text(s) + ")"@,
        TokenView::Bool(v) => if v {
            "Boolean(true)"@
        } else {
            "Boolean(false)"@
        },
        TokenView::Null => "Null"@,
    }
}

pub open spec fn msg_empty() -> Seq<char> {
    "Json is empty"@
}

pub open spec fn msg_bad_start(t: TokenView) -> Seq<char> {
    "Expected json to start with { or [ but started with "@ + token_debug_text(t)
}

pub open spec fn msg_no_key() -> Seq<char> {
    "Expected object to have a key at this location"@
}

pub open spec fn msg_no_colon() -> Seq<char> {
    "Expected ':' after object key"@
}

pub open spec fn msg_after_value(t: TokenView) -> Seq<char> {
    "Expected ',' or '}' or ']' after object value, got: Some("@ + token_debug_text(t) + ")"@
}

pub open spec fn msg_unexpected(t: TokenView) -> Seq<char> {
    "Unexpected token: "@ + token_debug_text(t)
}

pub open spec fn msg_end() -> Seq<char> {
    "Unexpected end of input"@
}

// ---------------------------------------------------------------------------
// State updates
// ---------------------------------------------------------------------------

/// Bytes left after position `pos`.
pub open spec fn rem(b: Seq<u8>, pos: int) -> nat {
    if 0 <= pos <= b.len() {
        (b.len() - pos) as nat
    } else {
        0
    }
}

/// A pending container token counts as one unread byte.
pub open spec fn bonus(cur: Option<TokenView>) -> nat {
    match cur {
        Some(TokenView::CurlyOpen) => 1,
        Some(TokenView::SquareOpen) => 1,
        _ => 0,
    }
}

/// The termination measure of every parsing phase.
pub open spec fn measure(b: Seq<u8>, s: PState) -> nat {
    2 * rem(b, s.pos) + bonus(s.cur)
}

/// Reading the next token into the state; `None` when the lexer halts.
pub open spec fn advance(b: Seq<u8>, s: PState) -> Option<PState> {
    match next_token_step(b, s.pos) {
        LexStep::Emit(t, j) => Some(PState { pos: j, cur: Some(t), ..s }),
        LexStep::Stop(j) => Some(PState { pos: j, cur: None, ..s }),
        LexStep::Halt => None,
    }
}

pub open spec fn with_route(s: PState, r: Seq<Seq<char>>) -> PState {
    PState { route: r, ..s }
}

pub open spec fn with_pos(s: PState, pos: int) -> PState {
    PState { pos: pos, ..s }
}

/// Appending an entry at the current route.
pub open spec fn emit(s: PState, t: ValueType, depth: nat, value: Option<Seq<char>>) -> PState {
    PState {
        out: s.out.push(
            EntryView { pointer: route_text(s.route), value_type: t, index: depth, value: value },
        ),
        ..s
    }
}

/// A scalar is kept when within the depth limit and, when parsing starts at
/// a pointer, when its own pointer starts with that pointer.
pub open spec fn keeps_scalar(o: OptionsView, s: PState, depth: nat) -> bool {
    depth <= o.max_depth && match o.start_parse_at {
        Some(st) => is_prefix(st, route_text(s.route)),
        None => true,
    }
}

pub open spec fn scalar(
    o: OptionsView,
    s: PState,
    depth: nat,
    t: ValueType,
    value: Option<Seq<char>>,
) -> PState {
    if keeps_scalar(o, s, depth) {
        emit(s, t, depth, value)
    } else {
        s
    }
}

/// Whether the elements of an array are parsed one by one (rather than
/// kept as raw text).
pub open spec fn parses_elements(o: OptionsView, s: PState) -> bool {
    o.parse_array || (o.start_parse_at is Some && !s.seen && o.start_parse_at->0 == route_text(
        s.route,
    ))
}

pub open spec fn bool_text(v: bool) -> Seq<char> {
    if v {
        "true"@
    } else {
        "false"@
    }
}

pub open spec fn zero_fragment() -> Seq<char> {
    "/0"@
}

pub open spec fn index_fragment(i: nat) -> Seq<char> {
    "/"@ + decimal(i)
}

pub open spec fn key_fragment(key: Seq<char>) -> Seq<char> {
    "/"@ + key
}

pub open spec fn raw_array(raw: Seq<char>) -> Seq<char> {
    "["@ + raw + "]"@
}

/// What a nested phase's outcome becomes when the caller ignores errors but
/// cannot ignore a halt.
pub open spec fn only_halt(f: Flow) -> Flow {
    match f {
        Flow::Halt => Flow::Halt,
        _ => Flow::Done,
    }
}

// ---------------------------------------------------------------------------
// Facts about single steps
// ---------------------------------------------------------------------------

pub proof fn lemma_number_end(b: Seq<u8>, k: int)
    requires
        0 <= k <= b.len(),
    ensures
        k <= number_end(b, k) <= b.len(),
    decreases b.len() - k,
{
    if 0 <= k < b.len() && is_number_rest(b[k]) {
        lemma_number_end(b, k + 1);
    }
}

pub proof fn lemma_closing_quote(b: Seq<u8>, k: int)
    requires
        1 <= k,
    ensures
        k <= closing_quote(b, k) <= b.len() || closing_quote(b, k) == b.len(),
        closing_quote(b, k) <= b.len(),
    decreases b.len() - k,
{
    if 0 < k < b.len() {
        if !(b[k] == 0x22u8 && b[k - 1] != 0x5cu8) {
            lemma_closing_quote(b, k + 1);
        }
    }
}

pub proof fn lemma_balance_end(b: Seq<u8>, j: int, count: nat, open: u8, close: u8)
    requires
        0 <= j,
    ensures
        j <= balance_end(b, j, count, open, close) || balance_end(b, j, count, open, close) == b.len(),
        balance_end(b, j, count, open, close) <= b.len(),
    decreases b.len() - j,
{
    if 0 <= j < b.len() {
        if b[j] == 0x22u8 {
            let k = closing_quote(b, j + 1);
            if j < k < b.len() {
                lemma_balance_end(b, k + 1, count, open, close);
            }
        } else if b[j] == open {
            lemma_balance_end(b, j + 1, count + 1, open, close);
        } else if b[j] == close {
            if count > 1 {
                lemma_balance_end(b, j + 1, (count - 1) as nat, open, close);
            }
        } else {
            lemma_balance_end(b, j + 1, count, open, close);
        }
    }
}

/// A step never moves back, never passes the end when it reads a token, and
/// moves past every token but a number.
pub proof fn lemma_step(b: Seq<u8>, i: int)
    requires
        0 <= i,
    ensures
        match next_token_step(b, i) {
            LexStep::Emit(t, j) => i <= j <= b.len() && (!(t is Num) ==> i < j),
            LexStep::Stop(j) => i <= j && (i <= b.len() ==> j <= b.len()),
            LexStep::Halt => true,
        },
{
    lemma_skip_ws_bounds(b, i);
    let p = skip_ws(b, i);
    if 0 <= p < b.len() {
        lemma_number_end(b, p + 1);
        lemma_closing_quote(b, p + 1);
    }
}

pub proof fn lemma_consume_from(b: Seq<u8>, i: int, open: u8, close: u8, count: nat, ts: int, keep_close: bool)
    requires
        0 <= i,
    ensures
        i <= consume_from(b, i, open, close, count, ts, keep_close).1,
        i <= b.len() ==> consume_from(b, i, open, close, count, ts, keep_close).1 <= b.len(),
{
    lemma_skip_ws_bounds(b, i);
    let j0 = skip_ws(b, i);
    lemma_balance_end(b, j0, count, open, close);
}

pub proof fn lemma_consume(b: Seq<u8>, i: int, open: u8, close: u8, keep_close: bool)
    requires
        0 <= i,
    ensures
        i <= consume_step(b, i, open, close, keep_close).1,
        i <= b.len() ==> consume_step(b, i, open, close, keep_close).1 <= b.len(),
{
    lemma_consume_from(b, i, open, close, 1, i - 1, keep_close);
}

pub proof fn lemma_consume_array(b: Seq<u8>, i: int, start: int, nested: bool)
    requires
        0 <= i,
    ensures
        i <= consume_array(b, i, start, nested).1,
        i <= b.len() ==> consume_array(b, i, start, nested).1 <= b.len(),
{
    lemma_consume_from(b, i, 0x5bu8, 0x5du8, if nested { 2 } else { 1 }, skip_ws(b, start), false);
}

/// `advance` as used by the parsing phases.
pub proof fn lemma_advance(b: Seq<u8>, s: PState)
    requires
        0 <= s.pos,
    ensures
        advance(b, s) matches Some(s1) ==> {
            &&& s.pos <= s1.pos
            &&& s1.cur is Some ==> s1.pos <= b.len()
            &&& s.pos <= b.len() ==> s1.pos <= b.len()
            &&& rem(b, s1.pos) <= rem(b, s.pos)
            &&& (s1.cur matches Some(t) && !(t is Num)) ==> s.pos < s1.pos && rem(b, s1.pos) < rem(
                b,
                s.pos,
            )
            &&& measure(b, s1) <= 2 * rem(b, s.pos)
            &&& s1.route == s.route && s1.out == s.out && s1.seen == s.seen
        },
{
    lemma_step(b, s.pos);
}

// ---------------------------------------------------------------------------
// The parsing phases
// ---------------------------------------------------------------------------

/// A value whose first token is the current token.
pub open spec fn parse_value(b: Seq<u8>, o: OptionsView, s: PState, depth: nat) -> (PState, Flow)
    decreases measure(b, s), 3nat,
{
    match s.cur {
        None => (s, Flow::Fail(msg_end())),
        Some(t) => match t {
            TokenView::CurlyOpen => {
                if depth <= o.max_depth {
                    let (text, j) = consume_step(b, s.pos, 0x7bu8, 0x7du8, true);
                    match text {
                        Some(raw) => {
                            let s1 = emit(s, ValueType::Object, depth, Some(raw));
                            let (s2, f) = process(b, o, s1, depth + 1);
                            (s2, only_halt(f))
                        },
                        None => (with_pos(s, j), Flow::Done),
                    }
                } else {
                    let (s2, f) = process(b, o, s, depth + 1);
                    (s2, only_halt(f))
                }
            },
            TokenView::SquareOpen => {
                if s.pos < 0 {
                    (s, Flow::Halt)
                } else {
                    match advance(b, s) {
                        None => (s, Flow::Halt),
                        Some(s1) => {
                            proof {
                                lemma_advance(b, s);
                            }
                            elements(b, o, s1, depth, s.pos)
                        },
                    }
                }
            },
            TokenView::Str(v) => (scalar(o, s, depth, ValueType::String, Some(v)), Flow::Done),
            TokenView::Num(v) => (scalar(o, s, depth, ValueType::Number, Some(v)), Flow::Done),
            TokenView::Bool(v) => (scalar(o, s, depth, ValueType::Bool, Some(bool_text(v))), Flow::Done),
            TokenView::Null => (scalar(o, s, depth, ValueType::Null, None), Flow::Done),
            _ => (s, Flow::Fail(msg_unexpected(t))),
        },
    }
}

/// An object whose `{` was just read: updates the deepest depth seen, then
/// reads the members.
pub open spec fn process(b: Seq<u8>, o: OptionsView, s: PState, depth: nat) -> (PState, Flow)
    decreases measure(b, s), 2nat,
{
    let s0 = if s.max_depth < depth {
        PState { max_depth: depth, ..s }
    } else {
        s
    };
    if s.pos < 0 {
        (s0, Flow::Halt)
    } else {
        match advance(b, s0) {
            None => (s0, Flow::Halt),
            Some(s1) => {
                proof {
                    lemma_advance(b, s0);
                }
                members(b, o, s1, depth)
            },
        }
    }
}

/// The members of an object, the current token being the first key.
pub open spec fn members(b: Seq<u8>, o: OptionsView, s: PState, depth: nat) -> (PState, Flow)
    decreases measure(b, s), 1nat,
{
    if s.pos < 0 {
        (s, Flow::Halt)
    } else {
        match s.cur {
            None => (s, Flow::Done),
            Some(TokenView::Str(key)) => {
                let s1 = with_route(s, s.route.push(key_fragment(key)));
                match advance(b, s1) {
                    None => (s1, Flow::Halt),
                    Some(s2) => match s2.cur {
                        Some(TokenView::Colon) => {
                            proof {
                                lemma_advance(b, s1);
                                lemma_advance(b, s2);
                            }
                            match advance(b, s2) {
                                None => (s2, Flow::Halt),
                                Some(s3) => {
                                    let (s4, f) = parse_value(b, o, s3, depth);
                                    match f {
                                        Flow::Done => {
                                            if s4.pos < s3.pos {
                                                (s4, Flow::Halt)
                                            } else {
                                                proof {
                                                    lemma_advance(b, s4);
                                                }
                                                match advance(b, s4) {
                                                    None => (s4, Flow::Halt),
                                                    Some(s5) => match s5.cur {
                                                        Some(TokenView::Comma) => {
                                                            proof {
                                                                lemma_advance(b, s5);
                                                            }
                                                            match advance(b, s5) {
                                                                None => (s5, Flow::Halt),
                                                                Some(s6) => members(
                                                                    b,
                                                                    o,
                                                                    with_route(s6, pop_route(s6.route)),
                                                                    depth,
                                                                ),
                                                            }
                                                        },
                                                        Some(TokenView::CurlyClose) => (
                                                            with_route(s5, pop_route(s5.route)),
                                                            Flow::Done,
                                                        ),
                                                        Some(TokenView::SquareClose) => (
                                                            with_route(s5, pop_route(s5.route)),
                                                            Flow::Done,
                                                        ),
                                                        None => (s5, Flow::Done),
                                                        Some(t) => (s5, Flow::Fail(msg_after_value(t))),
                                                    },
                                                }
                                            }
                                        },
                                        _ => (s4, f),
                                    }
                                },
                            }
                        },
                        _ => (s2, Flow::Fail(msg_no_colon())),
                    },
                }
            },
            Some(_) => (s, Flow::Fail(msg_no_key())),
        }
    }
}

/// The body of an array whose `[` was just read, the current token being the
/// token after it.  Loops until `]`, the end of the tokens, or a raw copy of
/// the array; halts where the loop would make no more progress.
pub open spec fn elements(b: Seq<u8>, o: OptionsView, s: PState, depth: nat, start: int) -> (PState, Flow)
    decreases measure(b, s), 5nat,
{
    if s.pos < 0 {
        (s, Flow::Halt)
    } else {
        match s.cur {
            None => (s, Flow::Done),
            Some(TokenView::SquareClose) => (with_route(s, pop_route(s.route)), Flow::Done),
            Some(_) => {
                if parses_elements(o, s) {
                    let s1 = with_route(s, s.route.push(zero_fragment()));
                    let (s2, f) = parse_value(b, o, s1, depth);
                    if f is Halt || s2.pos < s1.pos {
                        (s2, Flow::Halt)
                    } else {
                        let s3 = with_route(s2, pop_route(s2.route));
                        proof {
                            lemma_advance(b, s3);
                        }
                        match advance(b, s3) {
                            None => (s3, Flow::Halt),
                            Some(s4) => {
                                let (s5, f2) = element_rest(b, o, s4, depth, 1);
                                if f2 is Halt {
                                    (s5, Flow::Halt)
                                } else {
                                    match s5.cur {
                                        None => (s5, Flow::Done),
                                        Some(_) => {
                                            if s5.pos <= b.len() && rem(b, s5.pos) < rem(b, s.pos) {
                                                elements(b, o, s5, depth, start)
                                            } else {
                                                (s5, Flow::Halt)
                                            }
                                        },
                                    }
                                }
                            },
                        }
                    }
                } else {
                    let (text, j) = consume_array(b, s.pos, start, s.cur == Some(TokenView::SquareOpen));
                    let s1 = with_pos(s, j);
                    match text {
                        Some(raw) => {
                            if depth <= o.max_depth {
                                (emit(s1, ValueType::Array, depth, Some(raw_array(raw))), Flow::Done)
                            } else {
                                (s1, Flow::Done)
                            }
                        },
                        None => {
                            if 0 <= j <= b.len() && rem(b, j) < rem(b, s.pos) {
                                elements(b, o, s1, depth, start)
                            } else {
                                (s1, Flow::Halt)
                            }
                        },
                    }
                }
            },
        }
    }
}

/// The elements after the first one: while the current token is a comma,
/// reads the next element as number `i`.
pub open spec fn element_rest(b: Seq<u8>, o: OptionsView, s: PState, depth: nat, i: nat) -> (
    PState,
    Flow,
)
    decreases measure(b, s), 4nat,
{
    if s.pos < 0 {
        (s, Flow::Halt)
    } else {
        match s.cur {
            Some(TokenView::Comma) => {
                proof {
                    lemma_advance(b, s);
                }
                match advance(b, s) {
                    None => (s, Flow::Halt),
                    Some(s1) => match s1.cur {
                        None => (s1, Flow::Done),
                        Some(_) => {
                            let s2 = with_route(s1, s1.route.push(index_fragment(i)));
                            let (s3, f) = parse_value(b, o, s2, depth);
                            if f is Halt || s3.pos < s2.pos {
                                (s3, Flow::Halt)
                            } else {
                                let s4 = with_route(s3, pop_route(s3.route));
                                proof {
                                    lemma_advance(b, s4);
                                }
                                match advance(b, s4) {
                                    None => (s4, Flow::Halt),
                                    Some(s5) => match s5.cur {
                                        Some(TokenView::Comma) => element_rest(b, o, s5, depth, i + 1),
                                        _ => end_elements(s5, depth, i + 1),
                                    },
                                }
                            }
                        },
                    },
                }
            },
            _ => end_elements(s, depth, i),
        }
    }
}

/// Leaving the element loop on a token other than a comma: the first time,
/// the array is recorded as the root with `i` elements.
pub open spec fn end_elements(s: PState, depth: nat, i: nat) -> (PState, Flow) {
    match s.cur {
        None => (s, Flow::Done),
        Some(_) => {
            if !s.seen {
                (
                    PState {
                        seen: true,
                        root_type: ValueType::Array,
                        root_len: i,
                        depth_after: depth + 1,
                        ..s
                    },
                    Flow::Done,
                )
            } else {
                (s, Flow::Done)
            }
        },
    }
}

// ---------------------------------------------------------------------------
// The phases never move the position back
// ---------------------------------------------------------------------------

pub proof fn lemma_parse_value_mono(b: Seq<u8>, o: OptionsView, s: PState, depth: nat)
    requires
        0 <= s.pos,
    ensures
        s.pos <= parse_value(b, o, s, depth).0.pos,
    decreases measure(b, s), 3nat,
{
    match s.cur {
        Some(TokenView::CurlyOpen) => {
            if depth <= o.max_depth {
                lemma_consume(b, s.pos, 0x7bu8, 0x7du8, true);
                let (text, j) = consume_step(b, s.pos, 0x7bu8, 0x7du8, true);
                match text {
                    Some(raw) => {
                        lemma_process_mono(b, o, emit(s, ValueType::Object, depth, Some(raw)), depth + 1);
                    },
                    None => {},
                }
            } else {
                lemma_process_mono(b, o, s, depth + 1);
            }
        },
        Some(TokenView::SquareOpen) => {
            lemma_advance(b, s);
            match advance(b, s) {
                Some(s1) => {
                    lemma_elements_mono(b, o, s1, depth, s.pos);
                },
                None => {},
            }
        },
        _ => {},
    }
}

pub proof fn lemma_process_mono(b: Seq<u8>, o: OptionsView, s: PState, depth: nat)
    requires
        0 <= s.pos,
    ensures
        s.pos <= process(b, o, s, depth).0.pos,
    decreases measure(b, s), 2nat,
{
    let s0 = if s.max_depth < depth {
        PState { max_depth: depth, ..s }
    } else {
        s
    };
    lemma_advance(b, s0);
    match advance(b, s0) {
        Some(s1) => {
            lemma_members_mono(b, o, s1, depth);
        },
        None => {},
    }
}

pub proof fn lemma_members_mono(b: Seq<u8>, o: OptionsView, s: PState, depth: nat)
    requires
        0 <= s.pos,
    ensures
        s.pos <= members(b, o, s, depth).0.pos,
    decreases measure(b, s), 1nat,
{
    match s.cur {
        Some(TokenView::Str(key)) => {
            let s1 = with_route(s, s.route.push(key_fragment(key)));
            lemma_advance(b, s1);
            match advance(b, s1) {
                Some(s2) => {
                    lemma_advance(b, s2);
                    match s2.cur {
                        Some(TokenView::Colon) => {
                            match advance(b, s2) {
                                Some(s3) => {
                                    lemma_parse_value_mono(b, o, s3, depth);
                                    let (s4, f) = parse_value(b, o, s3, depth);
                                    if f is Done && s4.pos >= s3.pos {
                                        lemma_advance(b, s4);
                                        match advance(b, s4) {
                                            Some(s5) => {
                                                lemma_advance(b, s5);
                                                if s5.cur matches Some(TokenView::Comma) {
                                                    match advance(b, s5) {
                                                        Some(s6) => {
                                                            lemma_members_mono(
                                                                b,
                                                                o,
                                                                with_route(s6, pop_route(s6.route)),
                                                                depth,
                                                            );
                                                        },
                                                        None => {},
                                                    }
                                                }
                                            },
                                            None => {},
                                        }
                                    }
                                },
                                None => {},
                            }
                        },
                        _ => {},
                    }
                },
                None => {},
            }
        },
        _ => {},
    }
}

pub proof fn lemma_elements_mono(b: Seq<u8>, o: OptionsView, s: PState, depth: nat, start: int)
    requires
        0 <= s.pos,
    ensures
        s.pos <= elements(b, o, s, depth, start).0.pos,
    decreases measure(b, s), 5nat,
{
    match s.cur {
        None => {},
        Some(TokenView::SquareClose) => {},
        Some(_) => {
            if parses_elements(o, s) {
                let s1 = with_route(s, s.route.push(zero_fragment()));
                lemma_parse_value_mono(b, o, s1, depth);
                let (s2, f) = parse_value(b, o, s1, depth);
                if !(f is Halt || s2.pos < s1.pos) {
                    let s3 = with_route(s2, pop_route(s2.route));
                    lemma_advance(b, s3);
                    match advance(b, s3) {
                        Some(s4) => {
                            lemma_element_rest_mono(b, o, s4, depth, 1);
                            let (s5, f2) = element_rest(b, o, s4, depth, 1);
                            if !(f2 is Halt) && s5.cur is Some && s5.pos <= b.len() && rem(b, s5.pos)
                                < rem(b, s.pos) {
                                lemma_elements_mono(b, o, s5, depth, start);
                            }
                        },
                        None => {},
                    }
                }
            } else {
                lemma_consume_array(b, s.pos, start, s.cur == Some(TokenView::SquareOpen));
                let (text, j) = consume_array(b, s.pos, start, s.cur == Some(TokenView::SquareOpen));
                if text is None && 0 <= j <= b.len() && rem(b, j) < rem(b, s.pos) {
                    lemma_elements_mono(b, o, with_pos(s, j), depth, start);
                }
            }
        },
    }
}

pub proof fn lemma_element_rest_mono(b: Seq<u8>, o: OptionsView, s: PState, depth: nat, i: nat)
    requires
        0 <= s.pos,
    ensures
        s.pos <= element_rest(b, o, s, depth, i).0.pos,
    decreases measure(b, s), 4nat,
{
    if s.cur matches Some(TokenView::Comma) {
        lemma_advance(b, s);
        match advance(b, s) {
            Some(s1) => {
                if s1.cur is Some {
                    let s2 = with_route(s1, s1.route.push(index_fragment(i)));
                    lemma_parse_value_mono(b, o, s2, depth);
                    let (s3, f) = parse_value(b, o, s2, depth);
                    if !(f is Halt || s3.pos < s2.pos) {
                        let s4 = with_route(s3, pop_route(s3.route));
                        lemma_advance(b, s4);
                        match advance(b, s4) {
                            Some(s5) => {
                                if s5.cur matches Some(TokenView::Comma) {
                                    lemma_element_rest_mono(b, o, s5, depth, i + 1);
                                }
                            },
                            None => {},
                        }
                    }
                }
            },
            None => {},
        }
    }
}

/// The element loop only ends normally or by halting.
pub proof fn lemma_element_rest_flow(b: Seq<u8>, o: OptionsView, s: PState, depth: nat, i: nat)
    requires
        0 <= s.pos,
    ensures
        !(element_rest(b, o, s, depth, i).1 is Fail),
    decreases measure(b, s), 4nat,
{
    if s.cur matches Some(TokenView::Comma) {
        lemma_advance(b, s);
        match advance(b, s) {
            Some(s1) => {
                if s1.cur is Some {
                    let s2 = with_route(s1, s1.route.push(index_fragment(i)));
                    lemma_parse_value_mono(b, o, s2, depth);
                    let (s3, f) = parse_value(b, o, s2, depth);
                    if !(f is Halt || s3.pos < s2.pos) {
                        let s4 = with_route(s3, pop_route(s3.route));
                        lemma_advance(b, s4);
                        match advance(b, s4) {
                            Some(s5) => {
                                if s5.cur matches Some(TokenView::Comma) {
                                    lemma_element_rest_flow(b, o, s5, depth, i + 1);
                                }
                            },
                            None => {},
                        }
                    }
                }
            },
            None => {},
        }
    }
}

/// The route a parse starts with: the prefix option, if any.
pub open spec fn start_route(o: OptionsView) -> Seq<Seq<char>> {
    match o.prefix {
        Some(p) => seq![p],
        None => seq![],
    }
}

pub enum ParseOutcome {
    Parsed(PState),
    Failed(Seq<char>),
    Halted,
}

/// A whole parse from parser state `s`: the first token must open an object
/// or an array.
pub open spec fn parse_document(b: Seq<u8>, o: OptionsView, s: PState, depth: nat) -> ParseOutcome {
    if s.pos < 0 {
        ParseOutcome::Halted
    } else {
        match advance(b, s) {
            None => ParseOutcome::Halted,
            Some(s1) => match s1.cur {
                None => ParseOutcome::Failed(msg_empty()),
                Some(TokenView::CurlyOpen) => {
                    let s2 = PState {
                        route: start_route(o),
                        out: seq![],
                        root_type: ValueType::Object,
                        ..s1
                    };
                    match process(b, o, s2, depth) {
                        (s3, Flow::Done) => ParseOutcome::Parsed(s3),
                        (_, Flow::Fail(m)) => ParseOutcome::Failed(m),
                        (_, Flow::Halt) => ParseOutcome::Halted,
                    }
                },
                Some(TokenView::SquareOpen) => {
                    let s2 = PState {
                        route: start_route(o),
                        out: seq![],
                        root_type: ValueType::Array,
                        ..s1
                    };
                    match parse_value(b, o, s2, depth) {
                        (s3, Flow::Done) => ParseOutcome::Parsed(s3),
                        (_, Flow::Fail(m)) => ParseOutcome::Failed(m),
                        (_, Flow::Halt) => ParseOutcome::Halted,
                    }
                },
                Some(t) => ParseOutcome::Failed(msg_bad_start(t)),
            },
        }
    }
}

} // verus!
