//! Byte-level JSON lexer.
//!
//! `SliceRead` is a cursor over the input bytes and `Lexer` turns the bytes
//! into `Token`s.  Every operation is specified against pure functions over
//! the input bytes (`next_token_step`, `consume_step`, `lex_steps`), so the
//! parser can reason about the lexer without looking at its code.
use vstd::prelude::*;
use vstd::utf8::*;

verus! {

// ---------------------------------------------------------------------------
// Tokens
// ---------------------------------------------------------------------------

/// A JSON token.  String-like payloads borrow from the input.
#[derive(Debug, Clone, Copy)]
pub enum Token<'a> {
    CurlyOpen,
    CurlyClose,
    SquareOpen,
    SquareClose,
    Colon,
    Comma,
    String(&'a str),
    Number(&'a str),
    Boolean(bool),
    Null,
}

/// The mathematical value of a token: payloads as character sequences.
pub enum TokenView {
    CurlyOpen,
    CurlyClose,
    SquareOpen,
    SquareClose,
    Colon,
    Comma,
    Str(Seq<char>),
    Num(Seq<char>),
    Bool(bool),
    Null,
}

impl<'a> View for Token<'a> {
    type V = TokenView;

    open spec fn view(&self) -> TokenView {
        match self {
            Token::CurlyOpen => TokenView::CurlyOpen,
            Token::CurlyClose => TokenView::CurlyClose,
            Token::SquareOpen => TokenView::SquareOpen,
            Token::SquareClose => TokenView::SquareClose,
            Token::Colon => TokenView::Colon,
            Token::Comma => TokenView::Comma,
            Token::String(s) => TokenView::Str(s@),
            Token::Number(s) => TokenView::Num(s@),
            Token::Boolean(b) => TokenView::Bool(*b),
            Token::Null => TokenView::Null,
        }
    }
}

/// View of an optional token.
pub open spec fn opt_token_view(t: Option<Token>) -> Option<TokenView> {
    match t {
        Some(tok) => Some(tok@),
        None => None,
    }
}

// ---------------------------------------------------------------------------
// Byte classes
// ---------------------------------------------------------------------------

/// ASCII whitespace as `u8::is_ascii_whitespace` defines it.
pub open spec fn is_ws(b: u8) -> bool {
    b == 0x20u8 || b == 0x09u8 || b == 0x0au8 || b == 0x0cu8 || b == 0x0du8
}

pub open spec fn is_digit(b: u8) -> bool {
    0x30u8 <= b && b <= 0x39u8
}

/// Bytes that start a number token: `-` or a digit.
pub open spec fn is_number_start(b: u8) -> bool {
    b == 0x2du8 || is_digit(b)
}

/// Bytes that continue a number token: a digit or `.`.
pub open spec fn is_number_rest(b: u8) -> bool {
    is_digit(b) || b == 0x2eu8
}

pub(crate) fn byte_is_ws(b: u8) -> (r: bool)
    ensures
        r == is_ws(b),
{
    b == 0x20u8 || b == 0x09u8 || b == 0x0au8 || b == 0x0cu8 || b == 0x0du8
}

fn byte_is_number_rest(b: u8) -> (r: bool)
    ensures
        r == is_number_rest(b),
{
    (0x30u8 <= b && b <= 0x39u8) || b == 0x2eu8
}

// ---------------------------------------------------------------------------
// The lexer as functions over the input bytes
// ---------------------------------------------------------------------------

/// The first position at or after `i` that is not whitespace.
pub open spec fn skip_ws(b: Seq<u8>, i: int) -> int
    decreases b.len() - i,
{
    if 0 <= i < b.len() && is_ws(b[i]) {
        skip_ws(b, i + 1)
    } else {
        i
    }
}

pub proof fn lemma_skip_ws_bounds(b: Seq<u8>, i: int)
    ensures
        skip_ws(b, i) >= i,
        i <= b.len() ==> skip_ws(b, i) <= b.len(),
        0 <= skip_ws(b, i) < b.len() ==> !is_ws(b[skip_ws(b, i)]),
    decreases b.len() - i,
{
    if 0 <= i < b.len() && is_ws(b[i]) {
        lemma_skip_ws_bounds(b, i + 1);
    }
}

/// The first position at or after `k` whose byte does not continue a number
/// (the input length when every remaining byte does).
pub open spec fn number_end(b: Seq<u8>, k: int) -> int
    decreases b.len() - k,
{
    if 0 <= k < b.len() && is_number_rest(b[k]) {
        number_end(b, k + 1)
    } else {
        k
    }
}

/// The first position `j >= k` holding a `"` not preceded by a backslash
/// (the input length when there is none).
pub open spec fn closing_quote(b: Seq<u8>, k: int) -> int
    decreases b.len() - k,
{
    if 0 < k < b.len() {
        if b[k] == 0x22u8 && b[k - 1] != 0x5cu8 {
            k
        } else {
            closing_quote(b, k + 1)
        }
    } else {
        b.len() as int
    }
}

/// The text of `b[s..e]` when it is valid UTF-8.
pub open spec fn text_of(b: Seq<u8>, s: int, e: int) -> Option<Seq<char>> {
    if valid_utf8(b.subrange(s, e)) {
        Some(decode_utf8(b.subrange(s, e)))
    } else {
        None
    }
}

/// `b[p..]` starts with `pat`.
pub open spec fn has_at(b: Seq<u8>, p: int, pat: Seq<u8>) -> bool {
    0 <= p && p + pat.len() <= b.len() && b.subrange(p, p + pat.len()) == pat
}

/// One call of `next_token` from position `i`: a token and the new
/// position, no token and the new position, or a halt (the input ends in an
/// opening quote, where the slicing of the string body would panic).
pub enum LexStep {
    Emit(TokenView, int),
    Stop(int),
    Halt,
}

pub open spec fn next_token_step(b: Seq<u8>, i: int) -> LexStep {
    let p = skip_ws(b, i);
    if !(0 <= p < b.len()) {
        LexStep::Stop(p)
    } else {
        let c = b[p];
        if c == 0x7bu8 {
            LexStep::Emit(TokenView::CurlyOpen, p + 1)
        } else if c == 0x7du8 {
            LexStep::Emit(TokenView::CurlyClose, p + 1)
        } else if c == 0x5bu8 {
            LexStep::Emit(TokenView::SquareOpen, p + 1)
        } else if c == 0x5du8 {
            LexStep::Emit(TokenView::SquareClose, p + 1)
        } else if c == 0x2cu8 {
            LexStep::Emit(TokenView::Comma, p + 1)
        } else if c == 0x3au8 {
            LexStep::Emit(TokenView::Colon, p + 1)
        } else if is_number_start(c) {
            let e = number_end(b, p + 1);
            let end = if e < b.len() {
                e
            } else {
                b.len() - 1
            };
            match text_of(b, p, end) {
                Some(t) => LexStep::Emit(TokenView::Num(t), end),
                None => LexStep::Stop(end),
            }
        } else if c == 0x22u8 {
            let k = closing_quote(b, p + 1);
            if k < b.len() {
                match text_of(b, p + 1, k) {
                    Some(t) => LexStep::Emit(TokenView::Str(t), k + 1),
                    None => LexStep::Stop(k + 1),
                }
            } else if p + 1 >= b.len() {
                LexStep::Halt
            } else {
                match text_of(b, p + 1, b.len() - 1) {
                    Some(t) => LexStep::Emit(TokenView::Str(t), b.len() as int),
                    None => LexStep::Stop(b.len() as int),
                }
            }
        } else if c == 0x74u8 && has_at(b, p + 1, seq![0x72u8, 0x75u8, 0x65u8]) {
            LexStep::Emit(TokenView::Bool(true), p + 4)
        } else if c == 0x66u8 && has_at(b, p + 1, seq![0x61u8, 0x6cu8, 0x73u8, 0x65u8]) {
            LexStep::Emit(TokenView::Bool(false), p + 5)
        } else if c == 0x6eu8 && has_at(b, p + 1, seq![0x75u8, 0x6cu8, 0x6cu8]) {
            LexStep::Emit(TokenView::Null, p + 4)
        } else {
            LexStep::Stop(p + 1)
        }
    }
}

/// `closing_quote` never looks back.
pub proof fn lemma_quote_ahead(b: Seq<u8>, k: int)
    requires
        1 <= k,
    ensures
        k <= closing_quote(b, k) || closing_quote(b, k) == b.len(),
    decreases b.len() - k,
{
    if 0 < k < b.len() {
        if !(b[k] == 0x22u8 && b[k - 1] != 0x5cu8) {
            lemma_quote_ahead(b, k + 1);
        }
    }
}

/// Position `q` holds a double quote that no backslash precedes.
pub open spec fn unescaped_quote_at(b: Seq<u8>, q: int) -> bool {
    0 < q < b.len() && b[q] == 0x22u8 && b[q - 1] != 0x5cu8
}

/// Scanning for the end of a string from `k`: the scan stops at the first
/// unescaped double quote at or after `k`, and only there.
proof fn lemma_first_unescaped_quote(b: Seq<u8>, k: int)
    requires
        1 <= k,
    ensures
        closing_quote(b, k) <= b.len(),
        closing_quote(b, k) < b.len() ==> k <= closing_quote(b, k) && unescaped_quote_at(b, closing_quote(b, k)),
        forall|q: int| k <= q < closing_quote(b, k) ==> !#[trigger] unescaped_quote_at(b, q),
        closing_quote(b, k) == b.len() ==> forall|q: int| k <= q < b.len() ==> !#[trigger] unescaped_quote_at(b, q),
    decreases b.len() - k,
{
    if k < b.len() && !unescaped_quote_at(b, k) {
        lemma_first_unescaped_quote(b, k + 1);
    }
}

/// A string token ends at the first double quote that no backslash
/// precedes.  When a call of the lexer from `i` gives the string token `t`
/// and the new position `j`, the token opened at the first non-blank byte
/// `p`; no byte strictly between the opening quote and `j - 1` is an
/// unescaped quote, so a `\"` inside the literal never ends it; `b[j - 1]`
/// is the closing quote, unescaped, unless the input ended first (then `j`
/// is the input length and the last byte is no unescaped quote); and `t`
/// is the text of the bytes between the opening quote and `j - 1`.
pub proof fn law_string_token_ends_at_unescaped_quote(b: Seq<u8>, i: int, t: Seq<char>, j: int)
    requires
        0 <= i,
        next_token_step(b, i) == LexStep::Emit(TokenView::Str(t), j),
    ensures
        ({
            let p = skip_ws(b, i);
            &&& 0 <= p < b.len() && b[p] == 0x22u8
            &&& p + 1 <= j - 1 && j <= b.len()
            &&& forall|q: int| p + 1 <= q < j - 1 ==> !#[trigger] unescaped_quote_at(b, q)
            &&& unescaped_quote_at(b, j - 1) || (j == b.len() && !unescaped_quote_at(b, j - 1))
            &&& valid_utf8(b.subrange(p + 1, j - 1)) && t == decode_utf8(b.subrange(p + 1, j - 1))
        }),
{
    let p = skip_ws(b, i);
    lemma_skip_ws_bounds(b, i);
    lemma_first_unescaped_quote(b, p + 1);
}

/// The bytes `\t`, `\n`, form feed, `\r` and space.
pub open spec fn blank_byte(c: u8) -> bool {
    c == 0x09u8 || c == 0x0au8 || c == 0x0cu8 || c == 0x0du8 || c == 0x20u8
}

/// The bytes `0` to `9` and `.`.
pub open spec fn digit_or_point(c: u8) -> bool {
    (0x30u8 <= c && c <= 0x39u8) || c == 0x2eu8
}

proof fn lemma_skip_ws_skips_blanks(b: Seq<u8>, i: int)
    requires
        0 <= i,
    ensures
        forall|q: int| i <= q < skip_ws(b, i) ==> 0 <= q < b.len() && blank_byte(#[trigger] b[q]),
    decreases b.len() - i,
{
    if 0 <= i < b.len() && is_ws(b[i]) {
        lemma_skip_ws_skips_blanks(b, i + 1);
        lemma_skip_ws_bounds(b, i + 1);
        assert forall|q: int| i <= q < skip_ws(b, i) implies 0 <= q < b.len() && blank_byte(#[trigger] b[q]) by {
            if q > i {
                assert(i + 1 <= q < skip_ws(b, i + 1));
            }
        }
    }
}

proof fn lemma_number_end_stops(b: Seq<u8>, k: int)
    requires
        0 <= k <= b.len(),
    ensures
        k <= number_end(b, k) <= b.len(),
        forall|q: int| k <= q < number_end(b, k) ==> digit_or_point(#[trigger] b[q]),
        number_end(b, k) < b.len() ==> !digit_or_point(b[number_end(b, k)]),
    decreases b.len() - k,
{
    if k < b.len() && is_number_rest(b[k]) {
        lemma_number_end_stops(b, k + 1);
    }
}

/// Each token is read from the bytes that spell it.  A call of the lexer
/// from `i` that gives a token and the new position `j` skipped only blank
/// bytes up to the token's first byte `p`, which is not blank; a
/// punctuation token is its one byte; `true`, `false` and `null` are
/// spelled out; a number starts with `-` or a digit, its other bytes are
/// digits or `.`, and it ends before the first other byte, or one byte
/// short of the input's end when the input ends first; its text is the text
/// of those bytes; a string starts with a double quote.
pub proof fn law_token_spelled_by_bytes(b: Seq<u8>, i: int, tok: TokenView, j: int)
    requires
        0 <= i,
        next_token_step(b, i) == LexStep::Emit(tok, j),
    ensures
        ({
            let p = skip_ws(b, i);
            &&& 0 <= p < b.len() && !blank_byte(b[p])
            &&& forall|q: int| i <= q < p ==> blank_byte(#[trigger] b[q])
            &&& match tok {
                TokenView::CurlyOpen => b[p] == 0x7bu8 && j == p + 1,
                TokenView::CurlyClose => b[p] == 0x7du8 && j == p + 1,
                TokenView::SquareOpen => b[p] == 0x5bu8 && j == p + 1,
                TokenView::SquareClose => b[p] == 0x5du8 && j == p + 1,
                TokenView::Comma => b[p] == 0x2cu8 && j == p + 1,
                TokenView::Colon => b[p] == 0x3au8 && j == p + 1,
                TokenView::Bool(v) => if v {
                    j == p + 4 && j <= b.len() && b.subrange(p, j) == seq![0x74u8, 0x72u8, 0x75u8, 0x65u8]
                } else {
                    j == p + 5 && j <= b.len() && b.subrange(p, j) == seq![0x66u8, 0x61u8, 0x6cu8, 0x73u8, 0x65u8]
                },
                TokenView::Null => j == p + 4 && j <= b.len() && b.subrange(p, j) == seq![0x6eu8, 0x75u8, 0x6cu8, 0x6cu8],
                TokenView::Num(t) => {
                    &&& b[p] == 0x2du8 || (0x30u8 <= b[p] && b[p] <= 0x39u8)
                    &&& p <= j < b.len()
                    &&& forall|q: int| p < q < j ==> digit_or_point(#[trigger] b[q])
                    &&& (p < j && !digit_or_point(b[j])) || (j == b.len() - 1 && digit_or_point(b[j]))
                        || (j == p && j == b.len() - 1)
                    &&& valid_utf8(b.subrange(p, j)) && t == decode_utf8(b.subrange(p, j))
                },
                TokenView::Str(_) => b[p] == 0x22u8,
            }
        }),
{
    let p = skip_ws(b, i);
    lemma_skip_ws_bounds(b, i);
    lemma_skip_ws_skips_blanks(b, i);
    if 0 <= p < b.len() && is_number_start(b[p]) {
        lemma_number_end_stops(b, p + 1);
    }
}

/// The bytes that spell a token are read as that token.  From `i`, once
/// the blank bytes are skipped to `p`: a punctuation byte gives its token
/// and `p + 1`; `true`, `false` and `null` give their tokens and the
/// position after them; a double quote followed by a closing unescaped
/// quote at `k`, with no unescaped quote between them and valid UTF-8
/// between them, gives the string of that text and `k + 1`; a `-` or digit
/// followed by digits and points up to a byte `j` that is none, with valid
/// UTF-8 from `p` to `j`, gives the number of that text and `j`.
pub proof fn law_bytes_spell_token(b: Seq<u8>, i: int, p: int)
    requires
        0 <= i,
        p == skip_ws(b, i),
        0 <= p < b.len(),
    ensures
        b[p] == 0x7bu8 ==> next_token_step(b, i) == LexStep::Emit(TokenView::CurlyOpen, p + 1),
        b[p] == 0x7du8 ==> next_token_step(b, i) == LexStep::Emit(TokenView::CurlyClose, p + 1),
        b[p] == 0x5bu8 ==> next_token_step(b, i) == LexStep::Emit(TokenView::SquareOpen, p + 1),
        b[p] == 0x5du8 ==> next_token_step(b, i) == LexStep::Emit(TokenView::SquareClose, p + 1),
        b[p] == 0x2cu8 ==> next_token_step(b, i) == LexStep::Emit(TokenView::Comma, p + 1),
        b[p] == 0x3au8 ==> next_token_step(b, i) == LexStep::Emit(TokenView::Colon, p + 1),
        p + 4 <= b.len() && b.subrange(p, p + 4) == seq![0x74u8, 0x72u8, 0x75u8, 0x65u8]
            ==> next_token_step(b, i) == LexStep::Emit(TokenView::Bool(true), p + 4),
        p + 5 <= b.len() && b.subrange(p, p + 5) == seq![0x66u8, 0x61u8, 0x6cu8, 0x73u8, 0x65u8]
            ==> next_token_step(b, i) == LexStep::Emit(TokenView::Bool(false), p + 5),
        p + 4 <= b.len() && b.subrange(p, p + 4) == seq![0x6eu8, 0x75u8, 0x6cu8, 0x6cu8]
            ==> next_token_step(b, i) == LexStep::Emit(TokenView::Null, p + 4),
        forall|k: int|
            b[p] == 0x22u8 && p < k && #[trigger] unescaped_quote_at(b, k) && (forall|q: int|
                p + 1 <= q < k ==> !#[trigger] unescaped_quote_at(b, q)) && valid_utf8(b.subrange(p + 1, k))
                ==> next_token_step(b, i) == LexStep::Emit(TokenView::Str(decode_utf8(b.subrange(p + 1, k))), k + 1),
        forall|j: int|
            (b[p] == 0x2du8 || (0x30u8 <= b[p] && b[p] <= 0x39u8)) && p < j < b.len() && !digit_or_point(#[trigger] b[j])
                && (forall|q: int| p < q < j ==> digit_or_point(#[trigger] b[q])) && valid_utf8(b.subrange(p, j))
                ==> next_token_step(b, i) == LexStep::Emit(TokenView::Num(decode_utf8(b.subrange(p, j))), j),
{
    lemma_first_unescaped_quote(b, p + 1);
    lemma_number_end_stops(b, p + 1);
    if p + 4 <= b.len() {
        let w = b.subrange(p, p + 4);
        assert(b[p] == w[0]);
        if w == seq![0x74u8, 0x72u8, 0x75u8, 0x65u8] {
            assert(b.subrange(p + 1, p + 4) =~= seq![0x72u8, 0x75u8, 0x65u8]);
        }
        if w == seq![0x6eu8, 0x75u8, 0x6cu8, 0x6cu8] {
            assert(b.subrange(p + 1, p + 4) =~= seq![0x75u8, 0x6cu8, 0x6cu8]);
        }
    }
    if p + 5 <= b.len() {
        let w = b.subrange(p, p + 5);
        assert(b[p] == w[0]);
        if w == seq![0x66u8, 0x61u8, 0x6cu8, 0x73u8, 0x65u8] {
            assert(b.subrange(p + 1, p + 5) =~= seq![0x61u8, 0x6cu8, 0x73u8, 0x65u8]);
        }
    }
    assert forall|k: int|
        b[p] == 0x22u8 && p < k && #[trigger] unescaped_quote_at(b, k) && (forall|q: int|
            p + 1 <= q < k ==> !#[trigger] unescaped_quote_at(b, q)) && valid_utf8(b.subrange(p + 1, k))
        implies next_token_step(b, i) == LexStep::Emit(TokenView::Str(decode_utf8(b.subrange(p + 1, k))), k + 1) by {
        let c = closing_quote(b, p + 1);
        if c < k {
            assert(!unescaped_quote_at(b, c));
        } else if k < c {
            assert(!unescaped_quote_at(b, k));
        }
    }
    assert forall|j: int|
        (b[p] == 0x2du8 || (0x30u8 <= b[p] && b[p] <= 0x39u8)) && p < j < b.len() && !digit_or_point(#[trigger] b[j])
            && (forall|q: int| p < q < j ==> digit_or_point(#[trigger] b[q])) && valid_utf8(b.subrange(p, j))
        implies next_token_step(b, i) == LexStep::Emit(TokenView::Num(decode_utf8(b.subrange(p, j))), j) by {
        let e = number_end(b, p + 1);
        if e < j {
            assert(!digit_or_point(b[e]));
        } else if j < e {
            assert(digit_or_point(b[j]));
        }
    }
}

/// The position of the byte `close` that balances an already-open bracket,
/// scanning from `j` with `count` brackets open (the input length when the
/// input ends first).  A string literal is skipped whole: a bracket inside
/// one does not count.
pub open spec fn balance_end(b: Seq<u8>, j: int, count: nat, open: u8, close: u8) -> int
    decreases b.len() - j,
{
    if 0 <= j < b.len() {
        if b[j] == 0x22u8 {
            let k = closing_quote(b, j + 1);
            if j < k < b.len() {
                balance_end(b, k + 1, count, open, close)
            } else {
                b.len() as int
            }
        } else if b[j] == open {
            balance_end(b, j + 1, count + 1, open, close)
        } else if b[j] == close {
            if count <= 1 {
                j
            } else {
                balance_end(b, j + 1, (count - 1) as nat, open, close)
            }
        } else {
            balance_end(b, j + 1, count, open, close)
        }
    } else {
        b.len() as int
    }
}

/// Reading the raw text of a container from position `i`, `count` brackets
/// being open: the text from `ts` (when the container closes and the text is
/// valid UTF-8) and the new position.  With `keep_close` the closing byte is
/// part of the text.
pub open spec fn consume_from(b: Seq<u8>, i: int, open: u8, close: u8, count: nat, ts: int, keep_close: bool) -> (
    Option<Seq<char>>,
    int,
) {
    let j0 = skip_ws(b, i);
    let k = balance_end(b, j0, count, open, close);
    if k < b.len() {
        let end = if keep_close {
            k + 1
        } else {
            k
        };
        (if ts <= end {
            text_of(b, ts, end)
        } else {
            None
        }, k + 1)
    } else if j0 >= b.len() {
        (None, j0)
    } else {
        (None, b.len() as int)
    }
}

/// Reading the raw text of an object whose `{` sits at `i - 1`, up to and
/// including the balancing `}`.
pub open spec fn consume_step(b: Seq<u8>, i: int, open: u8, close: u8, keep_close: bool) -> (
    Option<Seq<char>>,
    int,
) {
    consume_from(b, i, open, close, 1, i - 1, keep_close)
}

/// Reading the raw text of an array whose `[` ends at `start`, from position
/// `i` (after its first token, `nested` when that token is a `[`): the text
/// between the brackets, from the first token on.
pub open spec fn consume_array(b: Seq<u8>, i: int, start: int, nested: bool) -> (Option<Seq<char>>, int) {
    consume_from(
        b,
        i,
        0x5bu8,
        0x5du8,
        if nested {
            2
        } else {
            1
        },
        skip_ws(b, start),
        false,
    )
}

/// The outcome of lexing a whole input from position `i`: the tokens read,
/// or `None` when the lexer would halt or loop forever (a token that does not
/// advance the position is produced again and again).
pub open spec fn lex_steps(b: Seq<u8>, i: int) -> Option<Seq<TokenView>>
    decreases b.len() - i,
{
    if i >= b.len() {
        Some(seq![])
    } else {
        match next_token_step(b, i) {
            LexStep::Emit(t, j) => if j <= i {
                None
            } else {
                match lex_steps(b, j) {
                    Some(rest) => Some(seq![t] + rest),
                    None => None,
                }
            },
            LexStep::Stop(_) => Some(seq![]),
            LexStep::Halt => None,
        }
    }
}

// ---------------------------------------------------------------------------
// UTF-8 validation (simdutf8)
// ---------------------------------------------------------------------------

/// Calls `simdutf8::basic::from_utf8`, which, like `core::str::from_utf8`,
/// succeeds exactly when the bytes are valid UTF-8 and then returns the same
/// bytes viewed as a string.  Claimed: `Some` iff `valid_utf8(bytes)`, and the
/// string's characters are the UTF-8 decoding of the bytes.
#[verifier::external_body]
pub(crate) fn utf8_str<'a>(bytes: &'a [u8]) -> (r: Option<&'a str>)
    ensures
        r is Some <==> valid_utf8(bytes@),
        r matches Some(s) ==> s@ == decode_utf8(bytes@),
{
    simdutf8::basic::from_utf8(bytes).ok()
}

// ---------------------------------------------------------------------------
// SliceRead
// ---------------------------------------------------------------------------

/// A cursor over a byte slice.
pub struct SliceRead<'a> {
    slice: &'a [u8],
    index: usize,
}

impl<'a> SliceRead<'a> {
    /// The bytes read.
    pub closed spec fn bytes(&self) -> Seq<u8> {
        self.slice@
    }

    /// The current position.
    pub closed spec fn pos(&self) -> int {
        self.index as int
    }

    pub proof fn lemma_reader_pos_nonneg(&self)
        ensures
            0 <= self.pos(),
    {
    }

    pub fn new(slice: &'a [u8]) -> (r: Self)
        ensures
            r.bytes() == slice@,
            r.pos() == 0,
    {
        SliceRead { slice, index: 0 }
    }

    /// The byte at the position, advancing past it; `None` at the end.
    pub fn next(&mut self) -> (r: Option<u8>)
        ensures
            final(self).bytes() == old(self).bytes(),
            old(self).pos() < old(self).bytes().len() ==> r == Some(old(self).bytes()[old(self).pos()])
                && final(self).pos() == old(self).pos() + 1,
            old(self).pos() >= old(self).bytes().len() ==> r is None && final(self).pos()
                == old(self).pos(),
    {
        if self.index < self.slice.len() {
            let result = self.slice[self.index];
            self.index += 1;
            Some(result)
        } else {
            None
        }
    }

    /// The byte at the position, without advancing; `None` at the end.
    pub fn peek(&self) -> (r: Option<u8>)
        ensures
            self.pos() < self.bytes().len() ==> r == Some(self.bytes()[self.pos()]),
            self.pos() >= self.bytes().len() ==> r is None,
    {
        if self.index < self.slice.len() {
            Some(self.slice[self.index])
        } else {
            None
        }
    }

    /// Advances past ASCII whitespace.
    pub fn skip_whitespace(&mut self)
        ensures
            final(self).bytes() == old(self).bytes(),
            final(self).pos() == skip_ws(old(self).bytes(), old(self).pos()),
    {
        while self.index < self.slice.len() && byte_is_ws(self.slice[self.index])
            invariant
                self.bytes() == old(self).bytes(),
                skip_ws(self.bytes(), self.pos()) == skip_ws(old(self).bytes(), old(self).pos()),
            decreases self.slice@.len() - self.index,
        {
            self.index += 1;
        }
    }

    /// The bytes from `start` up to the position.
    pub fn slice_from(&self, start: usize) -> (r: &'a [u8])
        requires
            start <= self.pos() <= self.bytes().len(),
        ensures
            r@ == self.bytes().subrange(start as int, self.pos()),
    {
        &self.slice[start..self.index]
    }

    pub fn is_at_end(&self) -> (r: bool)
        ensures
            r == (self.pos() >= self.bytes().len()),
    {
        self.index >= self.slice.len()
    }

    /// Advances past `pattern` when the input continues with it.
    pub fn match_pattern(&mut self, pattern: &[u8]) -> (r: bool)
        requires
            old(self).pos() + pattern@.len() <= usize::MAX,
        ensures
            final(self).bytes() == old(self).bytes(),
            r == has_at(old(self).bytes(), old(self).pos(), pattern@),
            r ==> final(self).pos() == old(self).pos() + pattern@.len(),
            !r ==> final(self).pos() == old(self).pos(),
    {
        let end = self.index + pattern.len();
        if end <= self.slice.len() {
            let mut k: usize = 0;
            while k < pattern.len()
                invariant
                    self.index + pattern@.len() == end <= self.slice@.len(),
                    k <= pattern@.len(),
                    forall|m: int| 0 <= m < k ==> self.slice@[self.index + m] == pattern@[m],
                decreases pattern@.len() - k,
            {
                if self.slice[self.index + k] != pattern[k] {
                    proof {
                        assert(self.slice@.subrange(self.index as int, end as int)[k as int]
                            != pattern@[k as int]);
                    }
                    return false;
                }
                k += 1;
            }
            proof {
                assert(self.slice@.subrange(self.index as int, end as int) =~= pattern@);
            }
            self.index = end;
            true
        } else {
            false
        }
    }
}

// ---------------------------------------------------------------------------
// Lexer
// ---------------------------------------------------------------------------

/// Turns JSON bytes into tokens.
pub struct Lexer<'a> {
    reader: SliceRead<'a>,
}

impl<'a> Lexer<'a> {
    /// The input bytes.
    pub closed spec fn bytes(&self) -> Seq<u8> {
        self.reader.slice@
    }

    /// The current position in the input.
    pub closed spec fn pos(&self) -> int {
        self.reader.index as int
    }

    pub proof fn lemma_pos_nonneg(&self)
        ensures
            0 <= self.pos(),
    {
    }

    pub fn new(input: &'a [u8]) -> (r: Self)
        ensures
            r.bytes() == input@,
            r.pos() == 0,
    {
        Lexer { reader: SliceRead::new(input) }
    }

    pub fn reader_index(&self) -> (r: usize)
        ensures
            r == self.pos(),
    {
        self.reader.index
    }

    pub fn set_reader_index(&mut self, index: usize)
        ensures
            final(self).bytes() == old(self).bytes(),
            final(self).pos() == index,
    {
        self.reader.index = index;
    }

    /// Whether `next_token` would halt from the current position.
    pub fn next_token_halts(&self) -> (r: bool)
        ensures
            r == (next_token_step(self.bytes(), self.pos()) is Halt),
    {
        let len = self.reader.slice.len();
        let mut p = self.reader.index;
        while p < len && byte_is_ws(self.reader.slice[p])
            invariant
                len == self.bytes().len(),
                skip_ws(self.bytes(), p as int) == skip_ws(self.bytes(), self.pos()),
            decreases len - p,
        {
            p += 1;
        }
        p < len && self.reader.slice[p] == 0x22u8 && p + 1 >= len
    }

    /// Where the whitespace from `p` ends.
    pub fn whitespace_end(&self, p: usize) -> (r: usize)
        requires
            p <= self.bytes().len(),
        ensures
            r == skip_ws(self.bytes(), p as int),
    {
        let mut q = p;
        while q < self.reader.slice.len() && byte_is_ws(self.reader.slice[q])
            invariant
                p <= q <= self.bytes().len(),
                skip_ws(self.bytes(), q as int) == skip_ws(self.bytes(), p as int),
            decreases self.bytes().len() - q,
        {
            q += 1;
        }
        q
    }

    /// Reads the raw text of an array whose `[` ends at `start`, the reader
    /// being past its first token (`nested`: that token was a `[`), up to but
    /// excluding the balancing `]`.
    pub fn consume_string_until_end_of_array(&mut self, start: usize, nested: bool) -> (r: Option<&'a str>)
        requires
            1 <= old(self).pos() <= old(self).bytes().len(),
            old(self).bytes().len() + 4 <= usize::MAX,
            start <= old(self).pos(),
        ensures
            final(self).bytes() == old(self).bytes(),
            ({
                let (text, j) = consume_array(old(self).bytes(), old(self).pos(), start as int, nested);
                &&& final(self).pos() == j
                &&& match r {
                    Some(s) => text == Some(s@),
                    None => text is None,
                }
            }),
    {
        let ts = self.whitespace_end(start);
        let count: usize = if nested {
            2
        } else {
            1
        };
        self.consume_balanced(0x5bu8, 0x5du8, false, count, ts)
    }

    /// Reads the raw text of an object whose `{` was the last byte consumed
    /// (`pos() - 1`), up to and including the balancing `}`.
    pub fn consume_string_until_end_of_object(&mut self) -> (r: Option<&'a str>)
        requires
            old(self).pos() >= 1,
            old(self).bytes().len() + 4 <= usize::MAX,
        ensures
            final(self).bytes() == old(self).bytes(),
            ({
                let (text, j) = consume_step(
                    old(self).bytes(),
                    old(self).pos(),
                    0x7bu8,
                    0x7du8,
                    true,
                );
                &&& final(self).pos() == j
                &&& match r {
                    Some(s) => text == Some(s@),
                    None => text is None,
                }
            }),
    {
        let ts = self.reader.index - 1;
        self.consume_balanced(0x7bu8, 0x7du8, true, 1, ts)
    }

    fn consume_balanced(&mut self, open: u8, close: u8, keep_close: bool, count0: usize, ts: usize) -> (r: Option<&'a str>)
        requires
            old(self).pos() >= 1,
            old(self).bytes().len() + 4 <= usize::MAX,
            1 <= count0 <= 2,
            open != 0x22u8,
            close != 0x22u8,
        ensures
            final(self).bytes() == old(self).bytes(),
            ({
                let (text, j) = consume_from(old(self).bytes(), old(self).pos(), open, close, count0 as nat, ts as int, keep_close);
                &&& final(self).pos() == j
                &&& match r {
                    Some(s) => text == Some(s@),
                    None => text is None,
                }
            }),
    {
        let ghost b = self.bytes();
        let ghost i0 = self.pos();
        let mut count: usize = count0;
        self.reader.skip_whitespace();
        let ghost j0 = self.pos();
        let len = self.reader.slice.len();
        proof {
            lemma_skip_ws_bounds(b, i0);
        }
        if self.reader.index >= len {
            return None;
        }
        while self.reader.index < len
            invariant
                self.bytes() == b,
                b == old(self).bytes(),
                i0 == old(self).pos(),
                len == b.len(),
                i0 >= 1,
                len + 4 <= usize::MAX,
                j0 == skip_ws(b, i0),
                i0 <= j0 < len,
                j0 <= self.pos() <= len,
                1 <= count <= self.pos() + 2,
                self.pos() <= len,
                open != 0x22u8,
                close != 0x22u8,
                balance_end(b, self.pos(), count as nat, open, close) == balance_end(
                    b,
                    j0,
                    count0 as nat,
                    open,
                    close,
                ),
            decreases len - self.reader.index,
        {
            let p = self.reader.index;
            let c = self.reader.slice[p];
            self.reader.index += 1;
            if c == 0x22u8 {
                let mut q = p + 1;
                while q < len && !(self.reader.slice[q] == 0x22u8 && self.reader.slice[q - 1] != 0x5cu8)
                    invariant
                        self.bytes() == b,
                        len == b.len(),
                        p + 1 <= q <= len,
                        closing_quote(b, q as int) == closing_quote(b, p + 1),
                    decreases len - q,
                {
                    q += 1;
                }
                proof {
                    lemma_quote_ahead(b, p + 1);
                }
                if q >= len {
                    self.reader.index = len;
                    return None;
                }
                self.reader.index = q + 1;
            } else if c == open {
                count += 1;
            } else if c == close {
                if count == 1 {
                    let end = if keep_close {
                        self.reader.index
                    } else {
                        self.reader.index - 1
                    };
                    if ts > end {
                        return None;
                    }
                    let bytes = &self.reader.slice[ts..end];
                    return utf8_str(bytes);
                } else {
                    count -= 1;
                }
            }
        }
        None
    }

    /// Reads the next token.
    pub fn next_token(&mut self) -> (r: Option<Token<'a>>)
        requires
            old(self).bytes().len() + 4 <= usize::MAX,
            !(next_token_step(old(self).bytes(), old(self).pos()) is Halt),
        ensures
            final(self).bytes() == old(self).bytes(),
            match next_token_step(old(self).bytes(), old(self).pos()) {
                LexStep::Emit(t, j) => r matches Some(tok) && tok@ == t && final(self).pos() == j,
                LexStep::Stop(j) => r is None && final(self).pos() == j,
                LexStep::Halt => false,
            },
    {
        let ghost b = self.bytes();
        self.reader.skip_whitespace();
        let ghost p = self.pos();
        let len = self.reader.slice.len();
        let c = match self.reader.next() {
            Some(c) => c,
            None => return None,
        };
        if c == 0x7bu8 {
            Some(Token::CurlyOpen)
        } else if c == 0x7du8 {
            Some(Token::CurlyClose)
        } else if c == 0x5bu8 {
            Some(Token::SquareOpen)
        } else if c == 0x5du8 {
            Some(Token::SquareClose)
        } else if c == 0x2cu8 {
            Some(Token::Comma)
        } else if c == 0x3au8 {
            Some(Token::Colon)
        } else if c == 0x2du8 || (0x30u8 <= c && c <= 0x39u8) {
            let start = self.reader.index - 1;
            while self.reader.index < len && byte_is_number_rest(self.reader.slice[self.reader.index])
                invariant
                    self.bytes() == b,
                    len == b.len(),
                    0 <= p < len,
                    start == p,
                    p + 1 <= self.pos() <= len,
                    number_end(b, self.pos()) == number_end(b, p + 1),
                decreases len - self.reader.index,
            {
                self.reader.index += 1;
            }
            if self.reader.index == len {
                self.reader.index = len - 1;
            }
            let bytes = self.reader.slice_from(start);
            match utf8_str(bytes) {
                Some(s) => Some(Token::Number(s)),
                None => None,
            }
        } else if c == 0x22u8 {
            let start = self.reader.index;
            let mut found = false;
            while !found && self.reader.index < len
                invariant
                    self.bytes() == b,
                    len == b.len(),
                    0 <= p < len,
                    start == p + 1,
                    start <= self.pos() <= len,
                    !found ==> closing_quote(b, self.pos()) == closing_quote(b, start as int),
                    found ==> closing_quote(b, start as int) == self.pos() - 1 && self.pos() >= start + 1,
                decreases len - self.reader.index,
            {
                let d = self.reader.slice[self.reader.index];
                self.reader.index += 1;
                if d == 0x22u8 && self.reader.slice[self.reader.index - 2] != 0x5cu8 {
                    found = true;
                }
            }
            let end = self.reader.index - 1;
            let bytes = &self.reader.slice[start..end];
            match utf8_str(bytes) {
                Some(s) => Some(Token::String(s)),
                None => None,
            }
        } else if c == 0x74u8 && self.reader.match_pattern([0x72u8, 0x75u8, 0x65u8].as_slice()) {
            Some(Token::Boolean(true))
        } else if c == 0x66u8 && self.reader.match_pattern(
            [0x61u8, 0x6cu8, 0x73u8, 0x65u8].as_slice(),
        ) {
            Some(Token::Boolean(false))
        } else if c == 0x6eu8 && self.reader.match_pattern([0x75u8, 0x6cu8, 0x6cu8].as_slice()) {
            Some(Token::Null)
        } else {
            None
        }
    }

    /// Reads tokens until the input ends or no token can be read.
    pub fn lex(&mut self) -> (r: Vec<Token<'a>>)
        requires
            old(self).bytes().len() + 4 <= usize::MAX,
            lex_steps(old(self).bytes(), old(self).pos()) is Some,
        ensures
            final(self).bytes() == old(self).bytes(),
            lex_steps(old(self).bytes(), old(self).pos()) == Some(r@.map_values(|t: Token<'a>| t@)),
    {
        let ghost b = self.bytes();
        let ghost i0 = self.pos();
        let mut tokens: Vec<Token<'a>> = Vec::new();
        let len = self.reader.slice.len();
        while self.reader.index < len
            invariant
                self.bytes() == b,
                b == old(self).bytes(),
                i0 == old(self).pos(),
                len == b.len(),
                b.len() + 4 <= usize::MAX,
                lex_steps(b, self.pos()) is Some,
                lex_steps(b, i0) == Some(
                    tokens@.map_values(|t: Token<'a>| t@) + lex_steps(b, self.pos()).unwrap(),
                ),
            decreases len - self.reader.index,
        {
            let ghost i = self.pos();
            match self.next_token() {
                Some(token) => {
                    proof {
                        let rest = lex_steps(b, self.pos()).unwrap();
                        assert(tokens@.push(token).map_values(|t: Token<'a>| t@) =~= tokens@.map_values(
                            |t: Token<'a>| t@,
                        ).push(token@));
                        assert(seq![token@] + rest =~= lex_steps(b, i).unwrap());
                    }
                    tokens.push(token);
                    proof {
                        assert(tokens@.map_values(|t: Token<'a>| t@) + lex_steps(b, self.pos()).unwrap()
                            =~= lex_steps(b, i0).unwrap());
                    }
                },
                None => {
                    proof {
                        assert(tokens@.map_values(|t: Token<'a>| t@) =~= lex_steps(b, i0).unwrap());
                    }
                    return tokens;
                },
            }
        }
        proof {
            assert(tokens@.map_values(|t: Token<'a>| t@) =~= lex_steps(b, i0).unwrap());
        }
        tokens
    }
}

/// Law: reading a token again from a saved position gives the same token
/// and position: the input never changes, and what is read depends on the
/// input and the position alone.
pub proof fn law_replay_from_saved_index(before: Lexer, after_reset: Lexer)
    requires
        after_reset.bytes() == before.bytes(),
        after_reset.pos() == before.pos(),
    ensures
        next_token_step(after_reset.bytes(), after_reset.pos()) == next_token_step(before.bytes(), before.pos()),
{
}

} // verus!
