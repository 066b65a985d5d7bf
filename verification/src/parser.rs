//! The flat JSON parser.
//!
//! `Parser::parse` reads a JSON document whose root is an object or an array
//! and emits one `(PointerKey, Option<String>)` entry per value, in document
//! order.  Every function is proved equal to its counterpart in `model`.
use vstd::prelude::*;
use vstd::string::StringSliceAdditionalSpecFns;
use crate::lexer::{Lexer, Token, opt_token_view};
use crate::model::{
    EntryView, Flow, OptionsView, PState, ParseOutcome, element_rest, elements, lemma_step, measure, members, parse_document, parse_value, pop_route, process, route_text, token_debug_text, str_debug_text, lemma_consume, advance, lemma_parse_value_mono, lemma_advance, lemma_element_rest_flow,
};
use crate::text::{concat2, concat3, str_starts_with, usize_text};

verus! {

// ---------------------------------------------------------------------------
// Value types and entries
// ---------------------------------------------------------------------------

/// The type of a JSON value.
#[derive(PartialEq, Eq, Structural, Debug, Clone, Copy)]
pub enum ValueType {
    Array,
    Object,
    Number,
    String,
    Bool,
    Null,
    /// No value has been seen yet.
    Unset,
}

/// A JSON pointer with the type of the value it points to and the depth
/// (`index`) at which the parser found it.
#[derive(Debug)]
pub struct PointerKey {
    pub pointer: String,
    pub value_type: ValueType,
    pub index: usize,
}

impl PartialEq for PointerKey {
    /// Two keys are equal when their pointers are.
    fn eq(&self, other: &Self) -> (r: bool) {
        self.pointer == other.pointer
    }
}

impl vstd::std_specs::cmp::PartialEqSpecImpl for PointerKey {
    open spec fn obeys_eq_spec() -> bool {
        true
    }

    open spec fn eq_spec(&self, other: &Self) -> bool {
        self.pointer@ == other.pointer@
    }
}

/// The pointer of the parent of `pointer`: everything before its last `/`,
/// or `/` when that `/` is the first character (or there is none).
pub open spec fn parent_pointer(pointer: Seq<char>) -> Seq<char> {
    let k = last_slash(pointer, pointer.len() as int);
    if k <= 0 {
        "/"@
    } else {
        pointer.subrange(0, k)
    }
}

/// The position of the last `/` before position `end`, or -1.
pub open spec fn last_slash(s: Seq<char>, end: int) -> int
    decreases end,
{
    if end <= 0 {
        -1
    } else if s[end - 1] == '/' {
        end - 1
    } else {
        last_slash(s, end - 1)
    }
}

impl PointerKey {
    pub fn from_pointer(pointer: String, value_type: ValueType, index: usize) -> (r: Self)
        ensures
            r.pointer == pointer,
            r.value_type == value_type,
            r.index == index,
    {
        Self { pointer, value_type, index }
    }

    /// The pointer of the enclosing value.
    pub fn parent(&self) -> (r: &str)
        ensures
            r@ == parent_pointer(self.pointer@),
    {
        let s = self.pointer.as_str();
        let n = s.unicode_len();
        let mut k = n;
        while k > 0 && s.get_char(k - 1) != '/'
            invariant
                k <= n == s@.len(),
                last_slash(s@, k as int) == last_slash(s@, n as int),
            decreases k,
        {
            k -= 1;
        }
        if k <= 1 {
            "/"
        } else {
            s.substring_char(0, k - 1)
        }
    }
}

/// The value of an entry in the model.
pub open spec fn entry_view(e: (PointerKey, Option<String>)) -> EntryView {
    EntryView {
        pointer: e.0.pointer@,
        value_type: e.0.value_type,
        index: e.0.index as nat,
        value: match e.1 {
            Some(v) => Some(v@),
            None => None,
        },
    }
}

pub open spec fn out_view(v: Seq<(PointerKey, Option<String>)>) -> Seq<EntryView> {
    v.map_values(|e: (PointerKey, Option<String>)| entry_view(e))
}

pub open spec fn route_view(r: Seq<String>) -> Seq<Seq<char>> {
    r.map_values(|s: String| s@)
}

pub open spec fn opt_text(o: Option<String>) -> Option<Seq<char>> {
    match o {
        Some(s) => Some(s@),
        None => None,
    }
}

proof fn lemma_route_push(r: Seq<String>, x: String)
    ensures
        route_view(r.push(x)) == route_view(r).push(x@),
{
    assert(route_view(r.push(x)) =~= route_view(r).push(x@));
}

proof fn lemma_route_pop(r: Seq<String>)
    ensures
        r.len() > 0 ==> route_view(r.drop_last()) == pop_route(route_view(r)),
{
    if r.len() > 0 {
        assert(route_view(r.drop_last()) =~= route_view(r).drop_last());
    }
}

pub(crate) proof fn lemma_out_push(v: Seq<(PointerKey, Option<String>)>, e: (PointerKey, Option<String>))
    ensures
        out_view(v.push(e)) == out_view(v).push(entry_view(e)),
{
    assert(out_view(v.push(e)) =~= out_view(v).push(entry_view(e)));
}

fn clone_opt(o: &Option<String>) -> (r: Option<String>)
    ensures
        r == *o,
{
    match o {
        Some(s) => Some(s.clone()),
        None => None,
    }
}

// ---------------------------------------------------------------------------
// Options and results
// ---------------------------------------------------------------------------

/// How a document is parsed.
pub struct ParseOptions {
    /// Parse array elements one by one; otherwise keep arrays as raw text.
    pub parse_array: bool,
    /// Values deeper than this are not emitted.
    pub max_depth: u8,
    /// Parse the elements of the array at this pointer, and emit scalars only
    /// under it.
    pub start_parse_at: Option<String>,
    /// A fragment put in front of every pointer.
    pub prefix: Option<String>,
}

impl View for ParseOptions {
    type V = OptionsView;

    open spec fn view(&self) -> OptionsView {
        OptionsView {
            parse_array: self.parse_array,
            max_depth: self.max_depth as nat,
            start_parse_at: opt_text(self.start_parse_at),
            prefix: opt_text(self.prefix),
        }
    }
}

impl Default for ParseOptions {
    fn default() -> (r: Self)
        ensures
            r.parse_array,
            r.max_depth == 10,
            r.start_parse_at is None,
            r.prefix is None,
    {
        ParseOptions { parse_array: true, max_depth: 10, start_parse_at: None, prefix: None }
    }
}

impl ParseOptions {
    pub fn parse_array(self, parse_array: bool) -> (r: Self)
        ensures
            r == (ParseOptions { parse_array, ..self }),
    {
        ParseOptions { parse_array, ..self }
    }

    pub fn max_depth(self, max_depth: u8) -> (r: Self)
        ensures
            r == (ParseOptions { max_depth, ..self }),
    {
        ParseOptions { max_depth, ..self }
    }

    pub fn start_parse_at(self, pointer: String) -> (r: Self)
        ensures
            r == (ParseOptions { start_parse_at: Some(pointer), ..self }),
    {
        ParseOptions { start_parse_at: Some(pointer), ..self }
    }

    pub fn prefix(self, prefix: String) -> (r: Self)
        ensures
            r == (ParseOptions { prefix: Some(prefix), ..self }),
    {
        ParseOptions { prefix: Some(prefix), ..self }
    }
}

/// The entries of a document and facts gathered while parsing it.
pub struct ParseResult {
    pub json: Vec<(PointerKey, Option<String>)>,
    /// The deepest object depth reached.
    pub max_json_depth: usize,
    pub parsing_max_depth: u8,
    pub root_value_type: ValueType,
    pub root_array_len: usize,
    pub started_parsing_at: Option<String>,
    pub parsing_prefix: Option<String>,
}

/// The result a parse that ended in state `s` returns.
pub open spec fn result_matches(r: ParseResult, s: PState, o: OptionsView) -> bool {
    &&& out_view(r.json@) == s.out
    &&& r.max_json_depth == s.max_depth
    &&& r.parsing_max_depth == o.max_depth
    &&& r.root_value_type == s.root_type
    &&& r.root_array_len == s.root_len
    &&& opt_text(r.started_parsing_at) == o.start_parse_at
    &&& opt_text(r.parsing_prefix) == o.prefix
}

/// The state of a new parser whose lexer is at `pos`.
pub open spec fn initial_state(pos: int) -> PState {
    PState {
        pos: pos,
        cur: None,
        seen: false,
        max_depth: 0,
        root_type: ValueType::Unset,
        root_len: 0,
        depth_after: 1,
        route: seq![],
        out: seq![],
    }
}

// ---------------------------------------------------------------------------
// Debug text of tokens
// ---------------------------------------------------------------------------

/// Calls `format!("{:?}", s)`, std's `Debug` for `str`.  Claimed: the text
/// is `str_debug_text` of the string.
#[verifier::external_body]
fn str_debug(s: &str) -> (r: String)
    ensures
        r@ == str_debug_text(s@),
{
    format!("{:?}", s)
}

/// A token as the error messages show it (see `token_debug_text`).
pub fn token_debug(t: &Token) -> (s: String)
    ensures
        s@ == token_debug_text(t@),
{
    match t {
        Token::CurlyOpen => "CurlyOpen".to_string(),
        Token::CurlyClose => "CurlyClose".to_string(),
        Token::SquareOpen => "SquareOpen".to_string(),
        Token::SquareClose => "SquareClose".to_string(),
        Token::Colon => "Colon".to_string(),
        Token::Comma => "Comma".to_string(),
        Token::String(v) => concat3("String(", str_debug(v).as_str(), ")"),
        Token::Number(v) => concat3("Number(", str_debug(v).as_str(), ")"),
        Token::Boolean(v) => if *v {
            "Boolean(true)".to_string()
        } else {
            "Boolean(false)".to_string()
        },
        Token::Null => "Null".to_string(),
    }
}

// ---------------------------------------------------------------------------
// The parser
// ---------------------------------------------------------------------------

/// Why a phase of the parser stopped early: an error it reports, or a halt
/// (the input would make the parser panic or loop forever).
enum Failure {
    Message(String),
    Halted,
}

spec fn flow_of(r: Result<(), Failure>) -> Flow {
    match r {
        Ok(()) => Flow::Done,
        Err(Failure::Message(m)) => Flow::Fail(m@),
        Err(Failure::Halted) => Flow::Halt,
    }
}

pub struct Parser<'a> {
    lexer: Lexer<'a>,
    current_token: Option<Token<'a>>,
    state_seen_start_parse_at: bool,
    pub max_depth: usize,
    root_value_type: ValueType,
    root_array_len: usize,
    pub(crate) depth_after_start_at: usize,
}

impl<'a> Parser<'a> {
    /// The input bytes.
    pub closed spec fn bytes(&self) -> Seq<u8> {
        self.lexer.bytes()
    }

    /// The lexer position.
    pub closed spec fn pos(&self) -> int {
        self.lexer.pos()
    }

    /// The parser state, with the given route and entries.
    pub closed spec fn state(&self, route: Seq<String>, out: Seq<(PointerKey, Option<String>)>) -> PState {
        PState {
            pos: self.lexer.pos(),
            cur: opt_token_view(self.current_token),
            seen: self.state_seen_start_parse_at,
            max_depth: self.max_depth as nat,
            root_type: self.root_value_type,
            root_len: self.root_array_len as nat,
            depth_after: self.depth_after_start_at as nat,
            route: route_view(route),
            out: out_view(out),
        }
    }

    /// Inputs whose positions, depths and counts fit in `usize`.
    pub open spec fn fits(&self) -> bool {
        self.bytes().len() + 512 <= usize::MAX
    }

    closed spec fn same_book(&self, other: &Self) -> bool {
        &&& self.state_seen_start_parse_at == other.state_seen_start_parse_at
        &&& self.max_depth == other.max_depth
        &&& self.root_value_type == other.root_value_type
        &&& self.root_array_len == other.root_array_len
        &&& self.depth_after_start_at == other.depth_after_start_at
    }

    pub fn new(lexer: Lexer<'a>) -> (r: Self)
        ensures
            r.bytes() == lexer.bytes(),
            r.state(seq![], seq![]) == initial_state(lexer.pos()),
    {
        let r = Self {
            lexer,
            current_token: None,
            state_seen_start_parse_at: false,
            max_depth: 0,
            root_value_type: ValueType::Unset,
            root_array_len: 0,
            depth_after_start_at: 1,
        };
        proof {
            assert(route_view(seq![]) =~= seq![]);
            assert(out_view(seq![]) =~= seq![]);
        }
        r
    }

    /// Reads the next token into `current_token`.
    fn next_token(&mut self) -> (r: Result<(), Failure>)
        requires
            old(self).fits(),
        ensures
            final(self).fits(),
            final(self).bytes() == old(self).bytes(),
            final(self).same_book(old(self)),
            old(self).pos() <= final(self).pos(),
            old(self).pos() <= old(self).bytes().len() ==> final(self).pos() <= old(self).bytes().len(),
            final(self).current_token is Some ==> final(self).pos() <= old(self).bytes().len(),
            r is Err ==> (r matches Err(Failure::Halted) && *final(self) == *old(self)),
            forall|rt: Seq<String>, ot: Seq<(PointerKey, Option<String>)>|
                #[trigger] advance(old(self).bytes(), old(self).state(rt, ot)) == if r is Ok {
                    Some(final(self).state(rt, ot))
                } else {
                    None
                },
    {
        proof {
            self.lexer.lemma_pos_nonneg();
            lemma_step(self.bytes(), self.pos());
        }
        if self.lexer.next_token_halts() {
            return Err(Failure::Halted);
        }
        self.current_token = self.lexer.next_token();
        Ok(())
    }

    /// The route's fragments concatenated.
    pub(crate) fn concat_route(route: &Vec<String>) -> (r: String)
        ensures
            r@ == route_text(route_view(route@)),
    {
        let mut res = String::new();
        let mut k: usize = 0;
        while k < route.len()
            invariant
                k <= route@.len(),
                res@ == route_text(route_view(route@.take(k as int))),
            decreases route@.len() - k,
        {
            proof {
                assert(route_view(route@.take(k + 1)).drop_last() =~= route_view(route@.take(k as int)));
            }
            res.append(route[k].as_str());
            k += 1;
        }
        proof {
            assert(route@.take(k as int) =~= route@);
        }
        res
    }

    /// Emits a scalar at the current route when it is within the depth limit
    /// and under `start_parse_at`.
    fn push_scalar(
        route: &Vec<String>,
        target: &mut Vec<(PointerKey, Option<String>)>,
        depth: usize,
        parse_option: &ParseOptions,
        value_type: ValueType,
        value: Option<String>,
    )
        ensures
            out_view(final(target)@) == (if depth <= parse_option.max_depth && match parse_option@.start_parse_at {
                Some(st) => crate::model::is_prefix(st, route_text(route_view(route@))),
                None => true,
            } {
                out_view(old(target)@).push(
                    EntryView {
                        pointer: route_text(route_view(route@)),
                        value_type,
                        index: depth as nat,
                        value: opt_text(value),
                    },
                )
            } else {
                out_view(old(target)@)
            }),
    {
        if depth <= parse_option.max_depth as usize {
            let pointer = Self::concat_route(route);
            match &parse_option.start_parse_at {
                Some(start_parse_at) => {
                    if str_starts_with(pointer.as_str(), start_parse_at.as_str()) {
                        let e = (PointerKey::from_pointer(pointer, value_type, depth), value);
                        proof {
                            lemma_out_push(target@, e);
                        }
                        target.push(e);
                    }
                },
                None => {
                    let e = (PointerKey::from_pointer(pointer, value_type, depth), value);
                    proof {
                        lemma_out_push(target@, e);
                    }
                    target.push(e);
                },
            }
        }
    }

    /// Parses the value whose first token is the current token.
    fn parse_value(
        &mut self,
        route: &mut Vec<String>,
        target: &mut Vec<(PointerKey, Option<String>)>,
        depth: usize,
        count: usize,
        parse_option: &ParseOptions,
        from_object: bool,
    ) -> (r: Result<(), Failure>)
        requires
            old(self).fits(),
            1 <= old(self).pos() <= old(self).bytes().len(),
            depth <= old(self).pos() + 255,
        ensures
            final(self).fits(),
            final(self).bytes() == old(self).bytes(),
            final(self).pos() <= final(self).bytes().len(),
            (final(self).state(final(route)@, final(target)@), flow_of(r)) == parse_value(
                old(self).bytes(),
                parse_option@,
                old(self).state(old(route)@, old(target)@),
                depth as nat,
            ),
        decreases measure(old(self).bytes(), old(self).state(old(route)@, old(target)@)), 3nat,
    {
        let ghost b = self.bytes();
        let ghost s = self.state(route@, target@);
        match self.current_token {
            None => Err(Failure::Message("Unexpected end of input".to_owned())),
            Some(Token::CurlyOpen) => {
                if depth <= parse_option.max_depth as usize {
                    let start = self.lexer.reader_index();
                    proof {
                        lemma_consume(b, s.pos, 0x7bu8, 0x7du8, true);
                    }
                    match self.lexer.consume_string_until_end_of_object() {
                        Some(object_str) => {
                            let pointer = Self::concat_route(route);
                            let e = (
                                PointerKey::from_pointer(pointer, ValueType::Object, depth),
                                Some(object_str.to_owned()),
                            );
                            proof {
                                lemma_out_push(target@, e);
                            }
                            target.push(e);
                            self.lexer.set_reader_index(start);
                            let r = self.process(route, target, depth + 1, count, parse_option);
                            match r {
                                Err(Failure::Halted) => Err(Failure::Halted),
                                _ => Ok(()),
                            }
                        },
                        None => Ok(()),
                    }
                } else {
                    let r = self.process(route, target, depth + 1, count, parse_option);
                    match r {
                        Err(Failure::Halted) => Err(Failure::Halted),
                        _ => Ok(()),
                    }
                }
            },
            Some(Token::SquareOpen) => {
                let start = self.lexer.reader_index();
                let r = self.next_token();
                proof {
                    lemma_advance(b, s);
                }
                match r {
                    Err(f) => Err(f),
                    Ok(()) => self.elements(route, target, depth, count, parse_option, start),
                }
            },
            Some(Token::String(value)) => {
                let value = value.to_owned();
                Self::push_scalar(route, target, depth, parse_option, ValueType::String, Some(value));
                Ok(())
            },
            Some(Token::Number(value)) => {
                let value = value.to_owned();
                Self::push_scalar(route, target, depth, parse_option, ValueType::Number, Some(value));
                Ok(())
            },
            Some(Token::Boolean(value)) => {
                let text = if value {
                    "true".to_owned()
                } else {
                    "false".to_owned()
                };
                Self::push_scalar(route, target, depth, parse_option, ValueType::Bool, Some(text));
                Ok(())
            },
            Some(Token::Null) => {
                Self::push_scalar(route, target, depth, parse_option, ValueType::Null, None);
                Ok(())
            },
            Some(t) => Err(Failure::Message(concat2("Unexpected token: ", token_debug(&t).as_str()))),
        }
    }

    /// The elements of an array whose `[` was just read, starting with the
    /// current token.
    #[verifier::loop_isolation(false)]
    #[verifier::spinoff_prover]
    #[verifier::rlimit(100)]
    fn elements(
        &mut self,
        route: &mut Vec<String>,
        target: &mut Vec<(PointerKey, Option<String>)>,
        depth: usize,
        count: usize,
        parse_option: &ParseOptions,
        start: usize,
    ) -> (r: Result<(), Failure>)
        requires
            old(self).fits(),
            1 <= old(self).pos() <= old(self).bytes().len(),
            start <= old(self).pos(),
            depth <= old(self).pos() + 255,
        ensures
            final(self).fits(),
            final(self).bytes() == old(self).bytes(),
            final(self).pos() <= final(self).bytes().len(),
            (final(self).state(final(route)@, final(target)@), flow_of(r)) == elements(
                old(self).bytes(),
                parse_option@,
                old(self).state(old(route)@, old(target)@),
                depth as nat,
                start as int,
            ),
        decreases measure(old(self).bytes(), old(self).state(old(route)@, old(target)@)), 5nat,
    {
        let ghost b = self.bytes();
        let ghost entry = self.state(route@, target@);
        let ghost goal = elements(b, parse_option@, entry, depth as nat, start as int);
        loop
            invariant
                self.fits(),
                self.bytes() == b,
                1 <= self.pos() <= b.len(),
                start <= self.pos(),
                depth <= self.pos() + 255,
                measure(b, self.state(route@, target@)) <= measure(b, entry),
                elements(b, parse_option@, self.state(route@, target@), depth as nat, start as int) == goal,
            decreases measure(b, self.state(route@, target@)),
        {
            let ghost s = self.state(route@, target@);
            match self.current_token {
                None => {
                    return Ok(());
                },
                Some(Token::SquareClose) => {
                    proof {
                        lemma_route_pop(route@);
                    }
                    route.pop();
                    return Ok(());
                },
                _ => {},
            }
            let pos0 = self.lexer.reader_index();
            let parse_elements = parse_option.parse_array || match &parse_option.start_parse_at {
                Some(start_parse_at) => !self.state_seen_start_parse_at && start_parse_at.eq(
                    &Self::concat_route(route),
                ),
                None => false,
            };
            if parse_elements {
                let zero = "/0".to_owned();
                proof {
                    lemma_route_push(route@, zero);
                }
                route.push(zero);
                let ghost s1 = self.state(route@, target@);
                let r = self.parse_value(route, target, depth, count, parse_option, false);
                proof {
                    lemma_parse_value_mono(b, parse_option@, s1, depth as nat);
                }
                match r {
                    Err(Failure::Halted) => {
                        return Err(Failure::Halted);
                    },
                    _ => {},
                }
                proof {
                    lemma_route_pop(route@);
                }
                route.pop();
                let ghost s3 = self.state(route@, target@);
                let r = self.next_token();
                proof {
                    lemma_advance(b, s3);
                }
                match r {
                    Err(f) => {
                        return Err(f);
                    },
                    Ok(()) => {},
                }
                let ghost s4 = self.state(route@, target@);
                let r = self.element_rest(route, target, depth, count, parse_option, 1);
                proof {
                    lemma_element_rest_flow(b, parse_option@, s4, depth as nat, 1);
                }
                match r {
                    Err(f) => {
                        return Err(f);
                    },
                    Ok(()) => {},
                }
                if self.current_token.is_none() {
                    return Ok(());
                }
                if self.lexer.reader_index() <= pos0 {
                    return Err(Failure::Halted);
                }
            } else {
                let nested = match self.current_token {
                    Some(Token::SquareOpen) => true,
                    _ => false,
                };
                proof {
                    crate::model::lemma_consume_array(b, s.pos, start as int, nested);
                }
                match self.lexer.consume_string_until_end_of_array(start, nested) {
                    Some(array_str) => {
                        if depth <= parse_option.max_depth as usize {
                            let pointer = Self::concat_route(route);
                            let e = (
                                PointerKey::from_pointer(pointer, ValueType::Array, depth),
                                Some(concat3("[", array_str, "]")),
                            );
                            proof {
                                lemma_out_push(target@, e);
                            }
                            target.push(e);
                        }
                        return Ok(());
                    },
                    None => {
                        if self.lexer.reader_index() <= pos0 {
                            return Err(Failure::Halted);
                        }
                    },
                }
            }
        }
    }

    /// Records the array as the root the first time the element loop ends
    /// on a token other than a comma.
    fn end_elements(&mut self, depth: usize, i: usize)
        requires
            depth + 1 <= usize::MAX,
        ensures
            *final(self) == (if old(self).current_token is Some && !old(self).state_seen_start_parse_at {
                Parser {
                    state_seen_start_parse_at: true,
                    root_value_type: ValueType::Array,
                    root_array_len: i,
                    depth_after_start_at: (depth + 1) as usize,
                    ..*old(self)
                }
            } else {
                *old(self)
            }),
    {
        if self.current_token.is_some() && !self.state_seen_start_parse_at {
            self.state_seen_start_parse_at = true;
            self.root_value_type = ValueType::Array;
            self.root_array_len = i;
            self.depth_after_start_at = depth + 1;
        }
    }

    /// The elements after the first, starting with the current token; `i` is
    /// the number of the next element.
    #[verifier::loop_isolation(false)]
    fn element_rest(
        &mut self,
        route: &mut Vec<String>,
        target: &mut Vec<(PointerKey, Option<String>)>,
        depth: usize,
        count: usize,
        parse_option: &ParseOptions,
        i: usize,
    ) -> (r: Result<(), Failure>)
        requires
            old(self).fits(),
            1 <= old(self).pos() <= old(self).bytes().len(),
            depth <= old(self).pos() + 255,
            i <= old(self).pos(),
        ensures
            final(self).fits(),
            final(self).bytes() == old(self).bytes(),
            final(self).pos() <= final(self).bytes().len(),
            (final(self).state(final(route)@, final(target)@), flow_of(r)) == element_rest(
                old(self).bytes(),
                parse_option@,
                old(self).state(old(route)@, old(target)@),
                depth as nat,
                i as nat,
            ),
        decreases measure(old(self).bytes(), old(self).state(old(route)@, old(target)@)), 4nat,
    {
        let ghost b = self.bytes();
        let ghost entry = self.state(route@, target@);
        let ghost goal = element_rest(b, parse_option@, entry, depth as nat, i as nat);
        let mut i = i;
        if !matches!(self.current_token, Some(Token::Comma)) {
            self.end_elements(depth, i);
            return Ok(());
        }
        loop
            invariant
                self.fits(),
                self.bytes() == b,
                1 <= self.pos() <= b.len(),
                depth <= self.pos() + 255,
                i <= self.pos(),
                self.current_token matches Some(Token::Comma),
                measure(b, self.state(route@, target@)) <= measure(b, entry),
                element_rest(b, parse_option@, self.state(route@, target@), depth as nat, i as nat)
                    == goal,
            decreases measure(b, self.state(route@, target@)),
        {
            let ghost s = self.state(route@, target@);
            let r = self.next_token();
            proof {
                lemma_advance(b, s);
            }
            match r {
                Err(f) => {
                    return Err(f);
                },
                Ok(()) => {},
            }
            if self.current_token.is_none() {
                return Ok(());
            }
            let fragment = concat2("/", usize_text(i).as_str());
            proof {
                lemma_route_push(route@, fragment);
            }
            route.push(fragment);
            let ghost s2 = self.state(route@, target@);
            let r = self.parse_value(route, target, depth, count, parse_option, false);
            proof {
                lemma_parse_value_mono(b, parse_option@, s2, depth as nat);
            }
            match r {
                Err(Failure::Halted) => {
                    return Err(Failure::Halted);
                },
                _ => {},
            }
            proof {
                lemma_route_pop(route@);
            }
            route.pop();
            let ghost s4 = self.state(route@, target@);
            let r = self.next_token();
            proof {
                lemma_advance(b, s4);
            }
            match r {
                Err(f) => {
                    return Err(f);
                },
                Ok(()) => {},
            }
            i += 1;
            if !matches!(self.current_token, Some(Token::Comma)) {
                self.end_elements(depth, i);
                return Ok(());
            }
        }
    }

    /// An object whose `{` was just read: reads its members.
    #[verifier::loop_isolation(false)]
    fn process(
        &mut self,
        route: &mut Vec<String>,
        target: &mut Vec<(PointerKey, Option<String>)>,
        depth: usize,
        count: usize,
        parse_option: &ParseOptions,
    ) -> (r: Result<(), Failure>)
        requires
            old(self).fits(),
            1 <= old(self).pos() <= old(self).bytes().len(),
            depth <= old(self).pos() + 256,
        ensures
            final(self).fits(),
            final(self).bytes() == old(self).bytes(),
            final(self).pos() <= final(self).bytes().len(),
            (final(self).state(final(route)@, final(target)@), flow_of(r)) == process(
                old(self).bytes(),
                parse_option@,
                old(self).state(old(route)@, old(target)@),
                depth as nat,
            ),
        decreases measure(old(self).bytes(), old(self).state(old(route)@, old(target)@)), 2nat,
    {
        let ghost b = self.bytes();
        let ghost entry = self.state(route@, target@);
        if self.max_depth < depth {
            self.max_depth = depth;
        }
        let ghost s0 = self.state(route@, target@);
        let r = self.next_token();
        proof {
            lemma_advance(b, s0);
        }
        match r {
            Err(f) => {
                return Err(f);
            },
            Ok(()) => {},
        }
        let ghost goal = members(b, parse_option@, self.state(route@, target@), depth as nat);
        loop
            invariant
                self.fits(),
                self.bytes() == b,
                1 <= self.pos() <= b.len(),
                depth <= self.pos() + 256,
                measure(b, self.state(route@, target@)) <= measure(b, entry),
                members(b, parse_option@, self.state(route@, target@), depth as nat) == goal,
            decreases measure(b, self.state(route@, target@)),
        {
            let r = self.member(route, target, depth, count, parse_option);
            match r {
                Ok(true) => {},
                Ok(false) => {
                    return Ok(());
                },
                Err(f) => {
                    return Err(f);
                },
            }
        }
    }

    /// One member of an object, the current token being its key: `true`
    /// when a comma follows and the next member is current.
    #[verifier::spinoff_prover]
    #[verifier::rlimit(60)]
    fn member(
        &mut self,
        route: &mut Vec<String>,
        target: &mut Vec<(PointerKey, Option<String>)>,
        depth: usize,
        count: usize,
        parse_option: &ParseOptions,
    ) -> (r: Result<bool, Failure>)
        requires
            old(self).fits(),
            1 <= old(self).pos() <= old(self).bytes().len(),
            depth <= old(self).pos() + 256,
        ensures
            final(self).fits(),
            final(self).bytes() == old(self).bytes(),
            1 <= final(self).pos() <= final(self).bytes().len(),
            depth <= final(self).pos() + 256,
            ({
                let b = old(self).bytes();
                let s = old(self).state(old(route)@, old(target)@);
                let s1 = final(self).state(final(route)@, final(target)@);
                match r {
                    Ok(true) => members(b, parse_option@, s1, depth as nat) == members(
                        b,
                        parse_option@,
                        s,
                        depth as nat,
                    ) && measure(b, s1) < measure(b, s),
                    Ok(false) => (s1, Flow::Done) == members(b, parse_option@, s, depth as nat),
                    Err(Failure::Message(m)) => (s1, Flow::Fail(m@)) == members(
                        b,
                        parse_option@,
                        s,
                        depth as nat,
                    ),
                    Err(Failure::Halted) => (s1, Flow::Halt) == members(b, parse_option@, s, depth as nat),
                }
            }),
        decreases measure(old(self).bytes(), old(self).state(old(route)@, old(target)@)), 1nat,
    {
        let ghost b = self.bytes();
        let ghost s = self.state(route@, target@);
        let key = match self.current_token {
            Some(Token::String(key)) => key,
            None => {
                return Ok(false);
            },
            Some(_) => {
                return Err(
                    Failure::Message("Expected object to have a key at this location".to_owned()),
                );
            },
        };
        let fragment = concat2("/", key);
        proof {
            lemma_route_push(route@, fragment);
        }
        route.push(fragment);
        let ghost s1 = self.state(route@, target@);
        let r = self.next_token();
        proof {
            lemma_advance(b, s1);
        }
        match r {
            Err(f) => {
                return Err(f);
            },
            Ok(()) => {},
        }
        match self.current_token {
            Some(Token::Colon) => {
                let ghost s2 = self.state(route@, target@);
                let r = self.next_token();
                proof {
                    lemma_advance(b, s2);
                }
                match r {
                    Err(f) => {
                        return Err(f);
                    },
                    Ok(()) => {},
                }
            },
            _ => {
                return Err(Failure::Message("Expected ':' after object key".to_owned()));
            },
        }
        let ghost s3 = self.state(route@, target@);
        let r = self.parse_value(route, target, depth, count, parse_option, true);
        proof {
            lemma_parse_value_mono(b, parse_option@, s3, depth as nat);
        }
        match r {
            Err(f) => {
                return Err(f);
            },
            Ok(()) => {},
        }
        let ghost s4 = self.state(route@, target@);
        let r = self.next_token();
        proof {
            lemma_advance(b, s4);
        }
        match r {
            Err(f) => {
                return Err(f);
            },
            Ok(()) => {},
        }
        match self.current_token {
            Some(Token::Comma) => {
                let ghost s5 = self.state(route@, target@);
                let r = self.next_token();
                proof {
                    lemma_advance(b, s5);
                }
                match r {
                    Err(f) => {
                        return Err(f);
                    },
                    Ok(()) => {},
                }
            },
            Some(Token::CurlyClose) | Some(Token::SquareClose) => {
                proof {
                    lemma_route_pop(route@);
                }
                route.pop();
                return Ok(false);
            },
            None => {
                return Ok(false);
            },
            Some(t) => {
                let text = concat3(
                    "Expected ',' or '}' or ']' after object value, got: Some(",
                    token_debug(&t).as_str(),
                    ")",
                );
                return Err(Failure::Message(text));
            },
        }
        proof {
            lemma_route_pop(route@);
        }
        route.pop();
        Ok(true)
    }

    /// Parses a document from the current token on; `depth` is the depth of
    /// the root's members.
    fn parse_inner(&mut self, parse_option: &ParseOptions, depth: u8) -> (r: Result<
        ParseResult,
        Failure,
    >)
        requires
            old(self).fits(),
        ensures
            match parse_document(
                old(self).bytes(),
                parse_option@,
                old(self).state(seq![], seq![]),
                depth as nat,
            ) {
                ParseOutcome::Parsed(s) => r matches Ok(res) && result_matches(res, s, parse_option@),
                ParseOutcome::Failed(m) => r matches Err(Failure::Message(e)) && e@ == m,
                ParseOutcome::Halted => r matches Err(Failure::Halted),
            },
    {
        let ghost b = self.bytes();
        let mut values: Vec<(PointerKey, Option<String>)> = Vec::new();
        let ghost s = self.state(seq![], values@);
        proof {
            self.lexer.lemma_pos_nonneg();
            assert(values@ =~= seq![]);
        }
        let r = self.next_token();
        proof {
            lemma_advance(b, s);
        }
        match r {
            Err(f) => {
                return Err(f);
            },
            Ok(()) => {},
        }
        match self.current_token {
            Some(Token::CurlyOpen) => {
                let mut pointer_fragment: Vec<String> = Vec::new();
                match &parse_option.prefix {
                    Some(p) => {
                        pointer_fragment.push(p.clone());
                    },
                    None => {},
                }
                self.root_value_type = ValueType::Object;
                proof {
                    assert(route_view(pointer_fragment@) =~= crate::model::start_route(parse_option@));
                    assert(out_view(values@) =~= seq![]);
                }
                let r = self.process(&mut pointer_fragment, &mut values, depth as usize, 0, parse_option);
                match r {
                    Err(f) => Err(f),
                    Ok(()) => Ok(
                        ParseResult {
                            json: values,
                            max_json_depth: self.max_depth,
                            parsing_max_depth: parse_option.max_depth,
                            root_value_type: self.root_value_type,
                            root_array_len: self.root_array_len,
                            started_parsing_at: clone_opt(&parse_option.start_parse_at),
                            parsing_prefix: clone_opt(&parse_option.prefix),
                        },
                    ),
                }
            },
            Some(Token::SquareOpen) => {
                let mut pointer_fragment: Vec<String> = Vec::new();
                match &parse_option.prefix {
                    Some(p) => {
                        pointer_fragment.push(p.clone());
                    },
                    None => {},
                }
                self.root_value_type = ValueType::Array;
                proof {
                    assert(route_view(pointer_fragment@) =~= crate::model::start_route(parse_option@));
                    assert(out_view(values@) =~= seq![]);
                }
                let r = self.parse_value(
                    &mut pointer_fragment,
                    &mut values,
                    depth as usize,
                    0,
                    parse_option,
                    false,
                );
                match r {
                    Err(f) => Err(f),
                    Ok(()) => Ok(
                        ParseResult {
                            json: values,
                            max_json_depth: self.max_depth,
                            parsing_max_depth: parse_option.max_depth,
                            root_value_type: self.root_value_type,
                            root_array_len: self.root_array_len,
                            started_parsing_at: clone_opt(&parse_option.start_parse_at),
                            parsing_prefix: clone_opt(&parse_option.prefix),
                        },
                    ),
                }
            },
            Some(t) => Err(
                Failure::Message(
                    concat2(
                        "Expected json to start with { or [ but started with ",
                        token_debug(&t).as_str(),
                    ),
                ),
            ),
            None => Err(Failure::Message("Json is empty".to_owned())),
        }
    }

    /// Parses a document whose root is an object or an array; `depth` is the
    /// depth of the root's members.  Inputs on which the parser would panic
    /// or loop forever are excluded (see `JSONParser::try_parse`).
    pub fn parse(&mut self, parse_option: &ParseOptions, depth: u8) -> (r: Result<ParseResult, String>)
        requires
            old(self).fits(),
            !(parse_document(old(self).bytes(), parse_option@, old(self).state(seq![], seq![]), depth as nat) is Halted),
        ensures
            match parse_document(
                old(self).bytes(),
                parse_option@,
                old(self).state(seq![], seq![]),
                depth as nat,
            ) {
                ParseOutcome::Parsed(s) => r matches Ok(res) && result_matches(res, s, parse_option@),
                ParseOutcome::Failed(m) => r matches Err(e) && e@ == m,
                ParseOutcome::Halted => false,
            },
    {
        match self.parse_inner(parse_option, depth) {
            Ok(res) => Ok(res),
            Err(Failure::Message(m)) => Err(m),
            Err(Failure::Halted) => Err(String::new()),
        }
    }
}

/// The outcome of parsing `json` with options `o`.
pub open spec fn document_outcome(json: Seq<u8>, o: OptionsView) -> ParseOutcome {
    parse_document(json, o, initial_state(0), 1)
}

/// Parses a whole JSON text.
pub struct JSONParser<'a> {
    pub json: &'a str,
}

impl<'a> JSONParser<'a> {
    pub fn new(json: &'a str) -> (r: Self)
        ensures
            r.json == json,
    {
        JSONParser { json }
    }

    /// Parses the text; its root's members have depth 1.  Inputs on which
    /// the parser would panic or loop forever are excluded; `try_parse`
    /// accepts every input.
    pub fn parse(&self, options: ParseOptions) -> (r: Result<ParseResult, String>)
        requires
            self.json.spec_bytes().len() + 512 <= usize::MAX,
            !(document_outcome(self.json.spec_bytes(), options@) is Halted),
        ensures
            match document_outcome(self.json.spec_bytes(), options@) {
                ParseOutcome::Parsed(s) => r matches Ok(res) && result_matches(res, s, options@),
                ParseOutcome::Failed(m) => r matches Err(e) && e@ == m,
                ParseOutcome::Halted => false,
            },
    {
        let lexer = Lexer::new(self.json.as_bytes());
        let mut parser = Parser::new(lexer);
        parser.parse(&options, 1)
    }

    /// Parses the text like `parse`, returning `None` on the inputs where
    /// `parse` would panic or loop forever.
    pub fn try_parse(&self, options: ParseOptions) -> (r: Option<Result<ParseResult, String>>)
        requires
            self.json.spec_bytes().len() + 512 <= usize::MAX,
        ensures
            match document_outcome(self.json.spec_bytes(), options@) {
                ParseOutcome::Parsed(s) => r matches Some(Ok(res)) && result_matches(res, s, options@),
                ParseOutcome::Failed(m) => r matches Some(Err(e)) && e@ == m,
                ParseOutcome::Halted => r is None,
            },
    {
        let lexer = Lexer::new(self.json.as_bytes());
        let mut parser = Parser::new(lexer);
        match parser.parse_inner(&options, 1) {
            Ok(res) => Some(Ok(res)),
            Err(Failure::Message(m)) => Some(Err(m)),
            Err(Failure::Halted) => None,
        }
    }
}

} // verus!
