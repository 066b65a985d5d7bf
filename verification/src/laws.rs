//! Properties of the flat JSON parser that hold on every input.
use vstd::prelude::*;
use crate::lexer::{TokenView, consume_step, next_token_step, LexStep};
use crate::model::{
    OptionsView, PState, EntryView, ParseOutcome, advance, element_rest, elements, emit, end_elements, index_fragment, is_prefix, key_fragment, lemma_advance, lemma_consume, lemma_parse_value_mono, measure, members, parse_value, parses_elements, pop_route, process, scalar, with_pos, with_route, zero_fragment, msg_empty, rem,
};
use crate::parser::{ValueType, document_outcome, initial_state};

verus! {

/// An entry the options allow: within the depth limit, and, when parsing
/// starts at a pointer, a scalar only under it.
pub open spec fn entry_ok(o: OptionsView, e: EntryView) -> bool {
    &&& e.index <= o.max_depth
    &&& (e.value_type == ValueType::String || e.value_type == ValueType::Number || e.value_type
        == ValueType::Bool || e.value_type == ValueType::Null) ==> match o.start_parse_at {
        Some(st) => is_prefix(st, e.pointer),
        None => true,
    }
}

/// `t` extends the entries of `s` with allowed entries only, and keeps an
/// array root an array root.
pub open spec fn grows(o: OptionsView, s: PState, t: PState) -> bool {
    &&& s.out.len() <= t.out.len()
    &&& t.out.subrange(0, s.out.len() as int) == s.out
    &&& forall|k: int| s.out.len() <= k < t.out.len() ==> entry_ok(o, #[trigger] t.out[k])
    &&& s.root_type == ValueType::Array ==> t.root_type == ValueType::Array
}

proof fn lemma_grows_refl(o: OptionsView, s: PState, t: PState)
    requires
        t.out == s.out,
        t.root_type == s.root_type,
    ensures
        grows(o, s, t),
{
    assert(t.out.subrange(0, s.out.len() as int) =~= s.out);
}

proof fn lemma_grows_trans(o: OptionsView, s: PState, t: PState, u: PState)
    requires
        grows(o, s, t),
        grows(o, t, u),
    ensures
        grows(o, s, u),
{
    assert(u.out.subrange(0, s.out.len() as int) =~= t.out.subrange(0, s.out.len() as int));
    assert forall|k: int| s.out.len() <= k < u.out.len() implies entry_ok(o, #[trigger] u.out[k]) by {
        if k < t.out.len() {
            assert(u.out[k] == u.out.subrange(0, t.out.len() as int)[k]);
        }
    }
}

proof fn lemma_grows_emit(o: OptionsView, s: PState, t: ValueType, depth: nat, v: Option<Seq<char>>)
    requires
        entry_ok(
            o,
            EntryView { pointer: crate::model::route_text(s.route), value_type: t, index: depth, value: v },
        ),
    ensures
        grows(o, s, emit(s, t, depth, v)),
{
    let u = emit(s, t, depth, v);
    assert(u.out.subrange(0, s.out.len() as int) =~= s.out);
}

proof fn lemma_grows_scalar(o: OptionsView, s: PState, depth: nat, t: ValueType, v: Option<Seq<char>>)
    requires
        t == ValueType::String || t == ValueType::Number || t == ValueType::Bool || t == ValueType::Null,
    ensures
        grows(o, s, scalar(o, s, depth, t, v)),
{
    if crate::model::keeps_scalar(o, s, depth) {
        lemma_grows_emit(o, s, t, depth, v);
    } else {
        lemma_grows_refl(o, s, s);
    }
}

pub proof fn lemma_parse_value_grows(b: Seq<u8>, o: OptionsView, s: PState, depth: nat)
    requires
        0 <= s.pos,
    ensures
        grows(o, s, parse_value(b, o, s, depth).0),
    decreases measure(b, s), 3nat,
{
    match s.cur {
        Some(TokenView::CurlyOpen) => {
            if depth <= o.max_depth {
                lemma_consume(b, s.pos, 0x7bu8, 0x7du8, true);
                let (text, j) = consume_step(b, s.pos, 0x7bu8, 0x7du8, true);
                match text {
                    Some(raw) => {
                        let s1 = emit(s, ValueType::Object, depth, Some(raw));
                        lemma_grows_emit(o, s, ValueType::Object, depth, Some(raw));
                        lemma_process_grows(b, o, s1, depth + 1);
                        lemma_grows_trans(o, s, s1, process(b, o, s1, depth + 1).0);
                    },
                    None => {
                        lemma_grows_refl(o, s, with_pos(s, j));
                    },
                }
            } else {
                lemma_process_grows(b, o, s, depth + 1);
            }
        },
        Some(TokenView::SquareOpen) => {
            lemma_advance(b, s);
            match advance(b, s) {
                Some(s1) => {
                    lemma_grows_refl(o, s, s1);
                    lemma_elements_grows(b, o, s1, depth, s.pos);
                    lemma_grows_trans(o, s, s1, elements(b, o, s1, depth, s.pos).0);
                },
                None => {
                    lemma_grows_refl(o, s, s);
                },
            }
        },
        Some(TokenView::Str(v)) => {
            lemma_grows_scalar(o, s, depth, ValueType::String, Some(v));
        },
        Some(TokenView::Num(v)) => {
            lemma_grows_scalar(o, s, depth, ValueType::Number, Some(v));
        },
        Some(TokenView::Bool(v)) => {
            lemma_grows_scalar(o, s, depth, ValueType::Bool, Some(crate::model::bool_text(v)));
        },
        Some(TokenView::Null) => {
            lemma_grows_scalar(o, s, depth, ValueType::Null, None);
        },
        _ => {
            lemma_grows_refl(o, s, s);
        },
    }
}

pub proof fn lemma_process_grows(b: Seq<u8>, o: OptionsView, s: PState, depth: nat)
    requires
        0 <= s.pos,
    ensures
        grows(o, s, process(b, o, s, depth).0),
    decreases measure(b, s), 2nat,
{
    let s0 = if s.max_depth < depth {
        PState { max_depth: depth, ..s }
    } else {
        s
    };
    lemma_grows_refl(o, s, s0);
    lemma_advance(b, s0);
    match advance(b, s0) {
        Some(s1) => {
            lemma_grows_refl(o, s0, s1);
            lemma_members_grows(b, o, s1, depth);
            lemma_grows_trans(o, s0, s1, members(b, o, s1, depth).0);
            lemma_grows_trans(o, s, s0, members(b, o, s1, depth).0);
        },
        None => {},
    }
}

pub proof fn lemma_members_grows(b: Seq<u8>, o: OptionsView, s: PState, depth: nat)
    requires
        0 <= s.pos,
    ensures
        grows(o, s, members(b, o, s, depth).0),
    decreases measure(b, s), 1nat,
{
    lemma_grows_refl(o, s, s);
    match s.cur {
        Some(TokenView::Str(key)) => {
            let s1 = with_route(s, s.route.push(key_fragment(key)));
            lemma_grows_refl(o, s, s1);
            lemma_advance(b, s1);
            match advance(b, s1) {
                Some(s2) => {
                    lemma_grows_refl(o, s, s2);
                    lemma_advance(b, s2);
                    match s2.cur {
                        Some(TokenView::Colon) => {
                            match advance(b, s2) {
                                Some(s3) => {
                                    lemma_grows_refl(o, s, s3);
                                    lemma_parse_value_mono(b, o, s3, depth);
                                    lemma_parse_value_grows(b, o, s3, depth);
                                    let (s4, f) = parse_value(b, o, s3, depth);
                                    lemma_grows_trans(o, s, s3, s4);
                                    if f is Done && s4.pos >= s3.pos {
                                        lemma_advance(b, s4);
                                        match advance(b, s4) {
                                            Some(s5) => {
                                                lemma_grows_refl(o, s4, s5);
                                                lemma_grows_trans(o, s, s4, s5);
                                                lemma_grows_refl(o, s5, with_route(s5, pop_route(s5.route)));
                                                lemma_grows_trans(o, s, s5, with_route(s5, pop_route(s5.route)));
                                                lemma_advance(b, s5);
                                                if s5.cur matches Some(TokenView::Comma) {
                                                    match advance(b, s5) {
                                                        Some(s6) => {
                                                            let s7 = with_route(s6, pop_route(s6.route));
                                                            lemma_grows_refl(o, s5, s7);
                                                            lemma_grows_trans(o, s, s5, s7);
                                                            lemma_members_grows(b, o, s7, depth);
                                                            lemma_grows_trans(o, s, s7, members(b, o, s7, depth).0);
                                                        },
                                                        None => {},
                                                    }
                                                }
                                            },
                                            None => {},
                                        }
                                    }
                                },
                                None => {},
                            }
                        },
                        _ => {},
                    }
                },
                None => {},
            }
        },
        _ => {},
    }
}

pub proof fn lemma_elements_grows(b: Seq<u8>, o: OptionsView, s: PState, depth: nat, start: int)
    requires
        0 <= s.pos,
    ensures
        grows(o, s, elements(b, o, s, depth, start).0),
    decreases measure(b, s), 5nat,
{
    lemma_grows_refl(o, s, s);
    match s.cur {
        None => {},
        Some(TokenView::SquareClose) => {
            lemma_grows_refl(o, s, with_route(s, pop_route(s.route)));
        },
        Some(_) => {
            if parses_elements(o, s) {
                let s1 = with_route(s, s.route.push(zero_fragment()));
                lemma_grows_refl(o, s, s1);
                lemma_parse_value_mono(b, o, s1, depth);
                lemma_parse_value_grows(b, o, s1, depth);
                let (s2, f) = parse_value(b, o, s1, depth);
                lemma_grows_trans(o, s, s1, s2);
                if !(f is Halt || s2.pos < s1.pos) {
                    let s3 = with_route(s2, pop_route(s2.route));
                    lemma_grows_refl(o, s2, s3);
                    lemma_grows_trans(o, s, s2, s3);
                    lemma_advance(b, s3);
                    match advance(b, s3) {
                        Some(s4) => {
                            lemma_grows_refl(o, s3, s4);
                            lemma_grows_trans(o, s, s3, s4);
                            lemma_element_rest_grows(b, o, s4, depth, 1);
                            crate::model::lemma_element_rest_mono(b, o, s4, depth, 1);
                            let (s5, f2) = element_rest(b, o, s4, depth, 1);
                            lemma_grows_trans(o, s, s4, s5);
                            if !(f2 is Halt) && s5.cur is Some && s5.pos <= b.len() && rem(b, s5.pos)
                                < rem(b, s.pos) {
                                lemma_elements_grows(b, o, s5, depth, start);
                                lemma_grows_trans(o, s, s5, elements(b, o, s5, depth, start).0);
                            }
                        },
                        None => {},
                    }
                }
            } else {
                crate::model::lemma_consume_array(b, s.pos, start, s.cur == Some(TokenView::SquareOpen));
                let (text, j) = crate::lexer::consume_array(b, s.pos, start, s.cur == Some(TokenView::SquareOpen));
                let s1 = with_pos(s, j);
                lemma_grows_refl(o, s, s1);
                match text {
                    Some(raw) => {
                        if depth <= o.max_depth {
                            lemma_grows_emit(o, s1, ValueType::Array, depth, Some(crate::model::raw_array(raw)));
                            lemma_grows_trans(
                                o,
                                s,
                                s1,
                                emit(s1, ValueType::Array, depth, Some(crate::model::raw_array(raw))),
                            );
                        }
                    },
                    None => {
                        if 0 <= j <= b.len() && rem(b, j) < rem(b, s.pos) {
                            lemma_elements_grows(b, o, s1, depth, start);
                            lemma_grows_trans(o, s, s1, elements(b, o, s1, depth, start).0);
                        }
                    },
                }
            }
        },
    }
}

proof fn lemma_end_elements_grows(o: OptionsView, s: PState, depth: nat, i: nat)
    ensures
        grows(o, s, end_elements(s, depth, i).0),
{
    let t = end_elements(s, depth, i).0;
    assert(t.out.subrange(0, s.out.len() as int) =~= s.out);
}

pub proof fn lemma_element_rest_grows(b: Seq<u8>, o: OptionsView, s: PState, depth: nat, i: nat)
    requires
        0 <= s.pos,
    ensures
        grows(o, s, element_rest(b, o, s, depth, i).0),
    decreases measure(b, s), 4nat,
{
    lemma_grows_refl(o, s, s);
    lemma_end_elements_grows(o, s, depth, i);
    if s.cur matches Some(TokenView::Comma) {
        lemma_advance(b, s);
        match advance(b, s) {
            Some(s1) => {
                lemma_grows_refl(o, s, s1);
                if s1.cur is Some {
                    let s2 = with_route(s1, s1.route.push(index_fragment(i)));
                    lemma_grows_refl(o, s, s2);
                    lemma_parse_value_mono(b, o, s2, depth);
                    lemma_parse_value_grows(b, o, s2, depth);
                    let (s3, f) = parse_value(b, o, s2, depth);
                    lemma_grows_trans(o, s, s2, s3);
                    if !(f is Halt || s3.pos < s2.pos) {
                        let s4 = with_route(s3, pop_route(s3.route));
                        lemma_grows_refl(o, s3, s4);
                        lemma_grows_trans(o, s, s3, s4);
                        lemma_advance(b, s4);
                        match advance(b, s4) {
                            Some(s5) => {
                                lemma_grows_refl(o, s4, s5);
                                lemma_grows_trans(o, s, s4, s5);
                                if s5.cur matches Some(TokenView::Comma) {
                                    lemma_element_rest_grows(b, o, s5, depth, i + 1);
                                    lemma_grows_trans(o, s, s5, element_rest(b, o, s5, depth, i + 1).0);
                                } else {
                                    lemma_end_elements_grows(o, s5, depth, i + 1);
                                    lemma_grows_trans(o, s, s5, end_elements(s5, depth, i + 1).0);
                                }
                            },
                            None => {},
                        }
                    }
                }
            },
            None => {},
        }
    }
}

/// Law: every entry a successful parse returns is allowed by the options:
/// it is within the depth limit (an object past it is skipped, not listed),
/// and with `start_parse_at` every scalar's pointer starts with that
/// pointer.
pub proof fn law_entries_follow_options(json: Seq<u8>, o: OptionsView)
    ensures
        document_outcome(json, o) matches ParseOutcome::Parsed(s) ==> forall|k: int|
            0 <= k < s.out.len() ==> entry_ok(o, #[trigger] s.out[k]),
{
    let s = initial_state(0);
    lemma_advance(json, s);
    match advance(json, s) {
        Some(s1) => {
            match s1.cur {
                Some(TokenView::CurlyOpen) => {
                    let s2 = PState {
                        route: crate::model::start_route(o),
                        out: seq![],
                        root_type: ValueType::Object,
                        ..s1
                    };
                    lemma_process_grows(json, o, s2, 1);
                },
                Some(TokenView::SquareOpen) => {
                    let s2 = PState {
                        route: crate::model::start_route(o),
                        out: seq![],
                        root_type: ValueType::Array,
                        ..s1
                    };
                    lemma_parse_value_grows(json, o, s2, 1);
                },
                _ => {},
            }
        },
        None => {},
    }
}

/// Law: a document whose root is an array is reported as an array.
pub proof fn law_array_root(json: Seq<u8>, o: OptionsView)
    ensures
        match next_token_step(json, 0) {
            LexStep::Emit(t, _) => t == TokenView::SquareOpen ==> (document_outcome(json, o) matches ParseOutcome::Parsed(s) ==> s.root_type == ValueType::Array),
            _ => true,
        },
{
    let s = initial_state(0);
    lemma_advance(json, s);
    match advance(json, s) {
        Some(s1) => {
            if s1.cur == Some(TokenView::SquareOpen) {
                let s2 = PState {
                    route: crate::model::start_route(o),
                    out: seq![],
                    root_type: ValueType::Array,
                    ..s1
                };
                lemma_parse_value_grows(json, o, s2, 1);
            }
        },
        None => {},
    }
}

/// Law: a text of whitespace only, or whose first other byte starts no
/// token, fails with "Json is empty"; a text whose first token opens neither
/// an object nor an array fails naming that token.
pub proof fn law_bad_start(json: Seq<u8>, o: OptionsView)
    ensures
        next_token_step(json, 0) is Stop ==> document_outcome(json, o) == ParseOutcome::Failed(
            msg_empty(),
        ),
        match next_token_step(json, 0) {
            LexStep::Emit(t, _) => (t != TokenView::CurlyOpen && t != TokenView::SquareOpen)
                ==> document_outcome(json, o) == ParseOutcome::Failed(crate::model::msg_bad_start(t)),
            _ => true,
        },
{
}

} // verus!
