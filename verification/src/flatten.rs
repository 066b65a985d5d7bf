//! Flattening JSON values held as trees: each value of an array becomes a
//! row of `(pointer, text)` entries, objects opened down to a depth; and
//! finding the value at a pointer.  Keys in pointers are escaped as JSON
//! pointers do (`~` as `~0`, `/` as `~1`).
use vstd::prelude::*;
use crate::model::{EntryView, decimal, route_text};
use crate::parser::{Parser, PointerKey, ValueType, route_view};
use crate::replace::{replaced, str_replace};
use crate::text::{concat2, concat3, str_eq, usize_text};
use crate::rows::texts;

verus! {

// ---------------------------------------------------------------------------
// Trees
// ---------------------------------------------------------------------------

/// A JSON value; a number keeps the text it is written with.
pub enum JsonTree {
    Null,
    Bool(bool),
    Number(String),
    Text(String),
    Array(Vec<JsonTree>),
    Object(Vec<(String, JsonTree)>),
}

pub enum JsonView {
    Null,
    Bool(bool),
    Number(Seq<char>),
    Text(Seq<char>),
    Array(Seq<JsonView>),
    Object(Seq<(Seq<char>, JsonView)>),
}

pub open spec fn jv(t: JsonTree) -> JsonView
    decreases t,
{
    match t {
        JsonTree::Null => JsonView::Null,
        JsonTree::Bool(b) => JsonView::Bool(b),
        JsonTree::Number(n) => JsonView::Number(n@),
        JsonTree::Text(s) => JsonView::Text(s@),
        JsonTree::Array(a) => JsonView::Array(jvs(a@)),
        JsonTree::Object(o) => JsonView::Object(jos(o@)),
    }
}

pub open spec fn jvs(s: Seq<JsonTree>) -> Seq<JsonView>
    decreases s,
{
    if s.len() == 0 {
        seq![]
    } else {
        jvs(s.drop_last()).push(jv(s.last()))
    }
}

pub open spec fn jos(s: Seq<(String, JsonTree)>) -> Seq<(Seq<char>, JsonView)>
    decreases s,
{
    if s.len() == 0 {
        seq![]
    } else {
        jos(s.drop_last()).push((s.last().0@, jv(s.last().1)))
    }
}

proof fn lemma_jvs(s: Seq<JsonTree>)
    ensures
        jvs(s).len() == s.len(),
        forall|i: int| 0 <= i < s.len() ==> #[trigger] jvs(s)[i] == jv(s[i]),
    decreases s.len(),
{
    if s.len() > 0 {
        lemma_jvs(s.drop_last());
        assert forall|i: int| 0 <= i < s.len() - 1 implies #[trigger] s.drop_last()[i] == s[i] by {}
    }
}

proof fn lemma_jos(s: Seq<(String, JsonTree)>)
    ensures
        jos(s).len() == s.len(),
        forall|i: int| 0 <= i < s.len() ==> #[trigger] jos(s)[i] == (s[i].0@, jv(s[i].1)),
    decreases s.len(),
{
    if s.len() > 0 {
        lemma_jos(s.drop_last());
        assert forall|i: int| 0 <= i < s.len() - 1 implies #[trigger] s.drop_last()[i] == s[i] by {}
    }
}

// ---------------------------------------------------------------------------
// Text of a value
// ---------------------------------------------------------------------------

/// What `serde_json::to_string` writes for a string: the string in double
/// quotes, with JSON escapes.
pub uninterp spec fn json_quoted(s: Seq<char>) -> Seq<char>;

/// Calls `serde_json::to_string` on a string slice.  Claimed: the text is
/// `json_quoted(s)`; serializing a string does not fail.
#[verifier::external_body]
fn quote(s: &str) -> (r: String)
    ensures
        r@ == json_quoted(s@),
{
    serde_json::to_string(s).unwrap()
}

/// A value written as compact JSON: no spaces, members in their order.
pub open spec fn tree_text(v: JsonView) -> Seq<char>
    decreases v,
{
    match v {
        JsonView::Null => "null"@,
        JsonView::Bool(b) => if b {
            "true"@
        } else {
            "false"@
        },
        JsonView::Number(n) => n,
        JsonView::Text(s) => json_quoted(s),
        JsonView::Array(a) => "["@ + items_text(a) + "]"@,
        JsonView::Object(o) => "{"@ + members_text(o) + "}"@,
    }
}

pub open spec fn items_text(a: Seq<JsonView>) -> Seq<char>
    decreases a,
{
    if a.len() == 0 {
        seq![]
    } else if a.len() == 1 {
        tree_text(a[0])
    } else {
        items_text(a.drop_last()) + ","@ + tree_text(a.last())
    }
}

pub open spec fn members_text(o: Seq<(Seq<char>, JsonView)>) -> Seq<char>
    decreases o,
{
    if o.len() == 0 {
        seq![]
    } else if o.len() == 1 {
        json_quoted(o[0].0) + ":"@ + tree_text(o[0].1)
    } else {
        members_text(o.drop_last()) + ","@ + json_quoted(o.last().0) + ":"@ + tree_text(o.last().1)
    }
}

/// The text of a value (see `tree_text`).
pub fn value_text(t: &JsonTree) -> (r: String)
    ensures
        r@ == tree_text(jv(*t)),
    decreases t,
{
    match t {
        JsonTree::Null => "null".to_owned(),
        JsonTree::Bool(b) => if *b {
            "true".to_owned()
        } else {
            "false".to_owned()
        },
        JsonTree::Number(n) => n.clone(),
        JsonTree::Text(s) => quote(s.as_str()),
        JsonTree::Array(a) => {
            let ghost va = jvs(a@);
            proof {
                lemma_jvs(a@);
            }
            let mut items = String::new();
            let mut i: usize = 0;
            while i < a.len()
                invariant
                    i <= a@.len(),
                    va == jvs(a@),
                    *t == JsonTree::Array(*a),
                    va.len() == a@.len(),
                    forall|k: int| 0 <= k < a@.len() ==> #[trigger] va[k] == jv(a@[k]),
                    items@ == items_text(va.take(i as int)),
                decreases a@.len() - i,
            {
                proof {
                    assert(decreases_to!(*t => (*t)->Array_0));
                    assert((*t)->Array_0 == *a);
                    assert(decreases_to!(*a => a@));
                    assert(decreases_to!(a@ => a@[i as int]));
                    assert(decreases_to!(*t => a@[i as int]));
                }
                let item = value_text(&a[i]);
                proof {
                    assert(va.take(i + 1int).drop_last() =~= va.take(i as int));
                    assert(va.take(i + 1int).last() == va[i as int]);
                    if i == 0 {
                        assert(va.take(1)[0] == va[0]);
                    }
                }
                if i > 0 {
                    items.append(",");
                }
                items.append(item.as_str());
                proof {
                    if i == 0 {
                        assert(items@ =~= items_text(va.take(1)));
                    } else {
                        assert(items@ =~= items_text(va.take(i + 1int)));
                    }
                }
                i += 1;
            }
            proof {
                assert(va.take(a@.len() as int) =~= va);
            }
            concat3("[", items.as_str(), "]")
        },
        JsonTree::Object(o) => {
            let ghost vo = jos(o@);
            proof {
                lemma_jos(o@);
            }
            let mut members = String::new();
            let mut i: usize = 0;
            while i < o.len()
                invariant
                    i <= o@.len(),
                    vo == jos(o@),
                    *t == JsonTree::Object(*o),
                    vo.len() == o@.len(),
                    forall|k: int| 0 <= k < o@.len() ==> #[trigger] vo[k] == (o@[k].0@, jv(o@[k].1)),
                    members@ == members_text(vo.take(i as int)),
                decreases o@.len() - i,
            {
                let key = quote(o[i].0.as_str());
                proof {
                    assert(decreases_to!(*t => (*t)->Object_0));
                    assert((*t)->Object_0 == *o);
                    assert(decreases_to!(*o => o@));
                    assert(decreases_to!(o@ => o@[i as int]));
                    assert(decreases_to!(o@[i as int] => o@[i as int].1));
                    assert(decreases_to!(*t => o@[i as int].1));
                }
                let value = value_text(&o[i].1);
                proof {
                    assert(vo.take(i + 1int).drop_last() =~= vo.take(i as int));
                    assert(vo.take(i + 1int).last() == vo[i as int]);
                    if i == 0 {
                        assert(vo.take(1)[0] == vo[0]);
                    }
                }
                if i > 0 {
                    members.append(",");
                }
                members.append(key.as_str());
                members.append(":");
                members.append(value.as_str());
                proof {
                    if i == 0 {
                        assert(members@ =~= members_text(vo.take(1)));
                    } else {
                        assert(members@ =~= members_text(vo.take(i + 1int)));
                    }
                }
                i += 1;
            }
            proof {
                assert(vo.take(o@.len() as int) =~= vo);
            }
            concat3("{", members.as_str(), "}")
        },
    }
}

// ---------------------------------------------------------------------------
// Pointers
// ---------------------------------------------------------------------------

/// A key as a pointer fragment: `~` written `~0`, then `/` written `~1`.
pub open spec fn escaped_key(k: Seq<char>) -> Seq<char> {
    replaced(replaced(k, "~"@, "~0"@), "/"@, "~1"@)
}

/// A pointer fragment as a key: `~1` read as `/`, then `~0` as `~`.
pub open spec fn unescaped_key(k: Seq<char>) -> Seq<char> {
    replaced(replaced(k, "~1"@, "/"@), "~0"@, "~"@)
}

/// `value` escaped as a pointer fragment (see `escaped_key`).
pub fn escape(value: &str) -> (r: String)
    ensures
        r@ == escaped_key(value@),
{
    let once = str_replace(value, "~", "~0");
    str_replace(once.as_str(), "/", "~1")
}

/// A pointer fragment read back as a key (see `unescaped_key`).
pub fn unescape(value: &str) -> (r: String)
    ensures
        r@ == unescaped_key(value@),
{
    let once = str_replace(value, "~1", "/");
    str_replace(once.as_str(), "~0", "~")
}

// ---------------------------------------------------------------------------
// The value at a pointer
// ---------------------------------------------------------------------------

/// A copy of a tree.
pub fn clone_tree(t: &JsonTree) -> (r: JsonTree)
    ensures
        jv(r) == jv(*t),
    decreases t,
{
    match t {
        JsonTree::Null => JsonTree::Null,
        JsonTree::Bool(b) => JsonTree::Bool(*b),
        JsonTree::Number(n) => JsonTree::Number(n.clone()),
        JsonTree::Text(s) => JsonTree::Text(s.clone()),
        JsonTree::Array(a) => {
            proof {
                lemma_jvs(a@);
            }
            let mut items: Vec<JsonTree> = Vec::new();
            let mut i: usize = 0;
            while i < a.len()
                invariant
                    i <= a@.len(),
                    *t == JsonTree::Array(*a),
                    items@.len() == i,
                    forall|k: int| 0 <= k < i ==> jv(#[trigger] items@[k]) == jv(a@[k]),
                decreases a@.len() - i,
            {
                proof {
                    assert(decreases_to!(*t => (*t)->Array_0));
                    assert((*t)->Array_0 == *a);
                    assert(decreases_to!(*a => a@));
                    assert(decreases_to!(a@ => a@[i as int]));
                }
                items.push(clone_tree(&a[i]));
                i += 1;
            }
            proof {
                lemma_jvs(items@);
                assert(jvs(items@) =~= jvs(a@));
            }
            JsonTree::Array(items)
        },
        JsonTree::Object(o) => {
            proof {
                lemma_jos(o@);
            }
            let mut members: Vec<(String, JsonTree)> = Vec::new();
            let mut i: usize = 0;
            while i < o.len()
                invariant
                    i <= o@.len(),
                    *t == JsonTree::Object(*o),
                    members@.len() == i,
                    forall|k: int| 0 <= k < i ==> (#[trigger] members@[k]).0@ == o@[k].0@ && jv(members@[k].1) == jv(o@[k].1),
                decreases o@.len() - i,
            {
                proof {
                    assert(decreases_to!(*t => (*t)->Object_0));
                    assert((*t)->Object_0 == *o);
                    assert(decreases_to!(*o => o@));
                    assert(decreases_to!(o@ => o@[i as int]));
                    assert(decreases_to!(o@[i as int] => o@[i as int].1));
                }
                let value = clone_tree(&o[i].1);
                members.push((o[i].0.clone(), value));
                i += 1;
            }
            proof {
                lemma_jos(members@);
                assert(jos(members@) =~= jos(o@));
            }
            JsonTree::Object(members)
        },
    }
}

/// The first value, in document order, whose pointer under `route` is `p`:
/// a non-empty array, an object or a scalar at `p` itself, else the first
/// one found in its elements or members.
pub open spec fn found_at(v: JsonView, route: Seq<char>, p: Seq<char>) -> Option<JsonView>
    decreases v,
{
    match v {
        JsonView::Array(a) => if a.len() > 0 && route == p {
            Some(v)
        } else {
            found_in_items(a, route, p)
        },
        JsonView::Object(o) => if route == p {
            Some(v)
        } else {
            found_in_members(o, route, p)
        },
        _ => if route == p {
            Some(v)
        } else {
            None
        },
    }
}

pub open spec fn found_in_items(a: Seq<JsonView>, route: Seq<char>, p: Seq<char>) -> Option<JsonView>
    decreases a,
{
    if a.len() == 0 {
        None
    } else {
        match found_in_items(a.drop_last(), route, p) {
            Some(x) => Some(x),
            None => found_at(a.last(), route + "/"@ + decimal((a.len() - 1) as nat), p),
        }
    }
}

pub open spec fn found_in_members(o: Seq<(Seq<char>, JsonView)>, route: Seq<char>, p: Seq<char>) -> Option<JsonView>
    decreases o,
{
    if o.len() == 0 {
        None
    } else {
        match found_in_members(o.drop_last(), route, p) {
            Some(x) => Some(x),
            None => found_at(o.last().1, route + "/"@ + escaped_key(o.last().0), p),
        }
    }
}

proof fn lemma_found_items_prefix(a: Seq<JsonView>, i: int, route: Seq<char>, p: Seq<char>)
    requires
        0 <= i <= a.len(),
        found_in_items(a.take(i), route, p) is Some,
    ensures
        found_in_items(a, route, p) == found_in_items(a.take(i), route, p),
    decreases a.len() - i,
{
    if i < a.len() {
        assert(a.take(i + 1).drop_last() =~= a.take(i));
        lemma_found_items_prefix(a, i + 1, route, p);
    } else {
        assert(a.take(i) =~= a);
    }
}

proof fn lemma_found_members_prefix(o: Seq<(Seq<char>, JsonView)>, i: int, route: Seq<char>, p: Seq<char>)
    requires
        0 <= i <= o.len(),
        found_in_members(o.take(i), route, p) is Some,
    ensures
        found_in_members(o, route, p) == found_in_members(o.take(i), route, p),
    decreases o.len() - i,
{
    if i < o.len() {
        assert(o.take(i + 1).drop_last() =~= o.take(i));
        lemma_found_members_prefix(o, i + 1, route, p);
    } else {
        assert(o.take(i) =~= o);
    }
}

proof fn lemma_route_push(r: Seq<String>, x: String)
    ensures
        route_text(route_view(r.push(x))) == route_text(route_view(r)) + x@,
{
    assert(route_view(r.push(x)).drop_last() =~= route_view(r));
}

pub open spec fn opt_jv(r: Option<JsonTree>) -> Option<JsonView> {
    match r {
        Some(t) => Some(jv(t)),
        None => None,
    }
}

/// The route after a search that found nothing: its last fragment taken
/// off.
pub open spec fn popped(r: Seq<String>) -> Seq<String> {
    if r.len() > 0 {
        r.drop_last()
    } else {
        r
    }
}

fn process_value_at(value: &JsonTree, route: &mut Vec<String>, pointer_to_match: &str) -> (r: Option<JsonTree>)
    ensures
        opt_jv(r) == found_at(jv(*value), route_text(route_view(old(route)@)), pointer_to_match@),
        r is None ==> final(route)@ == popped(old(route)@),
    decreases value,
{
    let ghost here = route_text(route_view(route@));
    let ghost start = route@;
    match value {
        JsonTree::Array(arr) => {
            proof {
                lemma_jvs(arr@);
            }
            let ghost va = jvs(arr@);
            let mut i: usize = 0;
            while i < arr.len()
                invariant
                    i <= arr@.len(),
                    *value == JsonTree::Array(*arr),
                    va == jvs(arr@),
                    va.len() == arr@.len(),
                    forall|k: int| 0 <= k < arr@.len() ==> #[trigger] va[k] == jv(arr@[k]),
                    route@ == start,
                    start == old(route)@,
                    here == route_text(route_view(start)),
                    i > 0 ==> !(here == pointer_to_match@),
                    found_in_items(va.take(i as int), here, pointer_to_match@) is None,
                decreases arr@.len() - i,
            {
                let pointer = Parser::concat_route(route);
                if str_eq(pointer.as_str(), pointer_to_match) {
                    proof {
                        assert(i == 0);
                        assert(jv(*value) == JsonView::Array(va));
                        assert(found_at(jv(*value), here, pointer_to_match@) == Some(jv(*value)));
                    }
                    return Some(clone_tree(value));
                }
                let fragment = concat2("/", usize_text(i).as_str());
                let ghost frag = fragment@;
                route.push(fragment);
                proof {
                    lemma_route_push(start, route@.last());
                    assert(route@ =~= start.push(route@.last()));
                    assert(decreases_to!(*value => (*value)->Array_0));
                    assert((*value)->Array_0 == *arr);
                    assert(decreases_to!(*arr => arr@));
                    assert(decreases_to!(arr@ => arr@[i as int]));
                    assert(va.take(i + 1int).drop_last() =~= va.take(i as int));
                    assert(va.take(i + 1int).last() == va[i as int]);
                }
                proof {
                    assert(route_text(route_view(route@)) == here + "/"@ + decimal(i as nat));
                    assert(jv(arr@[i as int]) == va[i as int]);
                }
                let found = process_value_at(&arr[i], route, pointer_to_match);
                proof {
                    assert(found_in_items(va.take(i + 1int), here, pointer_to_match@) == found_at(
                        va[i as int],
                        here + "/"@ + decimal(i as nat),
                        pointer_to_match@,
                    ));
                }
                match found {
                    Some(f) => {
                        proof {
                            lemma_found_items_prefix(va, i + 1int, here, pointer_to_match@);
                            assert(jv(*value) == JsonView::Array(va));
                        }
                        return Some(f);
                    },
                    None => {
                        proof {
                            assert(route@ =~= start);
                        }
                    },
                }
                i += 1;
            }
            proof {
                assert(va.take(arr@.len() as int) =~= va);
            }
        },
        JsonTree::Object(obj) => {
            let pointer = Parser::concat_route(route);
            if str_eq(pointer.as_str(), pointer_to_match) {
                return Some(clone_tree(value));
            }
            proof {
                lemma_jos(obj@);
            }
            let ghost vo = jos(obj@);
            let mut i: usize = 0;
            while i < obj.len()
                invariant
                    i <= obj@.len(),
                    *value == JsonTree::Object(*obj),
                    vo == jos(obj@),
                    vo.len() == obj@.len(),
                    forall|k: int| 0 <= k < obj@.len() ==> #[trigger] vo[k] == (obj@[k].0@, jv(obj@[k].1)),
                    route@ == start,
                    start == old(route)@,
                    here == route_text(route_view(start)),
                    found_in_members(vo.take(i as int), here, pointer_to_match@) is None,
                    here != pointer_to_match@,
                decreases obj@.len() - i,
            {
                let fragment = concat2("/", escape(obj[i].0.as_str()).as_str());
                route.push(fragment);
                proof {
                    lemma_route_push(start, route@.last());
                    assert(route@ =~= start.push(route@.last()));
                    assert(decreases_to!(*value => (*value)->Object_0));
                    assert((*value)->Object_0 == *obj);
                    assert(decreases_to!(*obj => obj@));
                    assert(decreases_to!(obj@ => obj@[i as int]));
                    assert(decreases_to!(obj@[i as int] => obj@[i as int].1));
                    assert(vo.take(i + 1int).drop_last() =~= vo.take(i as int));
                    assert(vo.take(i + 1int).last() == vo[i as int]);
                }
                proof {
                    assert(route_text(route_view(route@)) == here + "/"@ + escaped_key(vo[i as int].0));
                    assert(jv(obj@[i as int].1) == vo[i as int].1);
                }
                let found = process_value_at(&obj[i].1, route, pointer_to_match);
                proof {
                    assert(found_in_members(vo.take(i + 1int), here, pointer_to_match@) == found_at(
                        vo[i as int].1,
                        here + "/"@ + escaped_key(vo[i as int].0),
                        pointer_to_match@,
                    ));
                }
                match found {
                    Some(f) => {
                        proof {
                            lemma_found_members_prefix(vo, i + 1int, here, pointer_to_match@);
                            assert(jv(*value) == JsonView::Object(vo));
                        }
                        return Some(f);
                    },
                    None => {
                        proof {
                            assert(route@ =~= start);
                        }
                    },
                }
                i += 1;
            }
            proof {
                assert(vo.take(obj@.len() as int) =~= vo);
            }
        },
        _ => {
            let pointer = Parser::concat_route(route);
            if str_eq(pointer.as_str(), pointer_to_match) {
                return Some(clone_tree(value));
            }
        },
    }
    route.pop();
    None
}

/// The value at `pointer` in `value` (see `found_at`).
pub fn value_at(value: &JsonTree, pointer: &str) -> (r: Option<JsonTree>)
    ensures
        opt_jv(r) == found_at(jv(*value), seq![], pointer@),
{
    let mut pointer_fragment: Vec<String> = Vec::new();
    proof {
        assert(route_view(pointer_fragment@) =~= seq![]);
    }
    process_value_at(value, &mut pointer_fragment, pointer)
}

// ---------------------------------------------------------------------------
// Flattening
// ---------------------------------------------------------------------------

/// A column found while flattening: a pointer and its depth.
pub struct FlatColumn {
    pub name: String,
    pub depth: u8,
}

pub open spec fn colvs(s: Seq<FlatColumn>) -> Seq<(Seq<char>, u8)> {
    s.map_values(|c: FlatColumn| (c.name@, c.depth))
}

pub open spec fn has_column(cols: Seq<(Seq<char>, u8)>, name: Seq<char>) -> bool {
    exists|k: int| 0 <= k < cols.len() && (#[trigger] cols[k]).0 == name
}

/// The columns after a value is seen at `route`: a new, non-empty pointer
/// is added with its depth.
pub open spec fn with_column(cols: Seq<(Seq<char>, u8)>, route: Seq<char>, depth: int) -> Seq<(Seq<char>, u8)> {
    if route.len() > 0 && !has_column(cols, route) {
        cols.push((route, depth as u8))
    } else {
        cols
    }
}

pub open spec fn leaf(route: Seq<char>, t: ValueType, count: usize, value: Option<Seq<char>>) -> EntryView {
    EntryView { pointer: route, value_type: t, index: count as nat, value }
}

/// A value seen at `route` and `depth`: scalars, arrays and objects at the
/// depth limit become one entry with their text (`null` none); objects
/// above the limit are opened into their members.  Also the columns.
pub open spec fn processed(
    v: JsonView,
    route: Seq<char>,
    depth: int,
    max_depth: int,
    count: usize,
    cols: Seq<(Seq<char>, u8)>,
    target: Seq<EntryView>,
) -> (Seq<(Seq<char>, u8)>, Seq<EntryView>)
    decreases v,
{
    let cols2 = with_column(cols, route, depth);
    match v {
        JsonView::Null => (cols2, target.push(leaf(route, ValueType::Null, count, None))),
        JsonView::Bool(_) => (cols2, target.push(leaf(route, ValueType::Bool, count, Some(tree_text(v))))),
        JsonView::Number(_) => (cols2, target.push(leaf(route, ValueType::Number, count, Some(tree_text(v))))),
        JsonView::Text(_) => (cols2, target.push(leaf(route, ValueType::String, count, Some(tree_text(v))))),
        JsonView::Array(_) => (cols2, target.push(leaf(route, ValueType::Array, count, Some(tree_text(v))))),
        JsonView::Object(o) => if depth < max_depth {
            processed_members(o, route, depth, max_depth, count, cols2, target)
        } else {
            (cols2, target.push(leaf(route, ValueType::Object, count, Some(tree_text(v)))))
        },
    }
}

pub open spec fn processed_members(
    o: Seq<(Seq<char>, JsonView)>,
    route: Seq<char>,
    depth: int,
    max_depth: int,
    count: usize,
    cols: Seq<(Seq<char>, u8)>,
    target: Seq<EntryView>,
) -> (Seq<(Seq<char>, u8)>, Seq<EntryView>)
    decreases o,
{
    if o.len() == 0 {
        (cols, target)
    } else {
        let (c1, t1) = processed_members(o.drop_last(), route, depth, max_depth, count, cols, target);
        processed(o.last().1, route + "/"@ + escaped_key(o.last().0), depth + 1, max_depth, count, c1, t1)
    }
}

fn add_column(unique_keys: &mut Vec<FlatColumn>, pointer: &String, depth: u8)
    ensures
        colvs(final(unique_keys)@) == with_column(colvs(old(unique_keys)@), pointer@, depth as int),
{
    let ghost cols = colvs(unique_keys@);
    if pointer.as_str().is_empty() {
        return;
    }
    let mut k: usize = 0;
    while k < unique_keys.len()
        invariant
            k <= unique_keys@.len(),
            cols == colvs(unique_keys@),
            forall|m: int| 0 <= m < k ==> (#[trigger] cols[m]).0 != pointer@,
        decreases unique_keys@.len() - k,
    {
        if str_eq(unique_keys[k].name.as_str(), pointer.as_str()) {
            proof {
                assert(cols[k as int].0 == pointer@);
                assert(has_column(cols, pointer@));
            }
            return;
        }
        k += 1;
    }
    let ghost before = unique_keys@;
    unique_keys.push(FlatColumn { name: pointer.clone(), depth });
    proof {
        assert(colvs(unique_keys@) =~= cols.push((pointer@, depth)));
    }
}

/// Flattens `value` seen at the route's pointer (see `processed`), the
/// route's last fragment taken off at the end.
fn process(
    value: &JsonTree,
    unique_keys: &mut Vec<FlatColumn>,
    route: &mut Vec<String>,
    target: &mut Vec<(PointerKey, Option<String>)>,
    depth: i32,
    max_depth: i32,
    count: usize,
)
    requires
        0 <= depth <= max_depth <= 255,
    ensures
        (colvs(final(unique_keys)@), crate::parser::out_view(final(target)@)) == processed(
            jv(*value),
            route_text(route_view(old(route)@)),
            depth as int,
            max_depth as int,
            count,
            colvs(old(unique_keys)@),
            crate::parser::out_view(old(target)@),
        ),
        final(route)@ == popped(old(route)@),
    decreases value,
{
    let ghost here = route_text(route_view(route@));
    let ghost start = route@;
    let pointer = Parser::concat_route(route);
    add_column(unique_keys, &pointer, depth as u8);
    let ghost t0 = target@;
    match value {
        JsonTree::Null => {
            target.push((PointerKey::from_pointer(pointer, ValueType::Null, count), None));
            proof {
                crate::parser::lemma_out_push(t0, target@.last());
            }
        },
        JsonTree::Bool(_) => {
            let text = value_text(value);
            target.push((PointerKey::from_pointer(pointer, ValueType::Bool, count), Some(text)));
            proof {
                crate::parser::lemma_out_push(t0, target@.last());
            }
        },
        JsonTree::Number(_) => {
            let text = value_text(value);
            target.push((PointerKey::from_pointer(pointer, ValueType::Number, count), Some(text)));
            proof {
                crate::parser::lemma_out_push(t0, target@.last());
            }
        },
        JsonTree::Text(_) => {
            let text = value_text(value);
            target.push((PointerKey::from_pointer(pointer, ValueType::String, count), Some(text)));
            proof {
                crate::parser::lemma_out_push(t0, target@.last());
            }
        },
        JsonTree::Array(_) => {
            let text = value_text(value);
            target.push((PointerKey::from_pointer(pointer, ValueType::Array, count), Some(text)));
            proof {
                crate::parser::lemma_out_push(t0, target@.last());
            }
        },
        JsonTree::Object(obj) => {
            if depth < max_depth {
                proof {
                    lemma_jos(obj@);
                }
                let ghost vo = jos(obj@);
                let ghost c0 = colvs(unique_keys@);
                let mut i: usize = 0;
                while i < obj.len()
                    invariant
                        i <= obj@.len(),
                        *value == JsonTree::Object(*obj),
                        vo == jos(obj@),
                        vo.len() == obj@.len(),
                        forall|k: int| 0 <= k < obj@.len() ==> #[trigger] vo[k] == (obj@[k].0@, jv(obj@[k].1)),
                        route@ == start,
                        here == route_text(route_view(start)),
                        0 <= depth < max_depth <= 255,
                        (colvs(unique_keys@), crate::parser::out_view(target@)) == processed_members(
                            vo.take(i as int),
                            here,
                            depth as int,
                            max_depth as int,
                            count,
                            c0,
                            crate::parser::out_view(t0),
                        ),
                    decreases obj@.len() - i,
                {
                    let fragment = concat2("/", escape(obj[i].0.as_str()).as_str());
                    route.push(fragment);
                    proof {
                        lemma_route_push(start, route@.last());
                        assert(route@ =~= start.push(route@.last()));
                        assert(route_text(route_view(route@)) == here + "/"@ + escaped_key(vo[i as int].0));
                        assert(jv(obj@[i as int].1) == vo[i as int].1);
                        assert(decreases_to!(*value => (*value)->Object_0));
                        assert((*value)->Object_0 == *obj);
                        assert(decreases_to!(*obj => obj@));
                        assert(decreases_to!(obj@ => obj@[i as int]));
                        assert(decreases_to!(obj@[i as int] => obj@[i as int].1));
                        assert(vo.take(i + 1int).drop_last() =~= vo.take(i as int));
                        assert(vo.take(i + 1int).last() == vo[i as int]);
                    }
                    process(&obj[i].1, unique_keys, route, target, depth + 1, max_depth, count);
                    proof {
                        assert(route@ =~= start);
                    }
                    i += 1;
                }
                proof {
                    assert(vo.take(obj@.len() as int) =~= vo);
                    assert(jv(*value) == JsonView::Object(vo));
                }
            } else {
                let text = value_text(value);
                let pointer = Parser::concat_route(route);
                target.push((PointerKey::from_pointer(pointer, ValueType::Object, count), Some(text)));
                proof {
                    crate::parser::lemma_out_push(t0, target@.last());
                }
            }
        },
    }
    route.pop();
}

/// The position of the first entry at pointer `p`.
pub open spec fn entry_at(row: Seq<EntryView>, p: Seq<char>) -> Option<int>
    decreases row.len(),
{
    if row.len() == 0 {
        None
    } else {
        match entry_at(row.drop_last(), p) {
            Some(k) => Some(k),
            None => if row.last().pointer == p {
                Some(row.len() - 1)
            } else {
                None
            },
        }
    }
}

proof fn lemma_entry_at(row: Seq<EntryView>, p: Seq<char>)
    ensures
        entry_at(row, p) matches Some(k) ==> 0 <= k < row.len() && row[k].pointer == p && forall|m: int|
            0 <= m < k ==> (#[trigger] row[m]).pointer != p,
        entry_at(row, p) is None ==> forall|m: int| 0 <= m < row.len() ==> (#[trigger] row[m]).pointer != p,
    decreases row.len(),
{
    if row.len() > 0 {
        lemma_entry_at(row.drop_last(), p);
        assert forall|m: int| 0 <= m < row.len() - 1 implies #[trigger] row[m] == row.drop_last()[m] by {}
    }
}

/// A row is kept when each of the non-null columns has an entry, and the
/// first such entry has a value.
pub open spec fn keeps(row: Seq<EntryView>, non_null: Seq<Seq<char>>) -> bool {
    forall|k: int|
        0 <= k < non_null.len() ==> match entry_at(row, #[trigger] non_null[k]) {
            Some(e) => row[e].value is Some,
            None => false,
        }
}

/// Each value flattened into a row that starts with its number under `#`,
/// objects opened down to `max_depth`; the rows kept, and the columns found.
pub open spec fn flattened(values: Seq<JsonView>, max_depth: u8, non_null: Seq<Seq<char>>) -> (Seq<Seq<EntryView>>, Seq<(Seq<char>, u8)>)
    decreases values.len(),
{
    if values.len() == 0 {
        (seq![], seq![])
    } else {
        let (rows, cols) = flattened(values.drop_last(), max_depth, non_null);
        let i = (values.len() - 1) as usize;
        let (cols2, row) = processed(
            values.last(),
            seq![],
            0,
            max_depth as int,
            i,
            cols,
            seq![leaf("#"@, ValueType::Number, i, Some(decimal(i as nat)))],
        );
        (
            if keeps(row, non_null) {
                rows.push(row)
            } else {
                rows
            },
            cols2,
        )
    }
}

/// The row that flattening the value at position `n` produces (before the
/// non-null columns are checked).
pub open spec fn row_of(values: Seq<JsonView>, max_depth: u8, non_null: Seq<Seq<char>>, n: int) -> Seq<EntryView> {
    let i = n as usize;
    processed(
        values[n],
        seq![],
        0,
        max_depth as int,
        i,
        flattened(values.take(n), max_depth, non_null).1,
        seq![leaf("#"@, ValueType::Number, i, Some(decimal(i as nat)))],
    ).1
}

/// Entry `e` is the row's first entry at pointer `p`, and it is not null.
pub open spec fn first_non_null_at(row: Seq<EntryView>, p: Seq<char>, e: int) -> bool {
    &&& 0 <= e < row.len()
    &&& row[e].pointer == p
    &&& row[e].value is Some
    &&& forall|q: int| 0 <= q < e ==> (#[trigger] row[q]).pointer != p
}

/// For each of the non-null columns, the row's first entry at that pointer
/// exists and is not null.
pub open spec fn non_null_everywhere(row: Seq<EntryView>, non_null: Seq<Seq<char>>) -> bool {
    forall|c: int| 0 <= c < non_null.len() ==> exists|e: int| first_non_null_at(row, #[trigger] non_null[c], e)
}

/// Every kept row has a value in each of the non-null columns (all of
/// them): for each position `c` of the non-null list, the row's first
/// entry at that pointer exists and is not null.
pub proof fn law_kept_rows_have_every_non_null_column(
    values: Seq<JsonView>,
    max_depth: u8,
    non_null: Seq<Seq<char>>,
    r: int,
    c: int,
)
    requires
        0 <= r < flattened(values, max_depth, non_null).0.len(),
        0 <= c < non_null.len(),
    ensures
        exists|e: int| first_non_null_at(flattened(values, max_depth, non_null).0[r], non_null[c], e),
    decreases values.len(),
{
    let (rows, cols) = flattened(values.drop_last(), max_depth, non_null);
    let i = (values.len() - 1) as usize;
    let (cols2, row) = processed(
        values.last(),
        seq![],
        0,
        max_depth as int,
        i,
        cols,
        seq![leaf("#"@, ValueType::Number, i, Some(decimal(i as nat)))],
    );
    if r < rows.len() {
        law_kept_rows_have_every_non_null_column(values.drop_last(), max_depth, non_null, r, c);
        if keeps(row, non_null) {
            assert(rows.push(row)[r] == rows[r]);
        }
    } else {
        assert(keeps(row, non_null));
        assert(rows.push(row)[r] == row);
        lemma_entry_at(row, non_null[c]);
        let e = entry_at(row, non_null[c])->0;
        assert(first_non_null_at(row, non_null[c], e));
    }
}

/// No row with a value in every non-null column is dropped: when the row
/// of the value at position `n` has, for each non-null column, a first
/// entry at that pointer that is not null, that row is among the rows.
pub proof fn law_rows_with_every_non_null_column_kept(
    values: Seq<JsonView>,
    max_depth: u8,
    non_null: Seq<Seq<char>>,
    n: int,
)
    requires
        0 <= n < values.len(),
        non_null_everywhere(row_of(values, max_depth, non_null, n), non_null),
    ensures
        flattened(values, max_depth, non_null).0.contains(row_of(values, max_depth, non_null, n)),
    decreases values.len(),
{
    let front = values.drop_last();
    let (rows, cols) = flattened(front, max_depth, non_null);
    let i = (values.len() - 1) as usize;
    let (cols2, row) = processed(
        values.last(),
        seq![],
        0,
        max_depth as int,
        i,
        cols,
        seq![leaf("#"@, ValueType::Number, i, Some(decimal(i as nat)))],
    );
    if n == values.len() - 1 {
        assert(values.take(n) =~= front);
        assert(row_of(values, max_depth, non_null, n) == row);
        assert forall|c: int| 0 <= c < non_null.len() implies match entry_at(row, #[trigger] non_null[c]) {
            Some(e) => row[e].value is Some,
            None => false,
        } by {
            let e = choose|e: int| first_non_null_at(row, non_null[c], e);
            lemma_entry_at(row, non_null[c]);
            match entry_at(row, non_null[c]) {
                Some(e2) => {
                    if e2 < e {
                        assert(row[e2].pointer != non_null[c]);
                    } else if e < e2 {
                        assert(row[e].pointer != non_null[c]);
                    }
                },
                None => {
                    assert(row[e].pointer != non_null[c]);
                },
            }
        }
        assert(keeps(row, non_null));
        assert(rows.push(row)[rows.len() as int] == row);
    } else {
        assert(values.take(n) =~= front.take(n));
        assert(front[n] == values[n]);
        assert(row_of(values, max_depth, non_null, n) == row_of(front, max_depth, non_null, n));
        law_rows_with_every_non_null_column_kept(front, max_depth, non_null, n);
        let x = row_of(front, max_depth, non_null, n);
        let k = choose|k: int| 0 <= k < rows.len() && rows[k] == x;
        if keeps(row, non_null) {
            assert(rows.push(row)[k] == x);
        }
    }
}

pub open spec fn rows_view(rows: Seq<Vec<(PointerKey, Option<String>)>>) -> Seq<Seq<EntryView>> {
    rows.map_values(|r: Vec<(PointerKey, Option<String>)>| crate::parser::out_view(r@))
}

fn keeps_row(row: &Vec<(PointerKey, Option<String>)>, non_null_columns: &Vec<String>) -> (r: bool)
    ensures
        r == keeps(crate::parser::out_view(row@), texts(non_null_columns@)),
{
    let ghost rv = crate::parser::out_view(row@);
    let ghost nn = texts(non_null_columns@);
    let mut k: usize = 0;
    while k < non_null_columns.len()
        invariant
            k <= non_null_columns@.len(),
            rv == crate::parser::out_view(row@),
            nn == texts(non_null_columns@),
            forall|m: int|
                0 <= m < k ==> match entry_at(rv, #[trigger] nn[m]) {
                    Some(e) => rv[e].value is Some,
                    None => false,
                },
        decreases non_null_columns@.len() - k,
    {
        let column = non_null_columns[k].as_str();
        let mut j: usize = 0;
        let mut found: Option<usize> = None;
        while j < row.len() && found.is_none()
            invariant
                j <= row@.len(),
                rv == crate::parser::out_view(row@),
                column@ == nn[k as int],
                found is None ==> forall|m: int| 0 <= m < j ==> (#[trigger] rv[m]).pointer != column@,
                found matches Some(f) ==> f < rv.len() && rv[f as int].pointer == column@ && forall|m: int|
                    0 <= m < f ==> (#[trigger] rv[m]).pointer != column@,
            decreases row@.len() - j + if found is None { 1int } else { 0int },
        {
            if str_eq(row[j].0.pointer.as_str(), column) {
                found = Some(j);
            } else {
                j += 1;
            }
        }
        proof {
            lemma_entry_at(rv, column@);
        }
        match found {
            Some(f) => {
                proof {
                    if let Some(e) = entry_at(rv, column@) {
                        if e < f {
                            assert(rv[e].pointer != column@);
                        } else if f < e {
                            assert(rv[f as int].pointer != column@);
                        }
                    }
                }
                if row[f].1.is_none() {
                    return false;
                }
            },
            None => {
                return false;
            },
        }
        k += 1;
    }
    true
}

/// Flattens each value (see `flattened`).
pub fn flatten(values: &Vec<JsonTree>, max_depth: u8, non_null_columns: &Vec<String>) -> (r: (
    Vec<Vec<(PointerKey, Option<String>)>>,
    Vec<FlatColumn>,
))
    ensures
        (rows_view(r.0@), colvs(r.1@)) == flattened(jvs(values@), max_depth, texts(non_null_columns@)),
{
    proof {
        lemma_jvs(values@);
    }
    let ghost vs = jvs(values@);
    let ghost nn = texts(non_null_columns@);
    let mut rows: Vec<Vec<(PointerKey, Option<String>)>> = Vec::new();
    let mut unique_keys: Vec<FlatColumn> = Vec::new();
    let mut i: usize = 0;
    proof {
        assert(vs.take(0) =~= seq![]);
        assert(rows_view(rows@) =~= seq![]);
        assert(colvs(unique_keys@) =~= seq![]);
    }
    while i < values.len()
        invariant
            i <= values@.len(),
            vs == jvs(values@),
            vs.len() == values@.len(),
            forall|k: int| 0 <= k < values@.len() ==> #[trigger] vs[k] == jv(values@[k]),
            nn == texts(non_null_columns@),
            (rows_view(rows@), colvs(unique_keys@)) == flattened(vs.take(i as int), max_depth, nn),
        decreases values@.len() - i,
    {
        let mut columns: Vec<(PointerKey, Option<String>)> = Vec::new();
        columns.push((PointerKey::from_pointer("#".to_owned(), ValueType::Number, i), Some(usize_text(i))));
        let mut pointer_fragment: Vec<String> = Vec::new();
        proof {
            assert(route_view(pointer_fragment@) =~= seq![]);
            assert(crate::parser::out_view(columns@) =~= seq![leaf("#"@, ValueType::Number, i, Some(decimal(i as nat)))]);
            assert(vs.take(i + 1int).drop_last() =~= vs.take(i as int));
            assert(vs.take(i + 1int).last() == vs[i as int]);
        }
        process(&values[i], &mut unique_keys, &mut pointer_fragment, &mut columns, 0, max_depth as i32, i);
        let keep = keeps_row(&columns, non_null_columns);
        if keep {
            let ghost before = rows@;
            rows.push(columns);
            proof {
                assert(rows_view(rows@) =~= rows_view(before).push(crate::parser::out_view(rows@.last()@)));
            }
        }
        i += 1;
    }
    proof {
        assert(vs.take(values@.len() as int) =~= vs);
    }
    (rows, unique_keys)
}

} // verus!
