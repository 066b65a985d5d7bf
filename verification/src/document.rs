//! Decisions taken when a JSON document is opened: how deep to parse it
//! first, whether it is an array (shown as a table at once) or an object
//! (whose arrays are offered to choose from), and the depths the table
//! starts at.
use vstd::prelude::*;
use crate::table::lemma_filter_push;
use crate::rows::{
    ArrayEntries, Column, ColumnView, DocumentView, FlatParse, FlatType, FlatValue, RowView, as_array, as_array_check,
    as_array_of, as_array_ready, cvs, doc_view, fvs, opt_text, rvs, texts,
};
use crate::rows::FlatValueView;
use crate::flat_json::{document_check, document_safe, flat_document, parse_document};

verus! {

/// How deep a document is parsed first: every level for a document under
/// 100 MiB, one level for a larger one.
pub open spec fn first_parse_depth(size: u64) -> u8 {
    if ((size / 1024 / 1024) as usize) < 100 {
        u8::MAX
    } else {
        1
    }
}

/// How deep a document of `size` bytes is parsed first.
pub fn initial_max_depth(size: u64) -> (r: u8)
    ensures
        r == first_parse_depth(size),
{
    let mib = (size / 1024 / 1024) as usize;
    if mib < 100 {
        u8::MAX
    } else {
        1
    }
}

/// The document's first bracket opens an array: a `[` comes before any `{`.
pub open spec fn opens_with_array(json: Seq<u8>) -> bool
    decreases json.len(),
{
    if json.len() == 0 {
        false
    } else if json[0] == 91u8 {
        true
    } else if json[0] == 123u8 {
        false
    } else {
        opens_with_array(json.drop_first())
    }
}

/// Whether the document's first bracket opens an array.
pub fn root_is_array(json: &[u8]) -> (r: bool)
    ensures
        r == opens_with_array(json@),
{
    let mut k: usize = 0;
    proof {
        assert(json@.skip(0) =~= json@);
    }
    while k < json.len()
        invariant
            k <= json@.len(),
            opens_with_array(json@) == opens_with_array(json@.skip(k as int)),
        decreases json@.len() - k,
    {
        proof {
            assert(json@.skip(k as int).drop_first() =~= json@.skip(k + 1));
        }
        if json[k] == 91u8 {
            return true;
        }
        if json[k] == 123u8 {
            return false;
        }
        k += 1;
    }
    false
}

/// The depth a table starts at: below the pointer the parse started at,
/// and no deeper than the document or the parse went; and the least depth
/// it can be set to.
pub open spec fn start_depths(depth_after_start_at: u8, parsing_max_depth: u8, max_json_depth: usize) -> (u8, u8) {
    let below = (depth_after_start_at + 1) as u8;
    let deepest = if parsing_max_depth <= (max_json_depth as u8) {
        parsing_max_depth
    } else {
        max_json_depth as u8
    };
    (if below >= deepest {
        below
    } else {
        deepest
    }, if below > 1 {
        below
    } else {
        1
    })
}

/// The depth a table starts at, and the least depth it can be set to.
pub fn table_depths(depth_after_start_at: u8, parsing_max_depth: u8, max_json_depth: usize) -> (r: (u8, u8))
    requires
        depth_after_start_at < u8::MAX,
    ensures
        r == start_depths(depth_after_start_at, parsing_max_depth, max_json_depth),
{
    let below = depth_after_start_at + 1;
    let document = max_json_depth as u8;
    let deepest = if parsing_max_depth <= document {
        parsing_max_depth
    } else {
        document
    };
    let depth = if below >= deepest {
        below
    } else {
        deepest
    };
    let min_depth = if below > 1 {
        below
    } else {
        1
    };
    (depth, min_depth)
}

/// The pointers of the arrays among the values, in order.
pub open spec fn array_pointers_of(values: Seq<FlatValueView>) -> Seq<Seq<char>> {
    values.filter(|e: FlatValueView| e.value_type is Array).map_values(|e: FlatValueView| e.pointer)
}

/// The pointers of the arrays of a document that is not an array: the
/// arrays the user can choose to show as a table.
pub fn array_pointers(values: &Vec<FlatValue>) -> (r: Vec<String>)
    ensures
        texts(r@) == array_pointers_of(fvs(values@)),
{
    let ghost all = fvs(values@);
    let mut r: Vec<String> = Vec::new();
    let mut k: usize = 0;
    proof {
        assert(all.take(0).filter(|e: FlatValueView| e.value_type is Array) =~= seq![]);
        assert(texts(r@) =~= seq![]);
    }
    while k < values.len()
        invariant
            k <= values@.len(),
            all == fvs(values@),
            texts(r@) == all.take(k as int).filter(|e: FlatValueView| e.value_type is Array).map_values(
                |e: FlatValueView| e.pointer,
            ),
        decreases values@.len() - k,
    {
        proof {
            assert(all.take(k + 1) =~= all.take(k as int).push(all[k as int]));
            lemma_filter_push(all.take(k as int), |e: FlatValueView| e.value_type is Array, all[k as int]);
        }
        match values[k].pointer.value_type {
            FlatType::Array(_) => {
                let ghost before = r@;
                r.push(values[k].pointer.pointer.clone());
                proof {
                    let kept = all.take(k as int).filter(|e: FlatValueView| e.value_type is Array);
                    assert(kept.push(all[k as int]).map_values(|e: FlatValueView| e.pointer) =~= kept.map_values(
                        |e: FlatValueView| e.pointer,
                    ).push(all[k as int].pointer));
                    assert(texts(r@) =~= texts(before).push(values@[k as int].pointer.pointer@));
                }
            },
            _ => {},
        }
        k += 1;
    }
    proof {
        assert(all.take(values@.len() as int) =~= all);
    }
    r
}

/// What opening a document gives.
pub enum Opened {
    /// The array at the root, or at the chosen pointer, as a table: its rows
    /// and columns, the depth it starts at and the least depth it can be set
    /// to, and the parse's settings (its values moved to the rows).
    Table { rows: Vec<ArrayEntries>, columns: Vec<Column>, depth: u8, min_depth: u8, meta: FlatParse },
    /// The document is an object: the pointers of its arrays, to choose from.
    Arrays(Vec<String>),
    /// The document cannot be shown: why.
    Failed(String),
}

pub enum OpenedView {
    Table { rows: Seq<RowView>, columns: Seq<ColumnView>, depth: u8, min_depth: u8, meta: DocumentView },
    Arrays(Seq<Seq<char>>),
    Failed(Seq<char>),
}

pub open spec fn opened_view(o: Opened) -> OpenedView {
    match o {
        Opened::Table { rows, columns, depth, min_depth, meta } => OpenedView::Table {
            rows: rvs(rows@),
            columns: cvs(columns@),
            depth,
            min_depth,
            meta: doc_view(meta),
        },
        Opened::Arrays(v) => OpenedView::Arrays(texts(v@)),
        Opened::Failed(m) => OpenedView::Failed(m@),
    }
}

/// Opening a document: one whose first bracket opens an array, or with a
/// pointer chosen, is parsed from there (`flat_document`) and its array
/// shown as a table (`as_array_of`, `start_depths`); any other is parsed and
/// the pointers of its arrays offered (`array_pointers_of`).  It fails where
/// the parser would not return (`document_safe`), where it reports an
/// error, and where no table can be made.
pub open spec fn open_spec(json: Seq<u8>, selected: Option<Seq<char>>, max_depth: u8) -> OpenedView {
    if !document_safe(json, max_depth, selected) {
        OpenedView::Failed("the parser cannot read this document"@)
    } else if opens_with_array(json) || selected is Some {
        match flat_document(json, max_depth, selected) {
            Err(m) => OpenedView::Failed(m),
            Ok(d) => if !as_array_ready(d) {
                OpenedView::Failed("nothing to show"@)
            } else {
                match as_array_of(d) {
                    Err(m) => OpenedView::Failed(m),
                    Ok((rows, columns)) => if d.depth_after_start_at == u8::MAX {
                        OpenedView::Failed("the document is too deep"@)
                    } else {
                        let (depth, min_depth) = start_depths(d.depth_after_start_at, d.parsing_max_depth, d.max_json_depth);
                        OpenedView::Table { rows, columns, depth, min_depth, meta: DocumentView { json: seq![], ..d } }
                    },
                }
            },
        }
    } else {
        match flat_document(json, max_depth, None) {
            Err(m) => OpenedView::Failed(m),
            Ok(d) => OpenedView::Arrays(array_pointers_of(d.json)),
        }
    }
}

/// Opens a document (see `open_spec`), the array at `selected` when a
/// pointer is chosen, objects parsed down to `max_depth`.
pub fn open_document(json: &[u8], selected: Option<String>, max_depth: u8) -> (r: Opened)
    ensures
        opened_view(r) == open_spec(json@, opt_text(selected), max_depth),
{
    if !document_check(json, max_depth, &selected) {
        return Opened::Failed("the parser cannot read this document".to_string());
    }
    if root_is_array(json) || selected.is_some() {
        match parse_document(json, max_depth, selected) {
            Err(m) => Opened::Failed(m),
            Ok(p) => {
                if !as_array_check(&p) {
                    return Opened::Failed("nothing to show".to_string());
                }
                let meta = FlatParse {
                    json: Vec::new(),
                    max_json_depth: p.max_json_depth,
                    parsing_max_depth: p.parsing_max_depth,
                    started_parsing_at: p.started_parsing_at.clone(),
                    started_parsing_at_index_start: p.started_parsing_at_index_start,
                    started_parsing_at_index_end: p.started_parsing_at_index_end,
                    parsing_prefix: p.parsing_prefix.clone(),
                    depth_after_start_at: p.depth_after_start_at,
                };
                proof {
                    assert(fvs(meta.json@) =~= seq![]);
                    assert(doc_view(meta) == DocumentView { json: seq![], ..doc_view(p) });
                }
                match as_array(p) {
                    Err(m) => Opened::Failed(m),
                    Ok((rows, columns)) => {
                        if meta.depth_after_start_at == u8::MAX {
                            return Opened::Failed("the document is too deep".to_string());
                        }
                        let (depth, min_depth) = table_depths(meta.depth_after_start_at, meta.parsing_max_depth, meta.max_json_depth);
                        Opened::Table { rows, columns, depth, min_depth, meta }
                    },
                }
            },
        }
    } else {
        match parse_document(json, max_depth, None) {
            Err(m) => Opened::Failed(m),
            Ok(p) => Opened::Arrays(array_pointers(&p.json)),
        }
    }
}

} // verus!
