//! Flat JSON parsing and row-table helpers for a JSON table viewer.
//!
//! The lexer and parser turn a JSON document into a flat list of
//! `(pointer, value)` entries.  A pointer joins, after a `/` each, the keys
//! and element indices of the parser's route to the value, such as
//! `/skills/0/description` (keys are not escaped).  The route drops its last
//! key where an array ends, so a value that follows an array inside an
//! object is named without that object's key: in `{"x": {"a": [1], "b": 2}}`
//! the value `2` is at `/b`.
pub mod lexer;
pub mod model;
pub mod parser;
pub mod text;
pub mod laws;
pub mod rows;
pub mod replace;
pub mod time;
pub mod table;
pub mod widgets;
pub mod flat_json;
pub mod table_laws;
pub mod depth;
pub mod flatten;
pub mod cache;
pub mod panels;
pub mod array_table;
pub mod object_table;
pub mod document;
pub mod subtable_window;
pub mod filter_options;
