# json_table

A verified library behind a JSON table viewer: it flattens JSON documents
into `(pointer, value)` entries, shows the elements of an array as rows and
columns, and edits them (search, filters, find and replace, inserting rows,
writing values, deepening nested objects, saving).  Every function is
checked by Verus against its `requires`/`ensures`.

## Layout

- `src/lexer.rs`, `src/model.rs`, `src/parser.rs`: the lexer and the flat
  parser, with the parser's behaviour described as a state machine in
  `model.rs`; `src/laws.rs` holds properties of every parse.
- `src/rows.rs`: rows and columns of an array (`as_array`), search,
  filters, serialization of rows, column order.
- `src/replace.rs`: find and replace (literal, whole word, regular
  expression through `regex_lite`).
- `src/table.rs`: table state: visible columns, cells, filter toggles,
  inserting rows, writing values (through `json_flat_parser` and
  `serde_json`), keyboard navigation.
- `src/array_table.rs`: the state of an array table: columns shown at a
  depth, pinned columns, filters, the scroll-to-row and scroll-to-column
  searches, writing values and carrying out find-and-replace requests.
- `src/object_table.rs`: an object shown as a table of pointers and
  values, with editing, pasting and copying.
- `src/panels.rs`: the find-and-replace window's state and the requests it
  sends.
- `src/filter_options.rs`: the values a column's filter offers, gathered
  in an `indexmap::IndexSet`.
- `src/subtable_window.rs`: a window opened on a nested array or object,
  and how a change in the parent row reaches it.
- `src/document.rs`: opening a document: the first parse depth, parsing
  it through `json_flat_parser` (`open_document`), and showing an array as
  a table or offering the arrays of an object.
- `src/depth.rs`: parsing rows further through `json_flat_parser`
  (`deepen_rows`), and the rows and columns that gives.
- `src/flatten.rs`: flattening JSON trees and finding the value at a pointer.
- `src/cache.rs`: a per-frame cache.
- `src/time.rs`: spans and instants with checked arithmetic.
- `src/flat_json.rs`, `src/text.rs`: the calls into outside code, each with
  the contract it is trusted to meet, and the verified checks of the inputs
  on which `json_flat_parser` returns without panicking.
- `src/table_laws.rs`: properties of the table operations.
- `app/`: a command-line front end (file I/O, arguments, the number
  formatting that needs floating point).
