# kore

Converts JSON-shaped data into compact `.kore` text: arrays of objects become
aligned `name[col, ...]:` tables (optionally under an inferred `@types` block),
flat objects become `name(k=v, ...)` lines, arrays of primitives become
`name: a, b, c` lists, API envelopes become a `ctx(...)` line above their data
block, and anything else becomes `name: value`.

The library is written in Verus: every function carries a contract over a
mathematical model of its inputs and output, and the converter's laws (table
columns are the union of the rows' keys, distinct and in first-seen order; a
table has at least one row, and its body one line per row, whatever the
`pipe_rows` setting; the `@types` block follows the table columns;
nullable columns are exactly those with a missing or null cell; numeric
widening; quoting is lossless and reads back left to right; an envelope
converts to its data block under its `ctx` line; an object is one
`name(k=v, ...)` line when every field is inline and otherwise keeps every
field as a line or a block; result metadata matches the structure)
are proved as proof functions.

JSON objects are held as a vector of entries with distinct keys, in
insertion order, with `get` and `insert` proved against that model, rather
than as an `indexmap::IndexMap<String, JsonValue>` (which is what the
`ctx` metadata map uses). A JSON value is a recursive type, and Verus
accepts an outside generic type such as `IndexMap` only with each of its
type parameters marked as never recursive, so a value cannot hold a map
of values.

Layout:

- `src/json.rs` – the JSON model: values, insertion-ordered objects with
  distinct keys, and numbers as the renderer reads them.
- `src/serialize.rs` – the text of a single value and of a `ctx` value.
- `src/infer_types.rs` – column type inference and the `@types` block.
- `src/converter.rs` – tables, objects, lists, envelopes and the recursive
  converter.
- `src/lib.rs` – `to_kore`, the entry point.
- `src/types.rs` – options, results and the small shared enums.
- `src/collections.rs` – the `indexmap` map and set used by the library.
- `src/keyed.rs`, `src/text.rs` – keyed sequences and text building blocks.
- `app/lib.rs` – parsing JSON text with `serde_json` and computing the
  floating-point renderings of numbers, which stay outside the verified code.
