//! The recursive heart of the converter: turns any JSON value into `.kore`
//! text by deciding, at every level, whether it is a table, an object, a
//! list, or a plain scalar.

use indexmap::IndexMap;
use vstd::prelude::*;

use crate::collections::{ctx_entries, ctx_map_get_index, ctx_map_insert, ctx_map_len, ctx_map_new};
use crate::infer_types::{
    build_types_block, column_names, column_set, column_types, infer_table_types,
    lemma_columns_are_key_union, rows_view, types_block,
};
use crate::json::{JsonObject, JsonValue, JsonView, Row};
use crate::keyed::{key_index, keys_of, lemma_key_index, lemma_key_index_at, lookup};
use crate::serialize::{
    bool_text, ctx_text, ctx_value, field_texts, has_ambiguous_start, has_pipe, item_texts,
    number_text, quoted, render, serialize_value,
};
use crate::text::{
    char_to_uppercase, char_uppercase, chars_of, comma_sep, join, join_strings, push_char,
    free_of, is_white_space, lemma_join_free_of, lemma_split_join, lemma_trim_end_prefix, push_str,
    spaces, split_lines, string_of, to_owned, trim_end_of, trim_end_str, trim_of, trim_start_of,
    trim_str, views,
};
use crate::types::{CtxValue, CtxView, KoreOptions, KoreResult, Structure};

verus! {

/// Null, a boolean, a number or a string: never an array or an object.
pub open spec fn primitive_value(v: JsonView) -> bool {
    !(v is Array) && !(v is Object)
}

/// Every item is primitive.
pub open spec fn all_primitive(items: Seq<JsonView>) -> bool {
    forall|i: int| 0 <= i < items.len() ==> primitive_value(#[trigger] items[i])
}

/// A non-empty array whose every element is an object.
pub open spec fn object_array(v: JsonView) -> bool {
    v matches JsonView::Array(items) && items.len() > 0 && forall|i: int|
        0 <= i < items.len() ==> #[trigger] items[i] is Object
}

/// A primitive, or an array of primitives: renders inline as one field.
pub open spec fn inline_field(v: JsonView) -> bool {
    primitive_value(v) || (v matches JsonView::Array(items) && all_primitive(items))
}

/// `s` followed by spaces up to `width` characters; never shortened.
pub open spec fn pad_text(s: Seq<char>, width: nat) -> Seq<char> {
    if s.len() >= width {
        s
    } else {
        s + spaces((width - s.len()) as nat)
    }
}

/// `s` with its first character upper-cased.
pub open spec fn capitalized(s: Seq<char>) -> Seq<char> {
    if s.len() == 0 {
        seq![]
    } else {
        first_replaced(char_uppercase(s[0]), s)
    }
}

/// `s` with its first character replaced by `first`; empty if `s` is.
pub open spec fn first_replaced(first: Seq<char>, s: Seq<char>) -> Seq<char> {
    if s.len() == 0 {
        seq![]
    } else {
        first + s.skip(1)
    }
}

/// The `k=v` texts of `ctx` fields, in order.
pub open spec fn ctx_field_texts(fields: Seq<(Seq<char>, CtxView)>) -> Seq<Seq<char>> {
    Seq::new(fields.len(), |i: int| fields[i].0 + seq!['='] + ctx_text(fields[i].1))
}

/// The `ctx(k=v, k2=v2)` line, with its trailing newline.
pub open spec fn ctx_line(fields: Seq<(Seq<char>, CtxView)>) -> Seq<char> {
    "ctx("@ + join(ctx_field_texts(fields), comma_sep()) + ")\n"@
}

/// Pads `s` with trailing spaces up to `width` characters; a string already
/// at or past `width` is left as it is (this only pads, never truncates).
pub fn pad(s: &str, width: usize) -> (r: String)
    ensures
        r@ == pad_text(s@, width as nat),
        r@.len() == if s@.len() >= width { s@.len() } else { width as nat },
        r@.take(s@.len() as int) == s@,
{
    let len = s.unicode_len();
    let mut out = to_owned(s);
    if len < width {
        let mut k: usize = len;
        while k < width
            invariant
                len <= k <= width,
                len == s@.len(),
                out@ == s@ + spaces((k - len) as nat),
            decreases width - k,
        {
            push_char(&mut out, ' ');
            assert(out@ =~= s@ + spaces((k + 1 - len) as nat));
            k = k + 1;
        }
    }
    assert(out@.take(s@.len() as int) =~= s@);
    out
}

/// `s` with its first character upper-cased (by its full Unicode mapping).
pub fn capitalize(s: &str) -> (r: String)
    ensures
        r@ == capitalized(s@),
{
    let v = chars_of(s);
    if v.len() == 0 {
        String::new()
    } else {
        let upper = char_to_uppercase(v[0]);
        with_first_replaced(upper.as_str(), s)
    }
}

/// `s` with its first character replaced by the text `first`; an empty `s`
/// stays empty.
pub fn with_first_replaced(first: &str, s: &str) -> (r: String)
    ensures
        r@ == first_replaced(first@, s@),
{
    let v = chars_of(s);
    if v.len() == 0 {
        String::new()
    } else {
        let mut out = to_owned(first);
        let rest = string_of(&v, 1, v.len());
        push_str(&mut out, rest.as_str());
        assert(v@.subrange(1, v@.len() as int) =~= v@.skip(1));
        out
    }
}

/// Renders a `ctx(k=v, k2=v2)` line, with its trailing newline, from an
/// ordered map of metadata fields.
pub(crate) fn build_ctx(fields: &IndexMap<String, CtxValue>) -> (r: String)
    ensures
        r@ == ctx_line(ctx_entries(*fields)),
{
    let ghost es = ctx_entries(*fields);
    let n = ctx_map_len(fields);
    let mut parts: Vec<String> = Vec::new();
    let mut i: usize = 0;
    while i < n
        invariant
            n == es.len(),
            es == ctx_entries(*fields),
            i <= n,
            views(parts@) == ctx_field_texts(es).take(i as int),
        decreases n - i,
    {
        match ctx_map_get_index(fields, i) {
            Some(e) => {
                let mut part = e.0.clone();
                push_char(&mut part, '=');
                let v = ctx_value(e.1);
                push_str(&mut part, v.as_str());
                assert(e.1@ == es[i as int].1);
                assert(part@ == es[i as int].0 + seq!['='] + ctx_text(es[i as int].1));
                assert(part@ == ctx_field_texts(es)[i as int]);
                let ghost before = parts@;
                parts.push(part);
                assert(views(parts@) =~= views(before).push(part@));
                assert(views(parts@) =~= ctx_field_texts(es).take(i + 1));
            },
            None => {},
        }
        i = i + 1;
    }
    assert(ctx_field_texts(es).take(n as int) =~= ctx_field_texts(es));
    let mut out = to_owned("ctx(");
    let joined = join_strings(&parts, ", ");
    proof {
        reveal_strlit(", ");
        assert(", "@ =~= comma_sep());
    }
    push_str(&mut out, joined.as_str());
    push_str(&mut out, ")\n");
    out
}

/// The value a row holds in a column: `null` when the row lacks the column.
pub open spec fn cell(row: Row, col: Seq<char>) -> JsonView {
    match lookup(row, col) {
        Some(v) => v,
        None => JsonView::Null,
    }
}

/// The text of a table cell.
pub open spec fn cell_text(row: Row, col: Seq<char>) -> Seq<char> {
    render(cell(row, col), true)
}

/// The length of the longest cell text of a column (0 without rows).
pub open spec fn widest_cell(rows: Seq<Row>, col: Seq<char>) -> nat
    decreases rows.len(),
{
    if rows.len() == 0 {
        0
    } else {
        let w = widest_cell(rows.drop_last(), col);
        let l = cell_text(rows.last(), col).len();
        if l > w {
            l
        } else {
            w
        }
    }
}

/// The display width of a column: its longest text (header included),
/// capped at `max_width`.
pub open spec fn column_width(rows: Seq<Row>, col: Seq<char>, max_width: nat) -> nat {
    let w = if col.len() > widest_cell(rows, col) {
        col.len()
    } else {
        widest_cell(rows, col)
    };
    if w < max_width {
        w
    } else {
        max_width
    }
}

/// The `name[col, col2]:` header line of a table, with its newline.
pub open spec fn table_header(name: Seq<char>, cols: Seq<Seq<char>>) -> Seq<char> {
    name + seq!['['] + join(cols, comma_sep()) + "]:\n"@
}

/// The padded cells of one row.
pub open spec fn row_cells(rows: Seq<Row>, row: Row, cols: Seq<Seq<char>>, max_width: nat) -> Seq<
    Seq<char>,
> {
    Seq::new(
        cols.len(),
        |i: int| pad_text(cell_text(row, cols[i]), column_width(rows, cols[i], max_width)),
    )
}

/// One table line: the indent, then the cells joined by ` | `, without
/// trailing white space.
pub open spec fn row_line(rows: Seq<Row>, row: Row, cols: Seq<Seq<char>>, opts: KoreOptions) -> Seq<
    char,
> {
    opts.indent@ + trim_end_of(join(row_cells(rows, row, cols, opts.max_col_width as nat), " | "@))
}

/// The lines of a table body, one per row.
pub open spec fn body_lines(rows: Seq<Row>, cols: Seq<Seq<char>>, opts: KoreOptions) -> Seq<
    Seq<char>,
> {
    Seq::new(rows.len(), |r: int| row_line(rows, rows[r], cols, opts))
}

/// The text of a table: the optional types block and a blank separator,
/// the header, then one line per row.
pub open spec fn table_kore(rows: Seq<Row>, name: Seq<char>, opts: KoreOptions) -> Seq<char> {
    let cols = column_names(rows);
    (if opts.infer_types {
        types_block(capitalized(name), cols, column_types(rows)) + seq!['\n']
    } else {
        seq![]
    }) + table_header(name, cols) + join(body_lines(rows, cols, opts), seq!['\n'])
}

/// The model of a conversion result.
pub struct KoreOut {
    pub kore: Seq<char>,
    pub structure: Structure,
    pub columns: Option<Seq<Seq<char>>>,
    pub row_count: Option<nat>,
}

/// The model of a `KoreResult`.
pub open spec fn result_view(r: KoreResult) -> KoreOut {
    KoreOut {
        kore: r.kore@,
        structure: r.structure,
        columns: match r.columns {
            Some(c) => Some(views(c@)),
            None => None,
        },
        row_count: match r.row_count {
            Some(n) => Some(n as nat),
            None => None,
        },
    }
}

/// A table conversion: its text, its columns and its row count.
pub open spec fn table_out(rows: Seq<Row>, name: Seq<char>, opts: KoreOptions) -> KoreOut {
    KoreOut {
        kore: table_kore(rows, name, opts),
        structure: Structure::Table,
        columns: Some(column_names(rows)),
        row_count: Some(rows.len()),
    }
}

/// The column list of a table: every key of every row, each once, in
/// first-seen order.
pub fn table_columns(rows: &[JsonObject]) -> (r: Vec<String>)
    ensures
        views(r@) == column_names(rows_view(rows@)),
{
    crate::collections::name_set_into_vec(column_set(rows))
}

/// The text of the cell of `row` in column `col`.
fn cell_string(row: &JsonObject, col: &String) -> (r: String)
    ensures
        r@ == cell_text(row@, col@),
{
    match row.get(col) {
        Some(v) => serialize_value(v, true),
        None => {
            let mut out = String::new();
            push_char(&mut out, '_');
            assert(out@ =~= seq!['_']);
            out
        },
    }
}

/// The display width of every column.
fn column_widths(rows: &[JsonObject], columns: &Vec<String>, max_width: usize) -> (r: Vec<usize>)
    ensures
        r@.len() == columns@.len(),
        forall|i: int|
            0 <= i < columns@.len() ==> r@[i] as nat == column_width(
                rows_view(rows@),
                #[trigger] columns@[i]@,
                max_width as nat,
            ),
{
    let ghost rv = rows_view(rows@);
    let mut widths: Vec<usize> = Vec::new();
    let mut c: usize = 0;
    while c < columns.len()
        invariant
            c <= columns@.len(),
            rv == rows_view(rows@),
            widths@.len() == c,
            forall|i: int|
                0 <= i < c ==> widths@[i] as nat == column_width(
                    rv,
                    #[trigger] columns@[i]@,
                    max_width as nat,
                ),
        decreases columns.len() - c,
    {
        let col = &columns[c];
        let mut widest: usize = 0;
        let mut r: usize = 0;
        while r < rows.len()
            invariant
                r <= rows@.len(),
                rv == rows_view(rows@),
                widest as nat == widest_cell(rv.take(r as int), col@),
            decreases rows.len() - r,
        {
            let t = cell_string(&rows[r], col);
            let l = t.as_str().unicode_len();
            assert(rv.take(r + 1).drop_last() =~= rv.take(r as int));
            assert(rv.take(r + 1).last() == rows@[r as int]@);
            if l > widest {
                widest = l;
            }
            r = r + 1;
        }
        assert(rv.take(rows@.len() as int) =~= rv);
        let cl = col.as_str().unicode_len();
        let w0 = if cl > widest {
            cl
        } else {
            widest
        };
        let w = if w0 < max_width {
            w0
        } else {
            max_width
        };
        widths.push(w);
        c = c + 1;
    }
    widths
}

/// The padded cells of one row.
fn render_row_cells(row: &JsonObject, columns: &Vec<String>, widths: &Vec<usize>) -> (r: Vec<
    String,
>)
    requires
        widths@.len() == columns@.len(),
    ensures
        r@.len() == columns@.len(),
        forall|i: int|
            0 <= i < columns@.len() ==> (#[trigger] r@[i])@ == pad_text(
                cell_text(row@, columns@[i]@),
                widths@[i] as nat,
            ),
{
    let mut cells: Vec<String> = Vec::new();
    let mut i: usize = 0;
    while i < columns.len()
        invariant
            i <= columns@.len(),
            widths@.len() == columns@.len(),
            cells@.len() == i,
            forall|j: int|
                0 <= j < i ==> (#[trigger] cells@[j])@ == pad_text(
                    cell_text(row@, columns@[j]@),
                    widths@[j] as nat,
                ),
        decreases columns.len() - i,
    {
        let t = cell_string(row, &columns[i]);
        let p = pad(t.as_str(), widths[i]);
        cells.push(p);
        i = i + 1;
    }
    cells
}

/// Renders the header and body of a table.
pub fn convert_table(rows: &[JsonObject], block_name: &str, opts: &KoreOptions) -> (r: (
    String,
    String,
    Vec<String>,
))
    ensures
        r.0@ == table_header(block_name@, column_names(rows_view(rows@))),
        r.1@ == join(
            body_lines(rows_view(rows@), column_names(rows_view(rows@)), *opts),
            seq!['\n'],
        ),
        views(r.2@) == column_names(rows_view(rows@)),
{
    let ghost rv = rows_view(rows@);
    let columns = table_columns(rows);
    let ghost cols = views(columns@);
    let widths = column_widths(rows, &columns, opts.max_col_width);

    let mut header = to_owned(block_name);
    push_char(&mut header, '[');
    let col_list = join_strings(&columns, ", ");
    proof {
        reveal_strlit(", ");
        assert(", "@ =~= comma_sep());
    }
    push_str(&mut header, col_list.as_str());
    push_str(&mut header, "]:\n");

    let ghost lines = body_lines(rv, cols, *opts);
    let mut body_parts: Vec<String> = Vec::new();
    let mut r: usize = 0;
    while r < rows.len()
        invariant
            r <= rows@.len(),
            rv == rows_view(rows@),
            cols == views(columns@),
            cols == column_names(rv),
            lines == body_lines(rv, cols, *opts),
            widths@.len() == columns@.len(),
            forall|i: int|
                0 <= i < columns@.len() ==> widths@[i] as nat == column_width(
                    rv,
                    #[trigger] columns@[i]@,
                    opts.max_col_width as nat,
                ),
            views(body_parts@) == lines.take(r as int),
        decreases rows.len() - r,
    {
        let cells = render_row_cells(&rows[r], &columns, &widths);
        assert(views(cells@) =~= row_cells(rv, rv[r as int], cols, opts.max_col_width as nat));
        let joined = join_strings(&cells, " | ");
        let trimmed = trim_end_str(joined.as_str());
        let mut line = opts.indent.clone();
        push_str(&mut line, trimmed.as_str());
        let ghost before = body_parts@;
        body_parts.push(line);
        assert(views(body_parts@) =~= views(before).push(line@));
        assert(views(body_parts@) =~= lines.take(r + 1));
        r = r + 1;
    }
    assert(lines.take(rows@.len() as int) =~= lines);
    proof {
        reveal_strlit("\n");
        assert("\n"@ =~= seq!['\n']);
    }
    let body = join_strings(&body_parts, "\n");
    (header, body, columns)
}

/// The rows of a table made from array items: an object is a row as it is;
/// any other item becomes a row with the single field `value`.
pub open spec fn table_rows(items: Seq<JsonView>) -> Seq<Row> {
    Seq::new(
        items.len(),
        |i: int|
            match items[i] {
                JsonView::Object(row) => row,
                _ => seq![("value"@, items[i])],
            },
    )
}

/// `name: a, b, c`.
pub open spec fn list_kore(items: Seq<JsonView>, name: Seq<char>) -> Seq<char> {
    name + ": "@ + join(item_texts(items), comma_sep())
}

/// An array or an object.
pub open spec fn is_container(v: JsonView) -> bool {
    v is Array || v is Object
}

/// How many fields hold an array or an object.
pub open spec fn container_count(row: Row) -> nat
    decreases row.len(),
{
    if row.len() == 0 {
        0
    } else {
        container_count(row.drop_last()) + if is_container(row.last().1) {
            1nat
        } else {
            0nat
        }
    }
}

/// The index of the first field that holds an array or an object, or -1.
pub open spec fn first_container(row: Row) -> int
    decreases row.len(),
{
    if row.len() == 0 {
        -1
    } else if is_container(row[0].1) {
        0
    } else {
        let r = first_container(row.drop_first());
        if r < 0 {
            -1
        } else {
            r + 1
        }
    }
}

/// The `ctx` value of an envelope's metadata field: strings, numbers (as
/// binary64 values) and booleans; anything else is left out.
pub open spec fn meta_value(v: JsonView) -> Option<CtxView> {
    match v {
        JsonView::Str(s) => Some(CtxView::Str(s)),
        JsonView::Number(n) => Some(CtxView::Num(n.approx_part())),
        JsonView::Bool(b) => Some(CtxView::Bool(b)),
        _ => None,
    }
}

/// The metadata fields of an envelope whose data key is `dk`: every other
/// field that holds a string, a number or a boolean, in order.
pub open spec fn meta_fields(row: Row, dk: Seq<char>) -> Seq<(Seq<char>, CtxView)>
    decreases row.len(),
{
    if row.len() == 0 {
        seq![]
    } else {
        let prev = meta_fields(row.drop_last(), dk);
        let e = row.last();
        if e.0 == dk {
            prev
        } else {
            match meta_value(e.1) {
                Some(c) => prev.push((e.0, c)),
                None => prev,
            }
        }
    }
}

/// The fields of an object that render inline, in order.
pub open spec fn scalar_fields(row: Row) -> Row
    decreases row.len(),
{
    if row.len() == 0 {
        seq![]
    } else if inline_field(row.last().1) {
        scalar_fields(row.drop_last()).push(row.last())
    } else {
        scalar_fields(row.drop_last())
    }
}

/// How many fields of an object need a block of their own.
pub open spec fn nested_count(row: Row) -> nat
    decreases row.len(),
{
    if row.len() == 0 {
        0
    } else {
        nested_count(row.drop_last()) + if inline_field(row.last().1) {
            0nat
        } else {
            1nat
        }
    }
}

/// The `key: value` lines of the inline fields.
pub open spec fn scalar_lines(fields: Row) -> Seq<Seq<char>> {
    Seq::new(fields.len(), |i: int| fields[i].0 + ": "@ + render(fields[i].1, false))
}

/// For each field that needs a block of its own: a blank line, then that
/// field converted under its own name and trimmed.
pub open spec fn nested_lines(row: Row, opts: KoreOptions) -> Seq<Seq<char>>
    decreases row, 0nat,
{
    if row.len() == 0 {
        seq![]
    } else {
        let prev = nested_lines(row.drop_last(), opts);
        let e = row.last();
        if inline_field(e.1) {
            prev
        } else {
            proof {
                assert(decreases_to!(row => row[row.len() - 1]));
            }
            prev + seq![seq![], trim_of(convert(e.1, e.0, opts).kore)]
        }
    }
}

/// An object: `name(k=v, ...)` when every field renders inline; otherwise
/// the `key: value` lines of the inline fields, then each other field as a
/// block of its own after a blank line.
pub open spec fn object_kore(row: Row, name: Seq<char>, opts: KoreOptions) -> Seq<char>
    decreases row, 1nat,
{
    let scalars = scalar_fields(row);
    if scalars.len() > 0 && nested_count(row) == 0 {
        name + seq!['('] + join(field_texts(scalars), comma_sep()) + seq![')']
    } else {
        join(scalar_lines(scalars) + nested_lines(row, opts), seq!['\n'])
    }
}

/// An envelope: an object of several fields of which exactly one holds an
/// array or an object. That field is the data, converted under its own
/// name; the string, number and boolean fields become a `ctx(...)` line
/// above it, followed by a blank line.
pub open spec fn envelope_out(row: Row, opts: KoreOptions) -> KoreOut
    decreases row, 1nat,
{
    let i = first_container(row);
    let dk = row[i].0;
    let meta = meta_fields(row, dk);
    let inner = if 0 <= i < row.len() {
        proof {
            assert(decreases_to!(row => row[i]));
        }
        convert(row[i].1, dk, opts)
    } else {
        arbitrary()
    };
    let head: Seq<Seq<char>> = if meta.len() > 0 {
        seq![trim_of(ctx_line(meta)), seq![]]
    } else {
        seq![]
    };
    KoreOut { kore: join(head.push(inner.kore), seq!['\n']), ..inner }
}

/// The conversion of any value under a block name: an array of objects is a
/// table; an array of primitives is a list; any other array is a table
/// whose non-object items become rows with the single field `value`; an
/// envelope object is its data block under a `ctx` line; any other object
/// is an object block; anything else is `name: value`.
pub open spec fn convert(data: JsonView, name: Seq<char>, opts: KoreOptions) -> KoreOut
    decreases data, 2nat,
{
    match data {
        JsonView::Array(items) => if object_array(data) {
            table_out(table_rows(items), name, opts)
        } else if all_primitive(items) {
            KoreOut {
                kore: list_kore(items, name),
                structure: Structure::List,
                columns: None,
                row_count: Some(items.len()),
            }
        } else {
            table_out(table_rows(items), name, opts)
        },
        JsonView::Object(row) => if container_count(row) == 1 && row.len() > 1 {
            envelope_out(row, opts)
        } else {
            KoreOut {
                kore: object_kore(row, name, opts),
                structure: Structure::Object,
                columns: None,
                row_count: None,
            }
        },
        _ => KoreOut {
            kore: name + ": "@ + render(data, false),
            structure: Structure::Scalar,
            columns: None,
            row_count: None,
        },
    }
}

/// The models of a sequence of values.
pub open spec fn items_view(items: Seq<JsonValue>) -> Seq<JsonView> {
    items.map_values(|v: JsonValue| v@)
}

/// Whether a value is primitive.
fn is_primitive(value: &JsonValue) -> (r: bool)
    ensures
        r == primitive_value(value@),
{
    match value {
        JsonValue::Array(_) => false,
        JsonValue::Object(_) => false,
        _ => true,
    }
}

/// Whether every item is primitive.
fn all_primitive_items(items: &Vec<JsonValue>) -> (r: bool)
    ensures
        r == all_primitive(items_view(items@)),
{
    let mut i: usize = 0;
    while i < items.len()
        invariant
            i <= items@.len(),
            forall|j: int| 0 <= j < i ==> primitive_value(#[trigger] items_view(items@)[j]),
        decreases items.len() - i,
    {
        if !is_primitive(&items[i]) {
            assert(!primitive_value(items_view(items@)[i as int]));
            return false;
        }
        i = i + 1;
    }
    true
}

/// Whether `value` is a non-empty array whose every element is an object.
#[verifier::loop_isolation(false)]
fn is_object_array(value: &JsonValue) -> (r: bool)
    ensures
        r == object_array(value@),
{
    match value {
        JsonValue::Array(items) => {
            let ghost iv = value@->Array_0;
            if items.len() == 0 {
                return false;
            }
            let mut i: usize = 0;
            while i < items.len()
                invariant
                    i <= items@.len(),
                    iv.len() == items@.len(),
                    iv == value@->Array_0,
                    value@ is Array,
                    forall|j: int| 0 <= j < i ==> #[trigger] iv[j] is Object,
                decreases items.len() - i,
            {
                assert(iv[i as int] == items@[i as int]@);
                match &items[i] {
                    JsonValue::Object(_) => {},
                    _ => {
                        return false;
                    },
                }
                i = i + 1;
            }
            true
        },
        _ => false,
    }
}

/// Whether `value` is a primitive or an array of primitives.
fn is_scalar_field(value: &JsonValue) -> (r: bool)
    ensures
        r == inline_field(value@),
{
    match value {
        JsonValue::Array(items) => {
            let r = all_primitive_items(items);
            assert(value@->Array_0 =~= items_view(items@));
            r
        },
        JsonValue::Object(_) => false,
        _ => true,
    }
}

/// The rows of a table made from array items: objects are copied as they
/// are; any other item is wrapped as `{ value: item }`.
fn normalized_rows(items: &Vec<JsonValue>) -> (r: Vec<JsonObject>)
    ensures
        rows_view(r@) == table_rows(items_view(items@)),
{
    let ghost iv = items_view(items@);
    let mut rows: Vec<JsonObject> = Vec::new();
    let mut i: usize = 0;
    while i < items.len()
        invariant
            i <= items@.len(),
            iv == items_view(items@),
            rows@.len() == i,
            forall|j: int| 0 <= j < i ==> (#[trigger] rows@[j])@ == table_rows(iv)[j],
        decreases items.len() - i,
    {
        let row = match &items[i] {
            JsonValue::Object(o) => o.duplicate(),
            other => {
                let mut m = JsonObject::new();
                m.insert(to_owned("value"), other.duplicate());
                assert(m@ =~= seq![("value"@, iv[i as int])]);
                m
            },
        };
        rows.push(row);
        i = i + 1;
    }
    assert(rows_view(rows@) =~= table_rows(iv));
    rows
}

/// Converts the rows of a table: the optional `@types` block and a blank
/// separator, then the header and one line per row.
fn convert_rows(rows: &[JsonObject], block_name: &str, opts: &KoreOptions) -> (r: KoreResult)
    ensures
        result_view(r) == table_out(rows_view(rows@), block_name@, *opts),
{
    let mut types_block = String::new();
    if opts.infer_types {
        let type_map = infer_table_types(rows);
        let block_type = capitalize(block_name);
        let columns = table_columns(rows);
        types_block = build_types_block(block_type.as_str(), columns.as_slice(), &type_map);
        push_char(&mut types_block, '\n');
    }
    let (header, body, columns) = convert_table(rows, block_name, opts);
    let mut kore = types_block;
    push_str(&mut kore, header.as_str());
    push_str(&mut kore, body.as_str());
    let r = KoreResult {
        kore,
        structure: Structure::Table,
        columns: Some(columns),
        row_count: Some(rows.len()),
    };
    assert(result_view(r).kore =~= table_kore(rows_view(rows@), block_name@, *opts));
    r
}

/// `name: a, b, c` for an array of primitives.
fn convert_primitive_list(items: &Vec<JsonValue>, block_name: &str) -> (r: String)
    ensures
        r@ == list_kore(items_view(items@), block_name@),
{
    let ghost iv = items_view(items@);
    let mut parts: Vec<String> = Vec::new();
    let mut i: usize = 0;
    while i < items.len()
        invariant
            i <= items@.len(),
            iv == items_view(items@),
            views(parts@) == item_texts(iv.take(i as int)),
        decreases items.len() - i,
    {
        let t = serialize_value(&items[i], false);
        assert(iv.take(i + 1).drop_last() =~= iv.take(i as int));
        let ghost before = parts@;
        parts.push(t);
        assert(views(parts@) =~= views(before).push(t@));
        i = i + 1;
    }
    assert(iv.take(items@.len() as int) =~= iv);
    let mut out = to_owned(block_name);
    push_str(&mut out, ": ");
    let joined = join_strings(&parts, ", ");
    proof {
        reveal_strlit(", ");
        assert(", "@ =~= comma_sep());
    }
    push_str(&mut out, joined.as_str());
    out
}

/// The key of the first field that holds an array or an object, if any.
fn find_data_key(obj: &JsonObject) -> (r: Option<String>)
    ensures
        match r {
            Some(k) => 0 <= first_container(obj@) < obj@.len() && k@ == obj@[first_container(
                obj@,
            )].0,
            None => first_container(obj@) < 0,
        },
{
    let n = obj.len();
    let mut i: usize = 0;
    assert(obj@.skip(0) =~= obj@);
    while i < n
        invariant
            n == obj@.len(),
            i <= n,
            first_container(obj@) < 0 || first_container(obj@) >= i,
            first_container(obj@.skip(i as int)) < 0 ==> first_container(obj@) < 0,
            first_container(obj@.skip(i as int)) >= 0 ==> first_container(obj@) == i
                + first_container(obj@.skip(i as int)),
        decreases n - i,
    {
        let v = obj.value_at(i);
        let ghost rest = obj@.skip(i as int);
        assert(rest[0] == obj@[i as int]);
        assert(rest.drop_first() =~= obj@.skip(i + 1));
        match v {
            JsonValue::Array(_) | JsonValue::Object(_) => {
                return Some(obj.key_at(i).clone());
            },
            _ => {},
        }
        i = i + 1;
    }
    assert(obj@.skip(n as int).len() == 0);
    None
}

/// The keys of the metadata fields are keys of the envelope.
proof fn lemma_meta_keys(row: Row, dk: Seq<char>)
    ensures
        forall|m: int|
            0 <= m < meta_fields(row, dk).len() ==> keys_of(row).contains(
                #[trigger] meta_fields(row, dk)[m].0,
            ),
    decreases row.len(),
{
    if row.len() > 0 {
        lemma_meta_keys(row.drop_last(), dk);
        let prev = meta_fields(row.drop_last(), dk);
        assert forall|m: int|
            0 <= m < meta_fields(row, dk).len() implies keys_of(row).contains(
            #[trigger] meta_fields(row, dk)[m].0,
        ) by {
            if m < prev.len() {
                let j = choose|j: int|
                    0 <= j < keys_of(row.drop_last()).len() && keys_of(row.drop_last())[j]
                        == prev[m].0;
                assert(keys_of(row)[j] == prev[m].0);
            } else {
                assert(keys_of(row)[row.len() - 1] == row.last().0);
            }
        }
    }
}

/// A container exists exactly when there is a first one.
proof fn lemma_first_container(row: Row)
    ensures
        -1 <= first_container(row) < row.len(),
        first_container(row) >= 0 ==> is_container(row[first_container(row)].1),
        first_container(row) >= 0 ==> forall|j: int|
            0 <= j < first_container(row) ==> !is_container(#[trigger] row[j].1),
        container_count(row) > 0 ==> first_container(row) >= 0,
    decreases row.len(),
{
    if row.len() > 0 {
        lemma_first_container(row.drop_first());
        lemma_container_count_front(row);
        if first_container(row) > 0 {
            assert forall|j: int| 0 <= j < first_container(row) implies !is_container(
                #[trigger] row[j].1,
            ) by {
                if j > 0 {
                    assert(row[j] == row.drop_first()[j - 1]);
                }
            }
        }
    }
}

/// Counting containers from the front.
proof fn lemma_container_count_front(row: Row)
    requires
        row.len() > 0,
    ensures
        is_container(row[0].1) ==> container_count(row) == container_count(row.drop_first()) + 1,
        !is_container(row[0].1) ==> container_count(row) == container_count(row.drop_first()),
    decreases row.len(),
{
    let dl = row.drop_last();
    let df = row.drop_first();
    if row.len() > 1 {
        lemma_container_count_front(dl);
        assert(dl.drop_first() =~= df.drop_last());
        assert(dl[0] == row[0]);
        assert(df.last() == row.last());
        assert(container_count(row) == container_count(dl) + if is_container(row.last().1) {
            1nat
        } else {
            0nat
        });
        assert(container_count(df) == container_count(df.drop_last()) + if is_container(
            df.last().1,
        ) {
            1nat
        } else {
            0nat
        });
    } else {
        assert(df.len() == 0);
        assert(dl.len() == 0);
        assert(container_count(dl) == 0);
        assert(container_count(df) == 0);
        assert(row.last() == row[0]);
    }
}

/// The number of fields holding an array or an object.
fn count_containers(obj: &JsonObject) -> (r: usize)
    ensures
        r == container_count(obj@),
{
    let n = obj.len();
    let mut count: usize = 0;
    let mut i: usize = 0;
    while i < n
        invariant
            n == obj@.len(),
            i <= n,
            count == container_count(obj@.take(i as int)),
            count <= i,
        decreases n - i,
    {
        assert(obj@.take(i + 1).drop_last() =~= obj@.take(i as int));
        match obj.value_at(i) {
            JsonValue::Array(_) | JsonValue::Object(_) => {
                count = count + 1;
            },
            _ => {},
        }
        i = i + 1;
    }
    assert(obj@.take(n as int) =~= obj@);
    count
}

/// Converts an envelope: a `ctx(...)` line for the metadata fields (when
/// there are any) and a blank line, then the data field converted under its
/// own name.
fn convert_envelope(obj: &JsonObject, data_key: &String, opts: &KoreOptions) -> (r: KoreResult)
    requires
        0 <= first_container(obj@) < obj@.len(),
        data_key@ == obj@[first_container(obj@)].0,
    ensures
        result_view(r) == envelope_out(obj@, *opts),
    decreases obj, 1nat,
{
    let ghost row = obj@;
    let n = obj.len();
    let mut meta = ctx_map_new();
    let mut i: usize = 0;
    while i < n
        invariant
            n == row.len(),
            row == obj@,
            keys_of(row).no_duplicates(),
            i <= n,
            ctx_entries(meta) == meta_fields(row.take(i as int), data_key@),
        decreases n - i,
    {
        let k = obj.key_at(i);
        let ghost prev = ctx_entries(meta);
        assert(row.take(i + 1).drop_last() =~= row.take(i as int));
        assert(row.take(i + 1).last() == row[i as int]);
        proof {
            lemma_meta_keys(row.take(i as int), data_key@);
            lemma_key_index(prev, k@);
            if key_index(prev, k@) >= 0 {
                let m = key_index(prev, k@);
                assert(keys_of(row.take(i as int)).contains(prev[m].0));
                let j = choose|j: int|
                    0 <= j < i && keys_of(row.take(i as int))[j] == prev[m].0;
                assert(keys_of(row)[j] == keys_of(row)[i as int]);
            }
        }
        if *k != *data_key {
            match obj.value_at(i) {
                JsonValue::String(s) => {
                    ctx_map_insert(&mut meta, k.clone(), CtxValue::Str(s.clone()));
                },
                JsonValue::Number(num) => {
                    ctx_map_insert(&mut meta, k.clone(), CtxValue::Num(num.approx().duplicate()));
                },
                JsonValue::Bool(b) => {
                    ctx_map_insert(&mut meta, k.clone(), CtxValue::Bool(*b));
                },
                _ => {},
            }
        }
        i = i + 1;
    }
    assert(row.take(n as int) =~= row);
    let mut parts: Vec<String> = Vec::new();
    if ctx_map_len(&meta) > 0 {
        let line = build_ctx(&meta);
        parts.push(trim_str(line.as_str()));
        parts.push(String::new());
    }
    let ghost fc = first_container(row);
    proof {
        lemma_key_index(row, data_key@);
        let ki = key_index(row, data_key@);
        if ki != fc {
            assert(keys_of(row)[ki] == keys_of(row)[fc]);
        }
        assert(key_index(row, data_key@) == fc);
    }
    let inner = match obj.get(data_key) {
        Some(v) => {
            proof {
                obj.lemma_entry_decreases(fc);
            }
            convert_any(v, data_key.as_str(), opts)
        },
        None => {
            let null = JsonValue::Null;
            convert_any(&null, data_key.as_str(), opts)
        },
    };
    let ghost head = views(parts@);
    assert(head =~= if meta_fields(row, data_key@).len() > 0 {
        seq![trim_of(ctx_line(meta_fields(row, data_key@))), Seq::<char>::empty()]
    } else {
        Seq::<Seq<char>>::empty()
    });
    parts.push(inner.kore);
    proof {
        reveal_strlit("\n");
        assert("\n"@ =~= seq!['\n']);
    }
    let kore = join_strings(&parts, "\n");
    let r = KoreResult {
        kore,
        structure: inner.structure,
        columns: inner.columns,
        row_count: inner.row_count,
    };
    assert(views(parts@) =~= head.push(result_view(inner).kore));
    r
}

/// Converts an object that is not an envelope.
pub fn convert_object(obj: &JsonObject, block_name: &str, opts: &KoreOptions) -> (r: String)
    ensures
        r@ == object_kore(obj@, block_name@, *opts),
    decreases obj, 1nat,
{
    let ghost row = obj@;
    let n = obj.len();
    let mut skeys: Vec<String> = Vec::new();
    let mut svals: Vec<String> = Vec::new();
    let mut nested: Vec<String> = Vec::new();
    let mut nested_n: usize = 0;
    let mut i: usize = 0;
    while i < n
        invariant
            n == row.len(),
            row == obj@,
            i <= n,
            skeys@.len() == svals@.len() == scalar_fields(row.take(i as int)).len(),
            forall|j: int|
                0 <= j < skeys@.len() ==> (#[trigger] skeys@[j])@ == scalar_fields(
                    row.take(i as int),
                )[j].0 && svals@[j]@ == render(scalar_fields(row.take(i as int))[j].1, false),
            views(nested@) == nested_lines(row.take(i as int), *opts),
            nested_n == nested_count(row.take(i as int)),
            nested_n <= i,
        decreases n - i,
    {
        let k = obj.key_at(i);
        let v = obj.value_at(i);
        assert(row.take(i + 1).drop_last() =~= row.take(i as int));
        assert(row.take(i + 1).last() == row[i as int]);
        if is_scalar_field(v) {
            assert(scalar_fields(row.take(i + 1)) == scalar_fields(row.take(i as int)).push(
                row[i as int],
            ));
            skeys.push(k.clone());
            svals.push(serialize_value(v, false));
        } else {
            assert(scalar_fields(row.take(i + 1)) == scalar_fields(row.take(i as int)));
            let ghost before = nested@;
            nested.push(String::new());
            proof {
                obj.lemma_entry_decreases(i as int);
            }
            let inner = convert_any(v, k.as_str(), opts);
            nested.push(trim_str(inner.kore.as_str()));
            assert(views(nested@) =~= views(before) + seq![
                seq![],
                trim_of(convert(row[i as int].1, row[i as int].0, *opts).kore),
            ]);
            nested_n = nested_n + 1;
        }
        i = i + 1;
    }
    assert(row.take(n as int) =~= row);
    let ghost sf = scalar_fields(row);
    if skeys.len() > 0 && nested_n == 0 {
        let mut parts: Vec<String> = Vec::new();
        let mut j: usize = 0;
        while j < skeys.len()
            invariant
                skeys@.len() == svals@.len() == sf.len(),
                forall|m: int|
                    0 <= m < skeys@.len() ==> (#[trigger] skeys@[m])@ == sf[m].0 && svals@[m]@
                        == render(sf[m].1, false),
                j <= skeys@.len(),
                views(parts@) == field_texts(sf.take(j as int)),
            decreases skeys.len() - j,
        {
            let mut part = skeys[j].clone();
            push_char(&mut part, '=');
            push_str(&mut part, svals[j].as_str());
            assert(sf.take(j + 1).drop_last() =~= sf.take(j as int));
            assert(sf.take(j + 1).last() == sf[j as int]);
            assert(part@ == sf[j as int].0 + seq!['='] + render(sf[j as int].1, false));
            assert(field_texts(sf.take(j + 1)) == field_texts(sf.take(j as int)).push(part@));
            let ghost before = parts@;
            parts.push(part);
            assert(views(parts@) =~= views(before).push(part@));
            j = j + 1;
        }
        assert(sf.take(sf.len() as int) =~= sf);
        let mut out = to_owned(block_name);
        push_char(&mut out, '(');
        let joined = join_strings(&parts, ", ");
        proof {
            reveal_strlit(", ");
            assert(", "@ =~= comma_sep());
        }
        push_str(&mut out, joined.as_str());
        push_char(&mut out, ')');
        out
    } else {
        let mut lines: Vec<String> = Vec::new();
        let mut j: usize = 0;
        while j < skeys.len()
            invariant
                skeys@.len() == svals@.len() == sf.len(),
                forall|m: int|
                    0 <= m < skeys@.len() ==> (#[trigger] skeys@[m])@ == sf[m].0 && svals@[m]@
                        == render(sf[m].1, false),
                j <= skeys@.len(),
                views(lines@) == scalar_lines(sf).take(j as int),
            decreases skeys.len() - j,
        {
            let mut line = skeys[j].clone();
            push_str(&mut line, ": ");
            push_str(&mut line, svals[j].as_str());
            let ghost before = lines@;
            lines.push(line);
            assert(views(lines@) =~= views(before).push(line@));
            assert(views(lines@) =~= scalar_lines(sf).take(j + 1));
            j = j + 1;
        }
        assert(scalar_lines(sf).take(sf.len() as int) =~= scalar_lines(sf));
        let ghost first = views(lines@);
        lines.append(&mut nested);
        assert(views(lines@) =~= first + nested_lines(row, *opts));
        proof {
            reveal_strlit("\n");
            assert("\n"@ =~= seq!['\n']);
        }
        join_strings(&lines, "\n")
    }
}

/// Converts any value into `.kore` text under the given block name,
/// recursing as needed for nested arrays and objects.
pub fn convert_any(data: &JsonValue, block_name: &str, opts: &KoreOptions) -> (r: KoreResult)
    ensures
        result_view(r) == convert(data@, block_name@, *opts),
    decreases data, 2nat,
{
    match data {
        JsonValue::Array(items) => {
            assert(data@->Array_0 =~= items_view(items@));
            if is_object_array(data) {
                let rows = normalized_rows(items);
                return convert_rows(rows.as_slice(), block_name, opts);
            }
            if all_primitive_items(items) {
                return KoreResult {
                    kore: convert_primitive_list(items, block_name),
                    structure: Structure::List,
                    columns: None,
                    row_count: Some(items.len()),
                };
            }
            let rows = normalized_rows(items);
            convert_rows(rows.as_slice(), block_name, opts)
        },
        JsonValue::Object(obj) => {
            let n = obj.len();
            let count = count_containers(obj);
            if count == 1 && n > 1 {
                proof {
                    lemma_first_container(obj@);
                }
                match find_data_key(obj) {
                    Some(data_key) => {
                        return convert_envelope(obj, &data_key, opts);
                    },
                    None => {},
                }
            }
            KoreResult {
                kore: convert_object(obj, block_name, opts),
                structure: Structure::Object,
                columns: None,
                row_count: None,
            }
        },
        _ => {
            let mut kore = to_owned(block_name);
            push_str(&mut kore, ": ");
            let v = serialize_value(data, false);
            push_str(&mut kore, v.as_str());
            KoreResult { kore, structure: Structure::Scalar, columns: None, row_count: None }
        },
    }
}

/// The result's metadata always matches its structure: columns are given
/// exactly for tables, and a row count exactly for tables and lists. A
/// table's row count is its number of rows and its columns are the union of
/// its rows' keys; a list's row count is its number of items.
pub proof fn lemma_result_shape(data: JsonView, name: Seq<char>, opts: KoreOptions)
    ensures
        convert(data, name, opts).columns is Some <==> convert(data, name, opts).structure
            == Structure::Table,
        convert(data, name, opts).row_count is Some <==> (convert(data, name, opts).structure
            == Structure::Table || convert(data, name, opts).structure == Structure::List),
        data matches JsonView::Array(items) ==> if all_primitive(items) {
            convert(data, name, opts).row_count == Some(items.len())
        } else {
            convert(data, name, opts).row_count == Some(items.len()) && convert(
                data,
                name,
                opts,
            ).columns == Some(column_names(table_rows(items)))
        },
        convert(data, name, opts).structure == Structure::Table ==> (convert(
            data,
            name,
            opts,
        ).row_count matches Some(n) && n >= 1) && (convert(data, name, opts).columns matches Some(
            cols,
        ) && cols.no_duplicates()),
    decreases data,
{
    match data {
        JsonView::Object(row) => {
            if container_count(row) == 1 && row.len() > 1 {
                let i = first_container(row);
                lemma_first_container(row);
                assert(decreases_to!(row => row[i]));
                lemma_result_shape(row[i].1, row[i].0, opts);
            }
        },
        JsonView::Array(items) => {
            if object_array(data) {
                assert(!all_primitive(items)) by {
                    assert(items[0] is Object);
                }
            }
            lemma_columns_are_key_union(table_rows(items));
        },
        _ => {},
    }
}

/// An object that is not an envelope keeps every field: each renders either
/// inline or as a block of its own.
pub proof fn lemma_object_keeps_every_field(row: Row)
    ensures
        scalar_fields(row).len() + nested_count(row) == row.len(),
    decreases row.len(),
{
    if row.len() > 0 {
        lemma_object_keeps_every_field(row.drop_last());
    }
}

/// A field that holds a container makes the container count positive.
proof fn lemma_one_container(row: Row, a: int)
    requires
        0 <= a < row.len(),
        is_container(row[a].1),
    ensures
        container_count(row) >= 1,
    decreases row.len(),
{
    if a < row.len() - 1 {
        assert(row.drop_last()[a] == row[a]);
        lemma_one_container(row.drop_last(), a);
    }
}

/// Two fields that hold containers make the container count at least two.
proof fn lemma_two_containers(row: Row, a: int, b: int)
    requires
        0 <= a < b < row.len(),
        is_container(row[a].1),
        is_container(row[b].1),
    ensures
        container_count(row) >= 2,
    decreases row.len(),
{
    assert(row.drop_last()[a] == row[a]);
    if b == row.len() - 1 {
        lemma_one_container(row.drop_last(), a);
    } else {
        assert(row.drop_last()[b] == row[b]);
        lemma_two_containers(row.drop_last(), a, b);
    }
}

/// An envelope (an object of several fields, exactly one of which holds an
/// array or an object) converts to its data field, converted under that
/// field's key: same structure, columns and row count. Its text is the data
/// block alone when no other field holds a string, a number or a boolean;
/// otherwise `ctx(k=v, ...)` over those fields, in order, then a blank line,
/// then the data block.
pub proof fn lemma_envelope(row: Row, name: Seq<char>, opts: KoreOptions)
    requires
        container_count(row) == 1,
        row.len() > 1,
    ensures
        ({
            let i = first_container(row);
            let dk = row[i].0;
            let meta = meta_fields(row, dk);
            let inner = convert(row[i].1, dk, opts);
            let r = convert(JsonView::Object(row), name, opts);
            &&& 0 <= i < row.len()
            &&& is_container(row[i].1)
            &&& forall|j: int| 0 <= j < row.len() && j != i ==> !is_container(#[trigger] row[j].1)
            &&& r.structure == inner.structure
            &&& r.columns == inner.columns
            &&& r.row_count == inner.row_count
            &&& r.kore == if meta.len() == 0 {
                inner.kore
            } else {
                "ctx("@ + join(ctx_field_texts(meta), comma_sep()) + ")"@ + "\n\n"@ + inner.kore
            }
        }),
{
    let i = first_container(row);
    lemma_first_container(row);
    assert forall|j: int| 0 <= j < row.len() && j != i implies !is_container(#[trigger] row[j].1) by {
        if is_container(row[j].1) {
            if j < i {
                lemma_two_containers(row, j, i);
            } else {
                lemma_two_containers(row, i, j);
            }
        }
    }
    let dk = row[i].0;
    let meta = meta_fields(row, dk);
    let inner = convert(row[i].1, dk, opts);
    if meta.len() > 0 {
        let body = "ctx("@ + join(ctx_field_texts(meta), comma_sep()) + ")"@;
        let line = ctx_line(meta);
        reveal_strlit(")\n");
        reveal_strlit(")");
        reveal_strlit("ctx(");
        reveal_strlit("\n\n");
        assert(line.drop_last() =~= body);
        assert(is_white_space(line.last()));
        assert(trim_end_of(body) == body);
        assert(trim_end_of(line) == body);
        assert(trim_start_of(body) == body);
        let head: Seq<Seq<char>> = seq![body, seq![]];
        assert(head.push(inner.kore).drop_last() =~= head);
        assert(head.drop_last() =~= seq![body]);
        assert(join(seq![body], seq!['\n']) == body);
        assert(join(head, seq!['\n']) == body + seq!['\n'] + Seq::<char>::empty());
        assert(join(head.push(inner.kore), seq!['\n']) == join(head, seq!['\n']) + seq!['\n']
            + inner.kore);
        assert(join(head.push(inner.kore), seq!['\n']) =~= body + "\n\n"@ + inner.kore);
    } else {
        let head: Seq<Seq<char>> = seq![];
        assert(head.push(inner.kore) =~= seq![inner.kore]);
    }
}

/// An object whose every field renders inline (a primitive, or an array of
/// primitives) is written on one line: `name(k=v, ...)`, every field in
/// order.
pub proof fn lemma_inline_object(row: Row, name: Seq<char>, opts: KoreOptions)
    requires
        row.len() > 0,
        forall|j: int| 0 <= j < row.len() ==> inline_field(#[trigger] row[j].1),
    ensures
        object_kore(row, name, opts) == name + seq!['('] + join(field_texts(row), comma_sep())
            + seq![')'],
{
    lemma_all_inline(row);
}

/// With every field inline, every field is a scalar field and none is
/// nested.
proof fn lemma_all_inline(row: Row)
    requires
        forall|j: int| 0 <= j < row.len() ==> inline_field(#[trigger] row[j].1),
    ensures
        scalar_fields(row) == row,
        nested_count(row) == 0,
    decreases row.len(),
{
    if row.len() > 0 {
        let dl = row.drop_last();
        assert forall|j: int| 0 <= j < dl.len() implies inline_field(#[trigger] dl[j].1) by {
            assert(dl[j] == row[j]);
        }
        lemma_all_inline(dl);
        assert(inline_field(row[row.len() - 1].1));
        assert(dl.push(row.last()) =~= row);
    }
}

/// An object with at least one field that does not render inline is
/// written line by line: first `key: value` for each inline field, in
/// order; then, for each other field in order, a blank line and that field
/// converted under its own key and trimmed. No field is left out.
pub proof fn lemma_block_object(row: Row, name: Seq<char>, opts: KoreOptions)
    requires
        exists|j: int| 0 <= j < row.len() && !inline_field(#[trigger] row[j].1),
    ensures
        ({
            let inline = row.filter(|e: (Seq<char>, JsonView)| inline_field(e.1));
            let nested = row.filter(|e: (Seq<char>, JsonView)| !inline_field(e.1));
            let lines = nested_lines(row, opts);
            &&& scalar_fields(row) == inline
            &&& nested_count(row) == nested.len()
            &&& inline.len() + nested.len() == row.len()
            &&& lines.len() == 2 * nested.len()
            &&& forall|k: int|
                0 <= k < nested.len() ==> lines[2 * k] == Seq::<char>::empty() && lines[2 * k + 1]
                    == trim_of(convert(#[trigger] nested[k].1, nested[k].0, opts).kore)
            &&& object_kore(row, name, opts) == join(scalar_lines(inline) + lines, seq!['\n'])
        }),
{
    lemma_split_fields(row, opts);
    lemma_object_keeps_every_field(row);
    let j = choose|j: int| 0 <= j < row.len() && !inline_field(#[trigger] row[j].1);
    lemma_nested_positive(row, j);
}

/// A field that does not render inline makes the nested count positive.
proof fn lemma_nested_positive(row: Row, a: int)
    requires
        0 <= a < row.len(),
        !inline_field(row[a].1),
    ensures
        nested_count(row) >= 1,
    decreases row.len(),
{
    if a < row.len() - 1 {
        assert(row.drop_last()[a] == row[a]);
        lemma_nested_positive(row.drop_last(), a);
    }
}

/// The inline fields and the nested blocks of an object, as filters of its
/// fields.
proof fn lemma_split_fields(row: Row, opts: KoreOptions)
    ensures
        ({
            let inline = row.filter(|e: (Seq<char>, JsonView)| inline_field(e.1));
            let nested = row.filter(|e: (Seq<char>, JsonView)| !inline_field(e.1));
            let lines = nested_lines(row, opts);
            &&& scalar_fields(row) == inline
            &&& nested_count(row) == nested.len()
            &&& lines.len() == 2 * nested.len()
            &&& forall|k: int|
                0 <= k < nested.len() ==> lines[2 * k] == Seq::<char>::empty() && lines[2 * k + 1]
                    == trim_of(convert(#[trigger] nested[k].1, nested[k].0, opts).kore)
        }),
    decreases row.len(),
{
    reveal(Seq::filter);
    let inl = |e: (Seq<char>, JsonView)| inline_field(e.1);
    let nst = |e: (Seq<char>, JsonView)| !inline_field(e.1);
    if row.len() > 0 {
        let dl = row.drop_last();
        lemma_split_fields(dl, opts);
        let pn = dl.filter(nst);
        let pl = nested_lines(dl, opts);
        let nested = row.filter(nst);
        let lines = nested_lines(row, opts);
        if !inline_field(row.last().1) {
            assert(nested == pn.push(row.last()));
            assert(lines == pl + seq![seq![], trim_of(convert(row.last().1, row.last().0, opts).kore)]);
            assert forall|k: int|
                0 <= k < nested.len() implies lines[2 * k] == Seq::<char>::empty() && lines[2 * k + 1]
                    == trim_of(convert(#[trigger] nested[k].1, nested[k].0, opts).kore) by {
                if k < pn.len() {
                    assert(nested[k] == pn[k]);
                    assert(lines[2 * k] == pl[2 * k]);
                    assert(lines[2 * k + 1] == pl[2 * k + 1]);
                }
            }
        } else {
            assert(nested == pn);
            assert(lines == pl);
        }
    }
}

/// Padding adds only spaces, so it brings in no newline.
proof fn lemma_pad_free_of_newline(t: Seq<char>, width: nat)
    requires
        free_of(t, '\n'),
    ensures
        free_of(pad_text(t, width), '\n'),
{
    let p = pad_text(t, width);
    assert forall|k: int| 0 <= k < p.len() implies p[k] != '\n' by {
        if k >= t.len() {
            assert(p[k] == ' ');
        } else {
            assert(p[k] == t[k]);
        }
    }
}

/// A table body has one line per row, whatever its cells hold, as long as
/// neither the indent nor any cell text holds a newline: cut at its
/// newlines, the body gives back exactly the row lines, in row order, and
/// line `j` is the indent followed by row `j`'s cells, each padded to its
/// column's width, joined by ` | `, without trailing white space.
pub proof fn lemma_table_body_lines(rows: Seq<Row>, cols: Seq<Seq<char>>, opts: KoreOptions)
    requires
        rows.len() >= 1,
        free_of(opts.indent@, '\n'),
        forall|r: int, i: int|
            0 <= r < rows.len() && 0 <= i < cols.len() ==> free_of(
                #[trigger] cell_text(rows[r], cols[i]),
                '\n',
            ),
    ensures
        ({
            let lines = body_lines(rows, cols, opts);
            &&& lines.len() == rows.len()
            &&& split_lines(join(lines, seq!['\n'])) == lines
            &&& forall|j: int|
                0 <= j < rows.len() ==> #[trigger] lines[j] == opts.indent@ + trim_end_of(
                    join(row_cells(rows, rows[j], cols, opts.max_col_width as nat), " | "@),
                ) && lines[j].take(opts.indent@.len() as int) == opts.indent@
        }),
{
    let lines = body_lines(rows, cols, opts);
    let sep = " | "@;
    reveal_strlit(" | ");
    assert(free_of(sep, '\n'));
    assert forall|j: int| 0 <= j < lines.len() implies free_of(#[trigger] lines[j], '\n') by {
        let cells = row_cells(rows, rows[j], cols, opts.max_col_width as nat);
        assert forall|i: int| 0 <= i < cells.len() implies free_of(#[trigger] cells[i], '\n') by {
            assert(free_of(cell_text(rows[j], cols[i]), '\n'));
            lemma_pad_free_of_newline(
                cell_text(rows[j], cols[i]),
                column_width(rows, cols[i], opts.max_col_width as nat),
            );
        }
        lemma_join_free_of(cells, sep, '\n');
        let joined = join(cells, sep);
        lemma_trim_end_prefix(joined);
        let t = trim_end_of(joined);
        assert forall|k: int| 0 <= k < t.len() implies t[k] != '\n' by {
            assert(t[k] == joined[k]);
        }
        let line = opts.indent@ + t;
        assert(line == lines[j]);
        assert forall|k: int| 0 <= k < line.len() implies line[k] != '\n' by {
            if k < opts.indent@.len() {
                assert(line[k] == opts.indent@[k]);
            } else {
                assert(line[k] == t[k - opts.indent@.len()]);
            }
        }
    }
    lemma_split_join(lines);
    assert forall|j: int| 0 <= j < rows.len() implies #[trigger] lines[j].take(
        opts.indent@.len() as int,
    ) == opts.indent@ by {
        let t = trim_end_of(join(row_cells(rows, rows[j], cols, opts.max_col_width as nat), sep));
        assert((opts.indent@ + t).take(opts.indent@.len() as int) =~= opts.indent@);
    }
}

/// Whether rows are piped is not an option a table reads: its text is the
/// same either way.
pub proof fn lemma_table_ignores_pipe_rows(
    rows: Seq<Row>,
    name: Seq<char>,
    opts: KoreOptions,
    piped: bool,
)
    ensures
        table_kore(rows, name, KoreOptions { pipe_rows: piped, ..opts }) == table_kore(
            rows,
            name,
            opts,
        ),
{
    let o2 = KoreOptions { pipe_rows: piped, ..opts };
    assert(body_lines(rows, column_names(rows), o2) =~= body_lines(rows, column_names(rows), opts));
}

/// An envelope's `ctx` line keeps every metadata field, wherever it stands
/// relative to the data field: each field other than the data key that
/// holds a string, a number or a boolean is among the `ctx` fields, with
/// that string, that number's binary64 value or that boolean; and each
/// `ctx` field is such a field (fields holding `null`, an array or an
/// object are left out).
pub proof fn lemma_envelope_keeps_metadata(row: Row, dk: Seq<char>)
    ensures
        forall|j: int|
            0 <= j < row.len() && #[trigger] row[j].0 != dk ==> match row[j].1 {
                JsonView::Str(s) => meta_fields(row, dk).contains((row[j].0, CtxView::Str(s))),
                JsonView::Number(n) => meta_fields(row, dk).contains(
                    (row[j].0, CtxView::Num(n.approx_part())),
                ),
                JsonView::Bool(b) => meta_fields(row, dk).contains((row[j].0, CtxView::Bool(b))),
                _ => true,
            },
        forall|m: (Seq<char>, CtxView)| #[trigger]
            meta_fields(row, dk).contains(m) ==> m.0 != dk && exists|j: int|
                0 <= j < row.len() && #[trigger] row[j].0 == m.0 && match row[j].1 {
                    JsonView::Str(s) => m.1 == CtxView::Str(s),
                    JsonView::Number(n) => m.1 == CtxView::Num(n.approx_part()),
                    JsonView::Bool(b) => m.1 == CtxView::Bool(b),
                    _ => false,
                },
    decreases row.len(),
{
    if row.len() > 0 {
        let dl = row.drop_last();
        let prev = meta_fields(dl, dk);
        let e = row.last();
        lemma_envelope_keeps_metadata(dl, dk);
        let cur = meta_fields(row, dk);
        assert forall|x: (Seq<char>, CtxView)| prev.contains(x) implies cur.contains(x) by {
            let k = choose|k: int| 0 <= k < prev.len() && prev[k] == x;
            if e.0 != dk {
                if let Some(c) = meta_value(e.1) {
                    assert(cur[k] == x);
                }
            }
        }
        assert forall|j: int|
            0 <= j < row.len() && #[trigger] row[j].0 != dk implies match meta_value(row[j].1) {
            Some(c) => cur.contains((row[j].0, c)),
            None => true,
        } by {
            if j < row.len() - 1 {
                assert(dl[j] == row[j]);
                assert(dl[j].0 != dk);
            } else {
                if let Some(c) = meta_value(e.1) {
                    assert(cur[cur.len() - 1] == (e.0, c));
                }
            }
        }
        assert forall|m: (Seq<char>, CtxView)| #[trigger] cur.contains(m) implies m.0 != dk
            && exists|j: int|
            0 <= j < row.len() && #[trigger] row[j].0 == m.0 && meta_value(row[j].1) == Some(
                m.1,
            ) by {
            let k = choose|k: int| 0 <= k < cur.len() && cur[k] == m;
            if k < prev.len() {
                assert(prev[k] == m);
                assert(prev.contains(m));
                let j = choose|j: int|
                    0 <= j < dl.len() && #[trigger] dl[j].0 == m.0 && meta_value(dl[j].1) == Some(
                        m.1,
                    );
                assert(row[j] == dl[j]);
            } else {
                assert(row[row.len() - 1] == e);
            }
        }
    }
}

/// How a table cell reads: a missing field or `null` is `_`; a string that
/// holds a `|` or starts with a digit, `_`, or a quote is quoted, so it can
/// never be taken for a column separator or for another kind of value; any
/// other string stands as it is; a number is its rendering; a boolean is
/// `true` or `false`.
pub proof fn lemma_table_cell(row: Row, col: Seq<char>)
    ensures
        lookup(row, col) is None ==> cell_text(row, col) == seq!['_'],
        match cell(row, col) {
            JsonView::Null => cell_text(row, col) == seq!['_'],
            JsonView::Str(s) => if has_pipe(s) || has_ambiguous_start(s) {
                cell_text(row, col) == quoted(s)
            } else {
                cell_text(row, col) == s
            },
            JsonView::Number(n) => cell_text(row, col) == number_text(n),
            JsonView::Bool(b) => cell_text(row, col) == bool_text(b),
            _ => true,
        },
{
}

/// The widest cell of a column is as wide as every cell of it, and is one
/// of them (0 without rows).
pub proof fn lemma_widest_cell(rows: Seq<Row>, col: Seq<char>)
    ensures
        forall|r: int|
            0 <= r < rows.len() ==> (#[trigger] cell_text(rows[r], col)).len() <= widest_cell(
                rows,
                col,
            ),
        rows.len() == 0 ==> widest_cell(rows, col) == 0,
        rows.len() > 0 ==> exists|r: int|
            0 <= r < rows.len() && widest_cell(rows, col) == (#[trigger] cell_text(
                rows[r],
                col,
            )).len(),
    decreases rows.len(),
{
    if rows.len() > 0 {
        let dl = rows.drop_last();
        lemma_widest_cell(dl, col);
        assert forall|r: int| 0 <= r < rows.len() implies (#[trigger] cell_text(
            rows[r],
            col,
        )).len() <= widest_cell(rows, col) by {
            if r < rows.len() - 1 {
                assert(dl[r] == rows[r]);
                assert(cell_text(dl[r], col).len() <= widest_cell(dl, col));
            }
        }
        if widest_cell(rows, col) == cell_text(rows.last(), col).len() {
            assert(cell_text(rows[rows.len() - 1], col).len() == widest_cell(rows, col));
        } else {
            let r = choose|r: int|
                0 <= r < dl.len() && widest_cell(dl, col) == (#[trigger] cell_text(
                    dl[r],
                    col,
                )).len();
            assert(dl[r] == rows[r]);
            assert(cell_text(rows[r], col).len() == widest_cell(rows, col));
        }
    }
}

/// Columns line up: a column is as wide as its name and its widest cell,
/// capped at `max_width`, and never wider than the cap; every cell of it is
/// padded to that width, or left as it is when longer (never cut). So the
/// cells of a column whose texts all fit under the cap have one and the
/// same padded width.
pub proof fn lemma_columns_line_up(rows: Seq<Row>, col: Seq<char>, max_width: nat)
    ensures
        column_width(rows, col, max_width) <= max_width,
        col.len() <= column_width(rows, col, max_width) || column_width(rows, col, max_width)
            == max_width,
        forall|r: int|
            0 <= r < rows.len() ==> (#[trigger] cell_text(rows[r], col)).len() <= column_width(
                rows,
                col,
                max_width,
            ) || column_width(rows, col, max_width) == max_width,
        column_width(rows, col, max_width) == max_width || column_width(rows, col, max_width)
            == col.len() || exists|r: int|
            0 <= r < rows.len() && column_width(rows, col, max_width) == (#[trigger] cell_text(
                rows[r],
                col,
            )).len(),
        forall|r: int|
            0 <= r < rows.len() ==> (#[trigger] pad_text(
                cell_text(rows[r], col),
                column_width(rows, col, max_width),
            )).len() == if cell_text(rows[r], col).len() > column_width(rows, col, max_width) {
                cell_text(rows[r], col).len()
            } else {
                column_width(rows, col, max_width)
            },
{
    lemma_widest_cell(rows, col);
    let w = column_width(rows, col, max_width);
    assert forall|r: int| 0 <= r < rows.len() implies (#[trigger] pad_text(
        cell_text(rows[r], col),
        w,
    )).len() == if cell_text(rows[r], col).len() > w {
        cell_text(rows[r], col).len()
    } else {
        w
    } by {}
}

/// A list has one text per item, in order, nulls included: a single item
/// is `name: item`, and one more item adds `, item` at the end.
pub proof fn lemma_list_items(items: Seq<JsonView>, name: Seq<char>, x: JsonView)
    ensures
        list_kore(seq![x], name) == name + ": "@ + render(x, false),
        items.len() > 0 ==> list_kore(items.push(x), name) == list_kore(items, name) + comma_sep()
            + render(x, false),
{
    let one: Seq<JsonView> = seq![x];
    assert(one.drop_last() =~= Seq::<JsonView>::empty());
    assert(one.last() == x);
    assert(item_texts(one.drop_last()) =~= Seq::<Seq<char>>::empty());
    assert(item_texts(one) == item_texts(one.drop_last()).push(render(x, false)));
    assert(item_texts(one) =~= seq![render(x, false)]);
    if items.len() > 0 {
        let more = items.push(x);
        assert(more.drop_last() =~= items);
        lemma_item_texts_len(items);
        let parts = item_texts(items);
        assert(item_texts(more) == parts.push(render(x, false)));
        assert(parts.push(render(x, false)).drop_last() =~= parts);
        assert(join(item_texts(more), comma_sep()) == join(parts, comma_sep()) + comma_sep()
            + render(x, false));
    }
}

/// One text per item.
proof fn lemma_item_texts_len(items: Seq<JsonView>)
    ensures
        item_texts(items).len() == items.len(),
    decreases items.len(),
{
    if items.len() > 0 {
        lemma_item_texts_len(items.drop_last());
    }
}

/// An envelope's `ctx` fields keep the order of the object's fields.
pub proof fn lemma_envelope_metadata_order(row: Row, dk: Seq<char>)
    requires
        keys_of(row).no_duplicates(),
    ensures
        forall|i: int, k: int|
            0 <= i < k < meta_fields(row, dk).len() ==> 0 <= key_index(
                row,
                #[trigger] meta_fields(row, dk)[i].0,
            ) < key_index(row, #[trigger] meta_fields(row, dk)[k].0),
    decreases row.len(),
{
    if row.len() > 0 {
        let dl = row.drop_last();
        let n = row.len() - 1;
        let e = row.last();
        assert forall|a: int, b: int| 0 <= a < b < keys_of(dl).len() implies keys_of(dl)[a]
            != keys_of(dl)[b] by {
            assert(keys_of(dl)[a] == keys_of(row)[a]);
            assert(keys_of(dl)[b] == keys_of(row)[b]);
        }
        lemma_envelope_metadata_order(dl, dk);
        lemma_envelope_keeps_metadata(dl, dk);
        let prev = meta_fields(dl, dk);
        let cur = meta_fields(row, dk);
        // Each earlier `ctx` field is found at the same place in the whole
        // object as in its first fields.
        assert forall|i: int| 0 <= i < prev.len() implies 0 <= key_index(row, #[trigger] prev[i].0)
            < n && key_index(row, prev[i].0) == key_index(dl, prev[i].0) by {
            let x = prev[i].0;
            assert(prev.contains(prev[i]));
            let j = choose|j: int|
                0 <= j < dl.len() && #[trigger] dl[j].0 == prev[i].0 && meta_value(dl[j].1) == Some(
                    prev[i].1,
                );
            lemma_key_index(dl, x);
            let p = key_index(dl, x);
            assert(p >= 0);
            assert forall|q: int| 0 <= q < p implies row[q].0 != x by {
                assert(row[q] == dl[q]);
            }
            assert(row[p] == dl[p]);
            lemma_key_index_at(row, x, p);
        }
        if cur.len() > prev.len() {
            assert forall|q: int| 0 <= q < n implies row[q].0 != e.0 by {
                assert(keys_of(row)[q] == row[q].0);
                assert(keys_of(row)[n] == e.0);
            }
            lemma_key_index_at(row, e.0, n);
        }
        assert forall|i: int, k: int| 0 <= i < k < cur.len() implies 0 <= key_index(
            row,
            #[trigger] cur[i].0,
        ) < key_index(row, #[trigger] cur[k].0) by {
            assert(cur[i] == prev[i]);
            if k < prev.len() {
                assert(cur[k] == prev[k]);
            } else {
                assert(cur[k].0 == e.0);
            }
        }
    }
}

} // verus!
