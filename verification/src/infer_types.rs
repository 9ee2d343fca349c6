//! Type inference for the optional `@types { ... }` block emitted above a
//! table: every column gets the narrowest `.kore` scalar type that fits the
//! values seen in it, widened across numeric types, `str` when kinds mix,
//! and a trailing `?` when some row lacks the field or holds `null` there.

use indexmap::{IndexMap, IndexSet};
use vstd::prelude::*;

use crate::collections::{
    name_items, name_set_get_index, name_set_insert, name_set_len, name_set_new, type_entries,
    type_map_get, type_map_insert, type_map_new,
};
use crate::json::{JsonNumber, JsonObject, JsonValue, JsonView, NumberRepr, Row};
use crate::keyed::{
    add_all_new, add_new, first_index, key_index, keys_of, lemma_add_all_new,
    lemma_add_all_new_append, lemma_add_all_new_order, lemma_first_index, lemma_key_index, lookup,
};
use crate::serialize::is_ascii_digit;
use crate::text::{chars_of, concat, has_prefix, push_char, push_str, starts_with, to_owned, views};

verus! {

/// The narrowest unsigned type tag that holds `u`.
pub open spec fn unsigned_tag(u: int) -> Seq<char> {
    if u <= 0xff {
        "u8"@
    } else if u <= 0xffff {
        "u16"@
    } else if u <= 0xffff_ffff {
        "u32"@
    } else {
        "u64"@
    }
}

/// The type tag of an integer: unsigned for non-negative values, else `i32`
/// when it fits and `i64` otherwise.
pub open spec fn integer_tag(i: int) -> Seq<char> {
    if i >= 0 {
        unsigned_tag(i)
    } else if i >= -0x8000_0000 {
        "i32"@
    } else {
        "i64"@
    }
}

/// The type tag of a JSON number; every non-integer (always finite) is `f32`.
pub open spec fn number_tag(n: JsonNumber) -> Seq<char> {
    match n.repr_part() {
        NumberRepr::UInt(u) => unsigned_tag(u as int),
        NumberRepr::NegInt(i) => integer_tag(i as int),
        NumberRepr::Float => "f32"@,
    }
}

/// `YYYY-MM-DD`: four digits, `-`, two digits, `-`, two digits.
pub open spec fn date_shaped(s: Seq<char>) -> bool {
    &&& s.len() == 10
    &&& is_ascii_digit(s[0]) && is_ascii_digit(s[1]) && is_ascii_digit(s[2]) && is_ascii_digit(s[3])
    &&& s[4] == '-'
    &&& is_ascii_digit(s[5]) && is_ascii_digit(s[6])
    &&& s[7] == '-'
    &&& is_ascii_digit(s[8]) && is_ascii_digit(s[9])
}

/// Starts with `http://` or `https://`.
pub open spec fn url_shaped(s: Seq<char>) -> bool {
    starts_with(s, "http://"@) || starts_with(s, "https://"@)
}

/// The type tag of a single value.
pub open spec fn value_tag(v: JsonView) -> Seq<char> {
    match v {
        JsonView::Null => "str?"@,
        JsonView::Bool(_) => "bool"@,
        JsonView::Str(s) => if date_shaped(s) {
            "date"@
        } else if url_shaped(s) {
            "url"@
        } else {
            "str"@
        },
        JsonView::Number(n) => number_tag(n),
        JsonView::Array(_) => "[]str"@,
        JsonView::Object(_) => "str"@,
    }
}

/// The numeric tags, narrowest first: the widening order.
pub open spec fn numeric_order() -> Seq<Seq<char>> {
    seq!["u8"@, "u16"@, "u32"@, "u64"@, "i32"@, "i64"@, "f32"@, "f64"@]
}

/// The position of a tag in the widening order, or -1 for a non-numeric tag.
pub open spec fn numeric_rank(t: Seq<char>) -> int {
    first_index(numeric_order(), t)
}

/// The widest position among the tags.
pub open spec fn widest_rank(ts: Seq<Seq<char>>) -> int
    decreases ts.len(),
{
    if ts.len() == 0 {
        -1
    } else {
        let r = widest_rank(ts.drop_last());
        let x = numeric_rank(ts.last());
        if x > r {
            x
        } else {
            r
        }
    }
}

/// One type for a column from the distinct tags seen in it: `str?` when
/// none, the tag itself when one, the widest when all are numeric, and
/// `str` when numeric and other kinds mix.
pub open spec fn resolve(ts: Seq<Seq<char>>) -> Seq<char> {
    if ts.len() == 0 {
        "str?"@
    } else if ts.len() == 1 {
        ts[0]
    } else if forall|i: int| 0 <= i < ts.len() ==> numeric_rank(#[trigger] ts[i]) >= 0 {
        numeric_order()[widest_rank(ts)]
    } else {
        "str"@
    }
}

/// The models of a slice of objects.
pub open spec fn rows_view(rows: Seq<JsonObject>) -> Seq<Row> {
    rows.map_values(|o: JsonObject| o@)
}

/// Every key of every row, each once, in first-seen order.
pub open spec fn column_names(rows: Seq<Row>) -> Seq<Seq<char>>
    decreases rows.len(),
{
    if rows.len() == 0 {
        seq![]
    } else {
        add_all_new(column_names(rows.drop_last()), keys_of(rows.last()))
    }
}

/// The distinct tags of the non-null values of a column, in first-seen order.
pub open spec fn seen_tags(rows: Seq<Row>, col: Seq<char>) -> Seq<Seq<char>>
    decreases rows.len(),
{
    if rows.len() == 0 {
        seq![]
    } else {
        let prev = seen_tags(rows.drop_last(), col);
        match lookup(rows.last(), col) {
            Some(v) => if v is Null {
                prev
            } else {
                add_new(prev, value_tag(v))
            },
            None => prev,
        }
    }
}

/// Some row lacks the column or holds `null` in it.
pub open spec fn has_null(rows: Seq<Row>, col: Seq<char>) -> bool
    decreases rows.len(),
{
    if rows.len() == 0 {
        false
    } else {
        has_null(rows.drop_last(), col) || match lookup(rows.last(), col) {
            Some(v) => v is Null,
            None => true,
        }
    }
}

/// `t` ends with `?`.
pub open spec fn is_nullable_tag(t: Seq<char>) -> bool {
    t.len() > 0 && t.last() == '?'
}

/// The type of one column across all rows.
pub open spec fn column_type(rows: Seq<Row>, col: Seq<char>) -> Seq<char> {
    let r = resolve(seen_tags(rows, col));
    if has_null(rows, col) && !is_nullable_tag(r) {
        r.push('?')
    } else {
        r
    }
}

/// Each column with its type, in column order.
pub open spec fn column_types(rows: Seq<Row>) -> Seq<(Seq<char>, Seq<char>)> {
    let cols = column_names(rows);
    Seq::new(cols.len(), |i: int| (cols[i], column_type(rows, cols[i])))
}

/// The `@types` block for a table whose columns are `cols`, each with its
/// type from `types` (or `str` when it has none).
pub open spec fn types_block(
    block_type: Seq<char>,
    cols: Seq<Seq<char>>,
    types: Seq<(Seq<char>, Seq<char>)>,
) -> Seq<char> {
    "@types {\n"@ + "  "@ + block_type + " {\n"@ + concat(type_lines(cols, types)) + "  }\n"@
        + "}\n"@
}

/// The `    col: type` lines of a types block.
pub open spec fn type_lines(cols: Seq<Seq<char>>, types: Seq<(Seq<char>, Seq<char>)>) -> Seq<
    Seq<char>,
> {
    Seq::new(
        cols.len(),
        |i: int|
            "    "@ + cols[i] + ": "@ + match lookup(types, cols[i]) {
                Some(t) => t,
                None => "str"@,
            } + "\n"@,
    )
}

/// The type tag of a single value: `str?` for null, `bool`, `date` for
/// `YYYY-MM-DD` strings, `url` for `http(s)://` strings, `str` for other
/// strings and for objects, the narrowest integer type for integers, `f32`
/// for other numbers, and `[]str` for arrays.
pub fn infer_value_type(value: &JsonValue) -> (r: String)
    ensures
        r@ == value_tag(value@),
{
    match value {
        JsonValue::Null => to_owned("str?"),
        JsonValue::Bool(_) => to_owned("bool"),
        JsonValue::String(s) => {
            if is_date_like(s.as_str()) {
                to_owned("date")
            } else if is_url_like(s.as_str()) {
                to_owned("url")
            } else {
                to_owned("str")
            }
        },
        JsonValue::Number(n) => infer_number_type(n),
        JsonValue::Array(_) => to_owned("[]str"),
        JsonValue::Object(_) => to_owned("str"),
    }
}

/// Whether `s` reads as a `YYYY-MM-DD` date. The pattern is ASCII, so ten
/// matching characters are exactly ten matching bytes.
pub fn is_date_like(s: &str) -> (r: bool)
    ensures
        r == date_shaped(s@),
{
    let b = chars_of(s);
    b.len() == 10 && is_digit(b[0]) && is_digit(b[1]) && is_digit(b[2]) && is_digit(b[3]) && b[4]
        == '-' && is_digit(b[5]) && is_digit(b[6]) && b[7] == '-' && is_digit(b[8]) && is_digit(
        b[9],
    )
}

/// Whether `c` is an ASCII digit.
fn is_digit(c: char) -> (r: bool)
    ensures
        r == is_ascii_digit(c),
{
    '0' <= c && c <= '9'
}

/// Whether `s` starts with `http://` or `https://`.
fn is_url_like(s: &str) -> (r: bool)
    ensures
        r == url_shaped(s@),
{
    let v = chars_of(s);
    has_prefix(&v, "http://") || has_prefix(&v, "https://")
}

/// The narrowest integer type of an integer, `f32` for any other number
/// (every JSON number is finite).
fn infer_number_type(n: &JsonNumber) -> (r: String)
    ensures
        r@ == number_tag(*n),
{
    match n.repr() {
        NumberRepr::UInt(u) => unsigned_type(u),
        NumberRepr::NegInt(i) => integer_type(i),
        NumberRepr::Float => to_owned("f32"),
    }
}

/// The narrowest unsigned type that holds `u`.
fn unsigned_type(u: u64) -> (r: String)
    ensures
        r@ == unsigned_tag(u as int),
{
    if u <= 0xff {
        to_owned("u8")
    } else if u <= 0xffff {
        to_owned("u16")
    } else if u <= 0xffff_ffff {
        to_owned("u32")
    } else {
        to_owned("u64")
    }
}

/// Unsigned types for non-negative values; `i32` or `i64` otherwise.
fn integer_type(i: i64) -> (r: String)
    ensures
        r@ == integer_tag(i as int),
{
    if i >= 0 {
        return unsigned_type(i as u64);
    }
    if i >= -0x8000_0000 {
        to_owned("i32")
    } else {
        to_owned("i64")
    }
}

/// The numeric tags in widening order.
fn numeric_order_strings() -> (r: Vec<String>)
    ensures
        views(r@) == numeric_order(),
{
    let r = vec![
        to_owned("u8"),
        to_owned("u16"),
        to_owned("u32"),
        to_owned("u64"),
        to_owned("i32"),
        to_owned("i64"),
        to_owned("f32"),
        to_owned("f64"),
    ];
    assert(views(r@) =~= numeric_order());
    r
}

/// The position of `t` in `order`, or -1.
fn position(order: &Vec<String>, t: &String) -> (r: i64)
    requires
        order@.len() < 100,
    ensures
        r == first_index(views(order@), t@),
{
    proof {
        lemma_first_index(views(order@), t@);
    }
    let mut i: usize = 0;
    while i < order.len()
        invariant
            i <= order@.len() < 100,
            forall|j: int| 0 <= j < i ==> order@[j]@ != t@,
            -1 <= first_index(views(order@), t@) < order@.len(),
            first_index(views(order@), t@) >= 0 ==> views(order@)[first_index(views(order@), t@)]
                == t@,
            forall|j: int|
                0 <= j < order@.len() && (first_index(views(order@), t@) < 0 || j < first_index(
                    views(order@),
                    t@,
                )) ==> views(order@)[j] != t@,
        decreases order.len() - i,
    {
        if order[i] == *t {
            assert(views(order@)[i as int] == t@);
            return i as i64;
        }
        i = i + 1;
    }
    -1
}

/// Picks one type for a column from the distinct tags seen in it.
pub fn resolve_types(types: &IndexSet<String>) -> (r: String)
    ensures
        r@ == resolve(name_items(*types)),
{
    let n = name_set_len(types);
    if n == 0 {
        return to_owned("str?");
    }
    if n == 1 {
        return match name_set_get_index(types, 0) {
            Some(t) => t.clone(),
            None => to_owned("str?"),
        };
    }
    let ghost ts = name_items(*types);
    let order = numeric_order_strings();
    let mut widest: i64 = -1;
    let mut i: usize = 0;
    while i < n
        invariant
            n == ts.len(),
            n >= 2,
            ts == name_items(*types),
            i <= n,
            views(order@) == numeric_order(),
            widest == widest_rank(ts.take(i as int)),
            forall|j: int| 0 <= j < i ==> numeric_rank(#[trigger] ts[j]) >= 0,
        decreases n - i,
    {
        let t = match name_set_get_index(types, i) {
            Some(t) => t,
            None => {
                return to_owned("str");
            },
        };
        let p = position(&order, t);
        assert(ts.take(i + 1).drop_last() =~= ts.take(i as int));
        if p < 0 {
            assert(numeric_rank(ts[i as int]) < 0);
            return to_owned("str");
        }
        if p > widest {
            widest = p;
        }
        i = i + 1;
    }
    assert(ts.take(n as int) =~= ts);
    proof {
        lemma_widest_rank_in_range(ts);
    }
    order[widest as usize].clone()
}

/// When every tag is numeric, the widest rank is a valid position.
proof fn lemma_widest_rank_in_range(ts: Seq<Seq<char>>)
    requires
        ts.len() > 0,
        forall|i: int| 0 <= i < ts.len() ==> numeric_rank(#[trigger] ts[i]) >= 0,
    ensures
        0 <= widest_rank(ts) < numeric_order().len(),
    decreases ts.len(),
{
    lemma_first_index(numeric_order(), ts.last());
    assert(numeric_rank(ts[ts.len() - 1]) >= 0);
    if ts.len() > 1 {
        assert forall|i: int| 0 <= i < ts.drop_last().len() implies numeric_rank(
            #[trigger] ts.drop_last()[i],
        ) >= 0 by {
            assert(ts.drop_last()[i] == ts[i]);
        }
        lemma_widest_rank_in_range(ts.drop_last());
    } else {
        assert(ts.drop_last().len() == 0);
        assert(widest_rank(ts.drop_last()) == -1);
    }
    assert(numeric_rank(ts.last()) < numeric_order().len());
}

/// The set of every key of every row, in first-seen order.
pub(crate) fn column_set(rows: &[JsonObject]) -> (r: IndexSet<String>)
    ensures
        name_items(r) == column_names(rows_view(rows@)),
        name_items(r).no_duplicates(),
{
    let ghost rv = rows_view(rows@);
    let mut seen = name_set_new();
    let mut i: usize = 0;
    while i < rows.len()
        invariant
            i <= rows@.len(),
            rv == rows_view(rows@),
            name_items(seen) == column_names(rv.take(i as int)),
            name_items(seen).no_duplicates(),
        decreases rows.len() - i,
    {
        let row = &rows[i];
        let ghost ks = keys_of(rv[i as int]);
        assert(rv[i as int] == row@);
        let mut j: usize = 0;
        while j < row.len()
            invariant
                i < rows@.len(),
                rv == rows_view(rows@),
                rv[i as int] == row@,
                ks == keys_of(rv[i as int]),
                j <= row@.len(),
                name_items(seen) == add_all_new(column_names(rv.take(i as int)), ks.take(j as int)),
                name_items(seen).no_duplicates(),
            decreases row@.len() - j,
        {
            let k = row.key_at(j).clone();
            assert(ks.take(j + 1).drop_last() =~= ks.take(j as int));
            assert(ks.take(j + 1).last() == k@);
            name_set_insert(&mut seen, k);
            j = j + 1;
        }
        assert(ks.take(row@.len() as int) =~= ks);
        assert(rv.take(i + 1).drop_last() =~= rv.take(i as int));
        i = i + 1;
    }
    assert(rv.take(rows@.len() as int) =~= rv);
    seen
}

/// Whether a type tag ends with `?`.
fn ends_with_question(t: &String) -> (r: bool)
    ensures
        r == is_nullable_tag(t@),
{
    let v = chars_of(t.as_str());
    v.len() > 0 && v[v.len() - 1] == '?'
}

/// The type of one column across every row.
fn column_type_of(rows: &[JsonObject], col: &String) -> (r: String)
    ensures
        r@ == column_type(rows_view(rows@), col@),
{
    let ghost rv = rows_view(rows@);
    let mut seen = name_set_new();
    let mut null_seen = false;
    let mut i: usize = 0;
    while i < rows.len()
        invariant
            i <= rows@.len(),
            rv == rows_view(rows@),
            name_items(seen) == seen_tags(rv.take(i as int), col@),
            null_seen == has_null(rv.take(i as int), col@),
        decreases rows.len() - i,
    {
        assert(rv.take(i + 1).drop_last() =~= rv.take(i as int));
        assert(rv.take(i + 1).last() == rows@[i as int]@);
        match rows[i].get(col) {
            None => {
                null_seen = true;
            },
            Some(v) => match v {
                JsonValue::Null => {
                    null_seen = true;
                },
                _ => {
                    name_set_insert(&mut seen, infer_value_type(v));
                },
            },
        }
        i = i + 1;
    }
    assert(rv.take(rows@.len() as int) =~= rv);
    let mut resolved = resolve_types(&seen);
    if null_seen && !ends_with_question(&resolved) {
        push_char(&mut resolved, '?');
    }
    resolved
}

/// Infers a `.kore` type for every column of a table, across all rows:
/// the columns are every key of every row (in first-seen order), so the
/// types block and the table header always list the same columns.
pub fn infer_table_types(rows: &[JsonObject]) -> (r: IndexMap<String, String>)
    ensures
        type_entries(r) == column_types(rows_view(rows@)),
{
    let ghost rv = rows_view(rows@);
    let cols = column_set(rows);
    let n = name_set_len(&cols);
    let mut result = type_map_new();
    let mut c: usize = 0;
    while c < n
        invariant
            rv == rows_view(rows@),
            name_items(cols) == column_names(rv),
            name_items(cols).no_duplicates(),
            n == name_items(cols).len(),
            c <= n,
            type_entries(result) == column_types(rv).take(c as int),
        decreases n - c,
    {
        let col = match name_set_get_index(&cols, c) {
            Some(x) => x,
            None => {
                return result;
            },
        };
        let ty = column_type_of(rows, col);
        let ghost prev = type_entries(result);
        proof {
            lemma_key_index(prev, col@);
            if key_index(prev, col@) >= 0 {
                let k = key_index(prev, col@);
                assert(prev[k].0 == name_items(cols)[k]);
                assert(name_items(cols)[k] == name_items(cols)[c as int]);
            }
        }
        type_map_insert(&mut result, col.clone(), ty);
        assert(type_entries(result) =~= column_types(rv).take(c + 1));
        c = c + 1;
    }
    assert(column_types(rv).take(n as int) =~= column_types(rv));
    result
}

/// Renders the `@types { Name { field: type, ... } }` block for a table:
/// one line per column, in the given order, with the column's type from
/// `type_map` (or `str` when it has none).
pub fn build_types_block(
    block_type: &str,
    columns: &[String],
    type_map: &IndexMap<String, String>,
) -> (r: String)
    ensures
        r@ == types_block(block_type@, views(columns@), type_entries(*type_map)),
{
    let ghost lines = type_lines(views(columns@), type_entries(*type_map));
    let mut out = String::new();
    push_str(&mut out, "@types {\n");
    push_str(&mut out, "  ");
    push_str(&mut out, block_type);
    push_str(&mut out, " {\n");
    let ghost head = out@;
    let mut i: usize = 0;
    while i < columns.len()
        invariant
            i <= columns@.len(),
            lines == type_lines(views(columns@), type_entries(*type_map)),
            out@ == head + concat(lines.take(i as int)),
        decreases columns.len() - i,
    {
        let col = &columns[i];
        let ty = match type_map_get(type_map, col) {
            Some(t) => t.clone(),
            None => to_owned("str"),
        };
        let ghost before = out@;
        push_str(&mut out, "    ");
        push_str(&mut out, col.as_str());
        push_str(&mut out, ": ");
        push_str(&mut out, ty.as_str());
        push_str(&mut out, "\n");
        assert(lines.take(i + 1).drop_last() =~= lines.take(i as int));
        assert(out@ =~= before + lines[i as int]);
        i = i + 1;
    }
    assert(lines.take(columns@.len() as int) =~= lines);
    push_str(&mut out, "  }\n");
    push_str(&mut out, "}\n");
    out
}

/// The `@types` block and the table header speak of the same columns: the
/// inferred types are given for exactly the table's columns, in the same
/// order, however the rows differ in shape.
pub proof fn lemma_types_follow_columns(rows: Seq<Row>)
    ensures
        keys_of(column_types(rows)) == column_names(rows),
{
    assert(keys_of(column_types(rows)) =~= column_names(rows));
}

/// A table's columns are the union of the keys of all its rows: each key
/// of each row is a column, each column is a key of some row, and no column
/// is listed twice.
pub proof fn lemma_columns_are_key_union(rows: Seq<Row>)
    ensures
        column_names(rows).no_duplicates(),
        forall|r: int, j: int|
            0 <= r < rows.len() && 0 <= j < rows[r].len() ==> column_names(rows).contains(
                #[trigger] rows[r][j].0,
            ),
        forall|c: Seq<char>|
            #[trigger] column_names(rows).contains(c) ==> exists|r: int, j: int|
                0 <= r < rows.len() && 0 <= j < rows[r].len() && #[trigger] rows[r][j].0 == c,
    decreases rows.len(),
{
    if rows.len() > 0 {
        let prev = column_names(rows.drop_last());
        let ks = keys_of(rows.last());
        lemma_columns_are_key_union(rows.drop_last());
        lemma_add_all_new(prev, ks);
        assert forall|r: int, j: int|
            0 <= r < rows.len() && 0 <= j < rows[r].len() implies column_names(rows).contains(
            #[trigger] rows[r][j].0,
        ) by {
            if r < rows.len() - 1 {
                assert(rows.drop_last()[r] == rows[r]);
                assert(prev.contains(rows.drop_last()[r][j].0));
            } else {
                assert(ks[j] == rows[r][j].0);
            }
        }
        assert forall|c: Seq<char>| #[trigger] column_names(rows).contains(c) implies exists|
            r: int,
            j: int,
        | 0 <= r < rows.len() && 0 <= j < rows[r].len() && #[trigger] rows[r][j].0 == c by {
            if prev.contains(c) {
                let (r, j) = choose|r: int, j: int|
                    0 <= r < rows.drop_last().len() && 0 <= j < rows.drop_last()[r].len()
                        && #[trigger] rows.drop_last()[r][j].0 == c;
                assert(rows[r] == rows.drop_last()[r]);
                assert(rows[r][j].0 == c);
            } else {
                let j = choose|j: int| 0 <= j < ks.len() && ks[j] == c;
                assert(rows[rows.len() - 1][j].0 == c);
            }
        }
    }
}

/// Facts about the type tags' texts.
proof fn lemma_tag_texts()
    ensures
        forall|i: int|
            0 <= i < numeric_order().len() ==> !is_nullable_tag(#[trigger] numeric_order()[i]),
        numeric_order().no_duplicates(),
        !is_nullable_tag("bool"@),
        !is_nullable_tag("date"@),
        !is_nullable_tag("url"@),
        !is_nullable_tag("str"@),
        !is_nullable_tag("[]str"@),
        is_nullable_tag("str?"@),
{
    reveal_strlit("u8");
    reveal_strlit("u16");
    reveal_strlit("u32");
    reveal_strlit("u64");
    reveal_strlit("i32");
    reveal_strlit("i64");
    reveal_strlit("f32");
    reveal_strlit("f64");
    reveal_strlit("bool");
    reveal_strlit("date");
    reveal_strlit("url");
    reveal_strlit("str");
    reveal_strlit("[]str");
    reveal_strlit("str?");
    let o = numeric_order();
    assert forall|i: int, j: int| 0 <= i < o.len() && 0 <= j < o.len() && i != j implies o[i]
        != o[j] by {
        if o[i].len() == o[j].len() && o[i].len() == 3 {
            if o[i][0] == o[j][0] {
                assert(o[i][1] != o[j][1] || o[i][2] != o[j][2]);
            }
        }
    }
}

/// Every tag of a non-null value lacks the nullable marker.
proof fn lemma_value_tag_not_nullable(v: JsonView)
    requires
        !(v is Null),
    ensures
        !is_nullable_tag(value_tag(v)),
{
    lemma_tag_texts();
    assert("u8"@ == numeric_order()[0]);
    assert("u16"@ == numeric_order()[1]);
    assert("u32"@ == numeric_order()[2]);
    assert("u64"@ == numeric_order()[3]);
    assert("i32"@ == numeric_order()[4]);
    assert("i64"@ == numeric_order()[5]);
    assert("f32"@ == numeric_order()[6]);
}

/// The tags seen in a column all lack the nullable marker; when no row lacks
/// the column or holds null there, at least one tag is seen.
proof fn lemma_seen_tags(rows: Seq<Row>, col: Seq<char>)
    ensures
        forall|i: int|
            0 <= i < seen_tags(rows, col).len() ==> !is_nullable_tag(
                #[trigger] seen_tags(rows, col)[i],
            ),
        rows.len() > 0 && !has_null(rows, col) ==> seen_tags(rows, col).len() > 0,
    decreases rows.len(),
{
    if rows.len() > 0 {
        lemma_seen_tags(rows.drop_last(), col);
        let prev = seen_tags(rows.drop_last(), col);
        match lookup(rows.last(), col) {
            Some(v) => {
                if !(v is Null) {
                    lemma_value_tag_not_nullable(v);
                    assert forall|i: int|
                        0 <= i < seen_tags(rows, col).len() implies !is_nullable_tag(
                        #[trigger] seen_tags(rows, col)[i],
                    ) by {
                        if i < prev.len() {
                            assert(seen_tags(rows, col)[i] == prev[i]);
                        }
                    }
                }
            },
            None => {},
        }
    }
}

/// A column is marked nullable (its type ends with `?`) exactly when some
/// row lacks it or holds `null` in it.
pub proof fn lemma_nullable_marker(rows: Seq<Row>, col: Seq<char>)
    requires
        rows.len() > 0,
    ensures
        is_nullable_tag(column_type(rows, col)) <==> has_null(rows, col),
{
    lemma_seen_tags(rows, col);
    lemma_tag_texts();
    let ts = seen_tags(rows, col);
    let r = resolve(ts);
    if has_null(rows, col) {
        if !is_nullable_tag(r) {
            assert(r.push('?').last() == '?');
        }
    } else {
        if ts.len() == 1 {
            assert(!is_nullable_tag(ts[0]));
        } else if forall|i: int| 0 <= i < ts.len() ==> numeric_rank(#[trigger] ts[i]) >= 0 {
            lemma_widest_rank_in_range(ts);
        }
    }
}

/// The rank of the tag at a position of the widening order is that position.
proof fn lemma_rank_of_order(w: int)
    requires
        0 <= w < numeric_order().len(),
    ensures
        numeric_rank(numeric_order()[w]) == w,
{
    lemma_tag_texts();
    lemma_first_index(numeric_order(), numeric_order()[w]);
    let k = numeric_rank(numeric_order()[w]);
    if k != w {
        assert(numeric_order()[k] == numeric_order()[w]);
    }
}

/// The widest rank is the rank of one of the tags, and no tag ranks higher.
proof fn lemma_widest_rank(ts: Seq<Seq<char>>)
    requires
        ts.len() > 0,
    ensures
        exists|k: int| 0 <= k < ts.len() && numeric_rank(#[trigger] ts[k]) == widest_rank(ts),
        forall|i: int| 0 <= i < ts.len() ==> numeric_rank(#[trigger] ts[i]) <= widest_rank(ts),
    decreases ts.len(),
{
    let last = ts.len() - 1;
    if ts.len() == 1 {
        assert(widest_rank(ts.drop_last()) == -1);
        lemma_first_index(numeric_order(), ts[0]);
        assert(numeric_rank(ts[0]) == widest_rank(ts));
    } else {
        lemma_widest_rank(ts.drop_last());
        let k = choose|k: int|
            0 <= k < ts.drop_last().len() && numeric_rank(#[trigger] ts.drop_last()[k])
                == widest_rank(ts.drop_last());
        assert(ts.drop_last()[k] == ts[k]);
        if numeric_rank(ts[last]) > widest_rank(ts.drop_last()) {
            assert(numeric_rank(ts[last]) == widest_rank(ts));
        } else {
            assert(numeric_rank(ts[k]) == widest_rank(ts));
        }
        assert forall|i: int| 0 <= i < ts.len() implies numeric_rank(#[trigger] ts[i])
            <= widest_rank(ts) by {
            if i < last {
                assert(ts.drop_last()[i] == ts[i]);
            }
        }
    }
}

/// Numeric widening: when a column holds only numeric types, its type is
/// the widest of them, which is one of the types seen and at least as wide
/// as each.
pub proof fn lemma_numeric_widening(ts: Seq<Seq<char>>)
    requires
        ts.len() > 0,
        forall|i: int| 0 <= i < ts.len() ==> numeric_rank(#[trigger] ts[i]) >= 0,
    ensures
        ts.contains(resolve(ts)),
        forall|i: int| 0 <= i < ts.len() ==> numeric_rank(#[trigger] ts[i]) <= numeric_rank(
            resolve(ts),
        ),
{
    if ts.len() == 1 {
        assert(ts[0] == resolve(ts));
    } else {
        lemma_widest_rank(ts);
        lemma_widest_rank_in_range(ts);
        let w = widest_rank(ts);
        lemma_rank_of_order(w);
        let k = choose|k: int| 0 <= k < ts.len() && numeric_rank(#[trigger] ts[k]) == w;
        lemma_first_index(numeric_order(), ts[k]);
        assert(ts[k] == numeric_order()[w]);
    }
}

/// Every key of every row, in reading order: the first row's keys in
/// order, then the second row's, and so on (repeats included).
pub open spec fn all_keys(rows: Seq<Row>) -> Seq<Seq<char>>
    decreases rows.len(),
{
    if rows.len() == 0 {
        seq![]
    } else {
        all_keys(rows.drop_last()) + keys_of(rows.last())
    }
}

/// A table's columns come in first-seen order: they are the keys read row
/// by row, each row's keys in order, with every repeat dropped; so a column
/// comes before another exactly when its first occurrence in that reading
/// comes first.
pub proof fn lemma_columns_first_seen(rows: Seq<Row>)
    ensures
        column_names(rows) == add_all_new(Seq::<Seq<char>>::empty(), all_keys(rows)),
        forall|i: int, j: int|
            0 <= i < j < column_names(rows).len() ==> 0 <= first_index(
                all_keys(rows),
                #[trigger] column_names(rows)[i],
            ) < first_index(all_keys(rows), #[trigger] column_names(rows)[j]),
    decreases rows.len(),
{
    let e = Seq::<Seq<char>>::empty();
    if rows.len() > 0 {
        lemma_columns_first_seen(rows.drop_last());
        lemma_add_all_new_append(e, all_keys(rows.drop_last()), keys_of(rows.last()));
    }
    lemma_add_all_new_order(all_keys(rows));
    assert forall|i: int, j: int|
        0 <= i < j < column_names(rows).len() implies 0 <= first_index(
        all_keys(rows),
        #[trigger] column_names(rows)[i],
    ) < first_index(all_keys(rows), #[trigger] column_names(rows)[j]) by {
        assert(0 <= first_index(all_keys(rows), add_all_new(e, all_keys(rows))[i]));
    }
}

/// No numeric tag is `str`.
proof fn lemma_numeric_tags_are_not_str()
    ensures
        forall|i: int| 0 <= i < numeric_order().len() ==> #[trigger] numeric_order()[i] != "str"@,
{
    reveal_strlit("u8");
    reveal_strlit("u16");
    reveal_strlit("u32");
    reveal_strlit("u64");
    reveal_strlit("i32");
    reveal_strlit("i64");
    reveal_strlit("f32");
    reveal_strlit("f64");
    reveal_strlit("str");
    let o = numeric_order();
    assert forall|i: int| 0 <= i < o.len() implies #[trigger] o[i] != "str"@ by {
        assert(o[i][0] != "str"@[0]);
    }
}

/// Several distinct tags resolve to `str` exactly when one of them is not
/// numeric: mixed kinds fall back to `str`, while numeric tags alone widen
/// to a numeric tag.
pub proof fn lemma_mixed_kinds_are_str(ts: Seq<Seq<char>>)
    requires
        ts.len() > 1,
    ensures
        resolve(ts) == "str"@ <==> exists|i: int| 0 <= i < ts.len() && numeric_rank(#[trigger] ts[i])
            < 0,
{
    if forall|i: int| 0 <= i < ts.len() ==> numeric_rank(#[trigger] ts[i]) >= 0 {
        lemma_widest_rank_in_range(ts);
        lemma_numeric_tags_are_not_str();
    }
}

/// Every non-null value of a column contributes its tag to the tags seen
/// in that column.
proof fn lemma_seen_tags_contain_values(rows: Seq<Row>, col: Seq<char>)
    ensures
        forall|r: int|
            0 <= r < rows.len() ==> match lookup(#[trigger] rows[r], col) {
                Some(v) => !(v is Null) ==> seen_tags(rows, col).contains(value_tag(v)),
                None => true,
            },
    decreases rows.len(),
{
    if rows.len() > 0 {
        let dl = rows.drop_last();
        lemma_seen_tags_contain_values(dl, col);
        let prev = seen_tags(dl, col);
        let cur = seen_tags(rows, col);
        assert forall|t: Seq<char>| prev.contains(t) implies cur.contains(t) by {
            let k = choose|k: int| 0 <= k < prev.len() && prev[k] == t;
            if let Some(v) = lookup(rows.last(), col) {
                if !(v is Null) && !prev.contains(value_tag(v)) {
                    assert(cur[k] == t);
                }
            }
        }
        assert forall|r: int| 0 <= r < rows.len() implies match lookup(#[trigger] rows[r], col) {
            Some(v) => !(v is Null) ==> cur.contains(value_tag(v)),
            None => true,
        } by {
            if r < rows.len() - 1 {
                assert(dl[r] == rows[r]);
            } else {
                if let Some(v) = lookup(rows.last(), col) {
                    if !(v is Null) && !prev.contains(value_tag(v)) {
                        assert(cur[cur.len() - 1] == value_tag(v));
                    }
                }
            }
        }
    }
}

/// A column that holds values of two different kinds, one of them not
/// numeric (a string next to a number, say), is typed `str`, or `str?`
/// when some row lacks it or holds `null` there.
pub proof fn lemma_mixed_column_is_str(
    rows: Seq<Row>,
    col: Seq<char>,
    a: int,
    b: int,
    va: JsonView,
    vb: JsonView,
)
    requires
        0 <= a < rows.len(),
        0 <= b < rows.len(),
        lookup(rows[a], col) == Some(va),
        lookup(rows[b], col) == Some(vb),
        !(va is Null),
        !(vb is Null),
        value_tag(va) != value_tag(vb),
        numeric_rank(value_tag(va)) < 0,
    ensures
        column_type(rows, col) == if has_null(rows, col) {
            "str?"@
        } else {
            "str"@
        },
{
    lemma_seen_tags_contain_values(rows, col);
    let ts = seen_tags(rows, col);
    assert(match lookup(rows[a], col) {
        Some(v) => !(v is Null) ==> ts.contains(value_tag(v)),
        None => true,
    });
    assert(match lookup(rows[b], col) {
        Some(v) => !(v is Null) ==> ts.contains(value_tag(v)),
        None => true,
    });
    let i = choose|i: int| 0 <= i < ts.len() && ts[i] == value_tag(va);
    let j = choose|j: int| 0 <= j < ts.len() && ts[j] == value_tag(vb);
    assert(i != j);
    assert(ts.len() > 1);
    lemma_mixed_kinds_are_str(ts);
    assert(numeric_rank(ts[i]) < 0);
    assert(resolve(ts) == "str"@);
    lemma_tag_texts();
    reveal_strlit("str");
    reveal_strlit("str?");
    assert("str"@.push('?') =~= "str?"@);
}

/// The tags seen in a column whose every row holds a non-null value of
/// tag `t`: just `t`, and no row lacks a value.
proof fn lemma_uniform_seen_tags(rows: Seq<Row>, col: Seq<char>, t: Seq<char>)
    requires
        rows.len() > 0,
        forall|r: int|
            0 <= r < rows.len() ==> (lookup(#[trigger] rows[r], col) matches Some(v) && !(v is Null)
                && value_tag(v) == t),
    ensures
        seen_tags(rows, col) == seq![t],
        !has_null(rows, col),
    decreases rows.len(),
{
    let dl = rows.drop_last();
    assert(lookup(rows[rows.len() - 1], col) matches Some(v) && !(v is Null) && value_tag(v) == t);
    if rows.len() > 1 {
        assert forall|r: int| 0 <= r < dl.len() implies (lookup(#[trigger] dl[r], col) matches Some(
            v,
        ) && !(v is Null) && value_tag(v) == t) by {
            assert(dl[r] == rows[r]);
            assert(lookup(rows[r], col) matches Some(v) && !(v is Null) && value_tag(v) == t);
        }
        lemma_uniform_seen_tags(dl, col, t);
        assert(seq![t].contains(t)) by {
            assert(seq![t][0] == t);
        }
    } else {
        assert(seen_tags(dl, col) == Seq::<Seq<char>>::empty());
        assert(!has_null(dl, col));
        assert(Seq::<Seq<char>>::empty().push(t) =~= seq![t]);
    }
}

/// A column in which every row holds a non-null value of one tag is typed
/// by that tag, with no `?`.
pub proof fn lemma_uniform_column(rows: Seq<Row>, col: Seq<char>, t: Seq<char>)
    requires
        rows.len() > 0,
        forall|r: int|
            0 <= r < rows.len() ==> (lookup(#[trigger] rows[r], col) matches Some(v) && !(v is Null)
                && value_tag(v) == t),
    ensures
        column_type(rows, col) == t,
{
    lemma_uniform_seen_tags(rows, col, t);
}

/// A column that no row fills with a non-null value is typed `str?`.
pub proof fn lemma_empty_column(rows: Seq<Row>, col: Seq<char>)
    requires
        rows.len() > 0,
        forall|r: int|
            0 <= r < rows.len() ==> match lookup(#[trigger] rows[r], col) {
                Some(v) => v is Null,
                None => true,
            },
    ensures
        column_type(rows, col) == "str?"@,
    decreases rows.len(),
{
    lemma_no_tags_seen(rows, col);
    assert(match lookup(rows[rows.len() - 1], col) {
        Some(v) => v is Null,
        None => true,
    });
    lemma_tag_texts();
}

/// No tag is seen in a column without a non-null value.
proof fn lemma_no_tags_seen(rows: Seq<Row>, col: Seq<char>)
    requires
        forall|r: int|
            0 <= r < rows.len() ==> match lookup(#[trigger] rows[r], col) {
                Some(v) => v is Null,
                None => true,
            },
    ensures
        seen_tags(rows, col) == Seq::<Seq<char>>::empty(),
    decreases rows.len(),
{
    if rows.len() > 0 {
        let dl = rows.drop_last();
        assert forall|r: int| 0 <= r < dl.len() implies match lookup(#[trigger] dl[r], col) {
            Some(v) => v is Null,
            None => true,
        } by {
            assert(dl[r] == rows[r]);
        }
        lemma_no_tags_seen(dl, col);
        assert(match lookup(rows[rows.len() - 1], col) {
            Some(v) => v is Null,
            None => true,
        });
    }
}

} // verus!
