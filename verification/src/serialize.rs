//! Rules for turning a single JSON value into its `.kore` text form: the
//! quoting and escaping rules shared by tables, objects and lists.

use vstd::prelude::*;

use crate::json::{
    decimal_digit, lemma_int_text_plain, plain_decimal, Binary64, JsonNumber, JsonValue, JsonView, NumberRepr, Row,
};
use crate::text::{
    chars_of, comma_sep, i64_text, int_text, is_white_space, is_whitespace, join, join_strings,
    push_char, push_str, to_owned, u64_text, views,
};
use crate::types::{CtxValue, CtxView};

verus! {

/// `c` is one of `0`..`9`.
pub open spec fn is_ascii_digit(c: char) -> bool {
    '0' <= c && c <= '9'
}

/// A `|` in a table cell would read as a column separator.
pub open spec fn has_pipe(s: Seq<char>) -> bool {
    s.contains('|')
}

/// A table cell that starts with a digit, `_` or a quote character could be
/// misread as a number, the null marker, or an already-quoted value.
pub open spec fn has_ambiguous_start(s: Seq<char>) -> bool {
    s.len() > 0 && (s[0] == '_' || s[0] == '"' || s[0] == '\'' || is_ascii_digit(s[0]))
}

/// One character, escaped for a double-quoted string.
pub open spec fn escape_char(c: char) -> Seq<char> {
    if c == '"' {
        seq!['\\', '"']
    } else if c == '\\' {
        seq!['\\', '\\']
    } else {
        seq![c]
    }
}

/// `s` with backslashes and double quotes escaped.
pub open spec fn escaped(s: Seq<char>) -> Seq<char>
    decreases s.len(),
{
    if s.len() == 0 {
        seq![]
    } else {
        escaped(s.drop_last()) + escape_char(s.last())
    }
}

/// `s` escaped and wrapped in double quotes.
pub open spec fn quoted(s: Seq<char>) -> Seq<char> {
    seq!['"'] + escaped(s) + seq!['"']
}

/// `true` or `false`.
pub open spec fn bool_text(b: bool) -> Seq<char> {
    if b {
        "true"@
    } else {
        "false"@
    }
}

/// A binary64 value as rendered: a whole value below 10^15 as a plain
/// integer, anything else in its standard decimal rendering (plain digits,
/// never an exponent).
pub open spec fn binary64_text(b: Binary64) -> Seq<char> {
    match b.whole_part() {
        Some(w) => int_text(w as int),
        None => b.text(),
    }
}

/// A JSON number as rendered: integers in plain decimal; a floating-point
/// value as its binary64 value is rendered, so a whole value below 10^15
/// has no `.0` and no value is ever written with an exponent.
pub open spec fn number_text(n: JsonNumber) -> Seq<char> {
    match n.repr_part() {
        NumberRepr::UInt(u) => int_text(u as int),
        NumberRepr::NegInt(i) => int_text(i as int),
        NumberRepr::Float => binary64_text(n.approx_part()),
    }
}

/// The rendering of a value that is not finite.
pub open spec fn non_finite_text(s: Seq<char>) -> bool {
    s == "NaN"@ || s == "inf"@ || s == "-inf"@
}

/// The `.kore` text of a value. Inside a table cell (`in_table`), strings
/// that hold a `|` or start ambiguously are quoted; elsewhere strings are
/// bare. Arrays render as `[a, b]`, objects as `k=v, k2=v2`, null as `_`;
/// nested elements always render as outside a table.
pub open spec fn render(v: JsonView, in_table: bool) -> Seq<char>
    decreases v,
{
    match v {
        JsonView::Null => seq!['_'],
        JsonView::Bool(b) => bool_text(b),
        JsonView::Number(n) => number_text(n),
        JsonView::Str(s) => if in_table && (has_pipe(s) || has_ambiguous_start(s)) {
            quoted(s)
        } else {
            s
        },
        JsonView::Array(items) => seq!['['] + join(item_texts(items), comma_sep()) + seq![']'],
        JsonView::Object(row) => join(field_texts(row), comma_sep()),
    }
}

/// The texts of the items of an array, in order.
pub open spec fn item_texts(items: Seq<JsonView>) -> Seq<Seq<char>>
    decreases items,
{
    if items.len() == 0 {
        seq![]
    } else {
        item_texts(items.drop_last()).push(render(items.last(), false))
    }
}

/// The `k=v` texts of the fields of an object, in order.
pub open spec fn field_texts(row: Row) -> Seq<Seq<char>>
    decreases row,
{
    if row.len() == 0 {
        seq![]
    } else {
        proof {
            assert(decreases_to!(row => row[row.len() - 1]));
        }
        field_texts(row.drop_last()).push(
            row.last().0 + seq!['='] + render(row.last().1, false),
        )
    }
}

/// A `ctx` string needs quoting when it holds white space or one of
/// `,` `=` `(` `)` `"`, which would be ambiguous in `ctx(k=v, ...)`.
pub open spec fn is_ctx_special(c: char) -> bool {
    is_white_space(c) || c == ',' || c == '=' || c == '(' || c == ')' || c == '"'
}

/// A `ctx` string holds a character that would be ambiguous bare.
pub open spec fn ctx_needs_quoting(s: Seq<char>) -> bool {
    exists|i: int| 0 <= i < s.len() && is_ctx_special(s[i])
}

/// The text of a `ctx` field value.
pub open spec fn ctx_text(v: CtxView) -> Seq<char> {
    match v {
        CtxView::Bool(b) => bool_text(b),
        CtxView::Num(b) => binary64_text(b),
        CtxView::Str(s) => if ctx_needs_quoting(s) {
            quoted(s)
        } else {
            s
        },
    }
}

/// Whether `s` holds a `|`, which would be mistaken for a column separator.
fn needs_pipe_quote(s: &str) -> (r: bool)
    ensures
        r == has_pipe(s@),
{
    let v = chars_of(s);
    let mut i: usize = 0;
    while i < v.len()
        invariant
            i <= v@.len(),
            v@ == s@,
            forall|j: int| 0 <= j < i ==> v@[j] != '|',
        decreases v.len() - i,
    {
        if v[i] == '|' {
            return true;
        }
        i = i + 1;
    }
    false
}

/// Whether `s` starts with a digit, `_`, `"` or `'`, which would make a
/// table cell ambiguous.
fn needs_leading_char_quote(s: &str) -> (r: bool)
    ensures
        r == has_ambiguous_start(s@),
{
    let v = chars_of(s);
    if v.len() == 0 {
        false
    } else {
        let c = v[0];
        c == '_' || c == '"' || c == '\'' || ('0' <= c && c <= '9')
    }
}

/// Wraps `s` in double quotes, escaping backslashes and double quotes.
pub fn quote(s: &str) -> (r: String)
    ensures
        r@ == quoted(s@),
{
    let v = chars_of(s);
    let mut out = String::new();
    push_char(&mut out, '"');
    let mut i: usize = 0;
    while i < v.len()
        invariant
            i <= v@.len(),
            v@ == s@,
            out@ == seq!['"'] + escaped(v@.take(i as int)),
        decreases v.len() - i,
    {
        let c = v[i];
        if c == '"' {
            push_char(&mut out, '\\');
            push_char(&mut out, '"');
        } else if c == '\\' {
            push_char(&mut out, '\\');
            push_char(&mut out, '\\');
        } else {
            push_char(&mut out, c);
        }
        assert(v@.take(i + 1).drop_last() =~= v@.take(i as int));
        i = i + 1;
    }
    assert(v@.take(v@.len() as int) =~= v@);
    push_char(&mut out, '"');
    out
}

/// Renders a binary64 value: whole values below 10^15 as plain integers,
/// others in plain decimal (or `NaN`, `inf`, `-inf`).
fn binary64_string(b: &Binary64) -> (r: String)
    ensures
        r@ == binary64_text(*b),
        plain_decimal(r@) || non_finite_text(r@),
{
    match b.whole() {
        Some(w) => {
            proof {
                lemma_int_text_plain(w as int);
            }
            i64_text(w)
        },
        None => b.display().clone(),
    }
}

/// Renders a JSON number in plain decimal form: integers with no trailing
/// `.0`, and never an exponent.
pub fn format_number(n: &JsonNumber) -> (r: String)
    ensures
        r@ == number_text(*n),
        plain_decimal(r@),
{
    match n.repr() {
        NumberRepr::UInt(u) => {
            proof {
                lemma_int_text_plain(u as int);
            }
            u64_text(u)
        },
        NumberRepr::NegInt(i) => {
            proof {
                lemma_int_text_plain(i as int);
            }
            i64_text(i)
        },
        NumberRepr::Float => {
            let a = n.approx();
            let r = binary64_string(a);
            proof {
                match a.whole_part() {
                    Some(w) => lemma_int_text_plain(w as int),
                    None => assert(plain_decimal(a.text())),
                }
            }
            r
        },
    }
}

/// Serializes a single value to its `.kore` text. `in_table` turns on the
/// quoting rules that only apply inside table cells.
#[verifier::loop_isolation(false)]
pub fn serialize_value(value: &JsonValue, in_table: bool) -> (r: String)
    ensures
        r@ == render(value@, in_table),
        value@ is Number ==> plain_decimal(r@),
    decreases value,
{
    match value {
        JsonValue::Null => {
            let mut out = String::new();
            push_char(&mut out, '_');
            assert(out@ =~= seq!['_']);
            out
        },
        JsonValue::Bool(b) => if *b {
            to_owned("true")
        } else {
            to_owned("false")
        },
        JsonValue::Number(n) => format_number(n),
        JsonValue::String(s) => {
            if in_table && (needs_pipe_quote(s.as_str()) || needs_leading_char_quote(s.as_str())) {
                quote(s.as_str())
            } else {
                s.clone()
            }
        },
        JsonValue::Array(items) => {
            let ghost iv = value@->Array_0;
            let mut parts: Vec<String> = Vec::new();
            let mut i: usize = 0;
            while i < items.len()
                invariant
                    i <= items@.len(),
                    iv.len() == items@.len(),
                    views(parts@) == item_texts(iv.take(i as int)),
                decreases items.len() - i,
            {
                assert(decreases_to!(*value => *items));
                assert(decreases_to!(*items => items@));
                assert(decreases_to!(items@ => items@[i as int]));
                let t = serialize_value(&items[i], false);
                assert(iv[i as int] == items@[i as int]@);
                assert(iv.take(i + 1).drop_last() =~= iv.take(i as int));
                parts.push(t);
                assert(views(parts@) =~= item_texts(iv.take(i as int)).push(t@));
                i = i + 1;
            }
            assert(iv.take(items@.len() as int) =~= iv);
            let mut out = String::new();
            push_char(&mut out, '[');
            let joined = join_strings(&parts, ", ");
            proof {
                reveal_strlit(", ");
                assert(", "@ =~= comma_sep());
            }
            push_str(&mut out, joined.as_str());
            push_char(&mut out, ']');
            out
        },
        JsonValue::Object(o) => {
            let ghost row = value@->Object_0;
            let mut parts: Vec<String> = Vec::new();
            let mut i: usize = 0;
            while i < o.len()
                invariant
                    i <= o@.len(),
                    row == o@,
                    views(parts@) == field_texts(row.take(i as int)),
                decreases o@.len() - i,
            {
                let k = o.key_at(i);
                let v = o.value_at(i);
                proof {
                    o.lemma_entry_decreases(i as int);
                    assert(decreases_to!(*value => *o));
                }
                let vt = serialize_value(v, false);
                let mut field = k.clone();
                push_char(&mut field, '=');
                push_str(&mut field, vt.as_str());
                assert(row.take(i + 1).drop_last() =~= row.take(i as int));
                assert(row.take(i + 1).last() == row[i as int]);
                assert(field@ == row[i as int].0 + seq!['='] + render(row[i as int].1, false));
                parts.push(field);
                assert(views(parts@) =~= field_texts(row.take(i as int)).push(field@));
                i = i + 1;
            }
            assert(row.take(o@.len() as int) =~= row);
            proof {
                reveal_strlit(", ");
                assert(", "@ =~= comma_sep());
            }
            join_strings(&parts, ", ")
        },
    }
}

/// Whether `s` holds white space or one of `,` `=` `(` `)` `"`.
fn ctx_needs_quote(s: &str) -> (r: bool)
    ensures
        r == ctx_needs_quoting(s@),
{
    let v = chars_of(s);
    let mut i: usize = 0;
    while i < v.len()
        invariant
            i <= v@.len(),
            v@ == s@,
            forall|j: int| 0 <= j < i ==> !is_ctx_special(v@[j]),
        decreases v.len() - i,
    {
        let c = v[i];
        if is_whitespace(c) || c == ',' || c == '=' || c == '(' || c == ')' || c == '"' {
            return true;
        }
        i = i + 1;
    }
    false
}

/// Renders a `ctx()` field value: numbers and booleans are never quoted;
/// strings are quoted only when they hold a character that would be
/// ambiguous in `ctx(k=v, ...)`.
pub fn ctx_value(value: &CtxValue) -> (r: String)
    ensures
        r@ == ctx_text(value@),
        value@ is Num ==> plain_decimal(r@) || non_finite_text(r@),
        value@ is Num ==> !(r@.len() > 0 && r@[0] == '"'),
{
    match value {
        CtxValue::Bool(b) => if *b {
            to_owned("true")
        } else {
            to_owned("false")
        },
        CtxValue::Num(n) => {
            let r = binary64_string(n);
            proof {
                reveal_strlit("NaN");
                reveal_strlit("inf");
                reveal_strlit("-inf");
                if plain_decimal(r@) {
                    assert(r@[0] == '-' || decimal_digit(r@[0]));
                }
            }
            r
        },
        CtxValue::Str(s) => if ctx_needs_quote(s.as_str()) {
            quote(s.as_str())
        } else {
            s.clone()
        },
    }
}

/// The escaped text of a string ends with that string's last character.
proof fn lemma_escaped_last(s: Seq<char>)
    requires
        s.len() > 0,
    ensures
        escaped(s).len() > 0,
        escaped(s).last() == s.last(),
        escaped(s) == escaped(s.drop_last()) + escape_char(s.last()),
{
}

/// Escaping never merges two strings: distinct strings have distinct
/// escaped texts.
proof fn lemma_escaped_injective(s1: Seq<char>, s2: Seq<char>)
    requires
        escaped(s1) == escaped(s2),
    ensures
        s1 == s2,
    decreases s1.len(),
{
    if s1.len() == 0 || s2.len() == 0 {
        if s1.len() > 0 {
            lemma_escaped_last(s1);
        }
        if s2.len() > 0 {
            lemma_escaped_last(s2);
        }
        assert(s1 =~= s2);
    } else {
        lemma_escaped_last(s1);
        lemma_escaped_last(s2);
        let c = s1.last();
        assert(s2.last() == c);
        let e = escape_char(c);
        let a = escaped(s1.drop_last());
        let b = escaped(s2.drop_last());
        assert(a + e == b + e);
        assert(a =~= (a + e).subrange(0, a.len() as int));
        assert(b =~= (b + e).subrange(0, b.len() as int));
        lemma_escaped_injective(s1.drop_last(), s2.drop_last());
        assert(s1 =~= s1.drop_last().push(c));
        assert(s2 =~= s2.drop_last().push(c));
    }
}

/// Quoting loses nothing: two strings with the same quoted text are the
/// same string.
pub proof fn lemma_quoting_is_injective(s1: Seq<char>, s2: Seq<char>)
    requires
        quoted(s1) == quoted(s2),
    ensures
        s1 == s2,
{
    let q1 = quoted(s1);
    assert(escaped(s1) =~= q1.subrange(1, q1.len() - 1));
    assert(escaped(s2) =~= quoted(s2).subrange(1, quoted(s2).len() - 1));
    lemma_escaped_injective(s1, s2);
}

/// A double quote or a backslash: the characters that quoting escapes.
pub open spec fn is_escaped_char(c: char) -> bool {
    c == '"' || c == '\\'
}

/// How many characters of `s` are double quotes or backslashes.
pub open spec fn escaped_count(s: Seq<char>) -> nat
    decreases s.len(),
{
    if s.len() == 0 {
        0
    } else {
        escaped_count(s.drop_last()) + if is_escaped_char(s.last()) {
            1nat
        } else {
            0nat
        }
    }
}

/// Reads escaped text from left to right: a backslash and the character
/// after it stand for that character; any other character stands for
/// itself.
pub open spec fn unescaped(t: Seq<char>) -> Seq<char>
    decreases t.len(),
{
    if t.len() == 0 {
        seq![]
    } else if t[0] == '\\' && t.len() >= 2 {
        seq![t[1]] + unescaped(t.skip(2))
    } else {
        seq![t[0]] + unescaped(t.skip(1))
    }
}

/// Escaping works character by character.
proof fn lemma_escaped_concat(a: Seq<char>, b: Seq<char>)
    ensures
        escaped(a + b) == escaped(a) + escaped(b),
    decreases b.len(),
{
    if b.len() == 0 {
        assert(a + b =~= a);
        assert(escaped(a) + escaped(b) =~= escaped(a));
    } else {
        lemma_escaped_concat(a, b.drop_last());
        assert((a + b).drop_last() =~= a + b.drop_last());
        assert((a + b).last() == b.last());
        assert(escaped(a) + escaped(b) =~= escaped(a) + escaped(b.drop_last()) + escape_char(
            b.last(),
        ));
    }
}

/// Escaping adds one character for each double quote or backslash.
proof fn lemma_escaped_len(s: Seq<char>)
    ensures
        escaped(s).len() == s.len() + escaped_count(s),
    decreases s.len(),
{
    if s.len() > 0 {
        lemma_escaped_len(s.drop_last());
    }
}

/// Reading escaped text back gives back the text that was escaped.
proof fn lemma_unescape_escaped(s: Seq<char>)
    ensures
        unescaped(escaped(s)) == s,
    decreases s.len(),
{
    if s.len() > 0 {
        let c = s[0];
        let rest = s.skip(1);
        assert(s =~= seq![c] + rest);
        lemma_escaped_concat(seq![c], rest);
        let one: Seq<char> = seq![c];
        assert(one.drop_last() =~= Seq::<char>::empty());
        assert(one.last() == c);
        assert(escaped(one.drop_last()) =~= Seq::<char>::empty());
        assert(escaped(one) =~= escape_char(c));
        let t = escaped(s);
        lemma_unescape_escaped(rest);
        if is_escaped_char(c) {
            assert(t.skip(2) =~= escaped(rest));
        } else {
            assert(t.skip(1) =~= escaped(rest));
        }
        assert(unescaped(t) =~= s);
    }
}

/// Quoting is lossless and costs one character per escape: the text starts
/// and ends with a double quote, is two characters longer than `s` plus one
/// for each double quote or backslash in `s`, and reading what stands
/// between the quotes from left to right (a backslash and the next
/// character stand for that character) gives back exactly `s`.
pub proof fn lemma_quoting_round_trip(s: Seq<char>)
    ensures
        quoted(s).len() == s.len() + 2 + escaped_count(s),
        quoted(s)[0] == '"',
        quoted(s).last() == '"',
        unescaped(quoted(s).subrange(1, quoted(s).len() - 1)) == s,
{
    lemma_escaped_len(s);
    lemma_unescape_escaped(s);
    let q = quoted(s);
    assert(q.subrange(1, q.len() - 1) =~= escaped(s));
}

} // verus!
