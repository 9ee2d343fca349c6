//! Tests of the value renderer, the type inference and the converter core.

use indexmap::IndexSet;
use kore::converter::{
    capitalize, convert_any, convert_object, convert_table, pad, table_columns, with_first_replaced,
};
use kore::infer_types::{is_date_like, resolve_types};
use kore::serialize::quote;
use kore::{
    build_types_block, ctx_value, infer_table_types, CtxValue, infer_value_type, serialize_value, Binary64, JsonNumber, JsonObject,
    JsonValue, KoreOptions, NumberRepr, Structure,
};

fn binary64(f: f64) -> Binary64 {
    let whole = if f == f.trunc() && f.abs() < 1e15 { Some(f as i64) } else { None };
    Binary64::new(whole, f.to_string()).expect("a binary64 rendering")
}

fn number(n: &serde_json::Number) -> JsonNumber {
    let repr = if let Some(u) = n.as_u64() {
        NumberRepr::UInt(u)
    } else if let Some(i) = n.as_i64() {
        NumberRepr::NegInt(i)
    } else {
        NumberRepr::Float
    };
    JsonNumber::new(repr, binary64(n.as_f64().unwrap())).expect("a consistent number")
}

fn from_json(v: &serde_json::Value) -> JsonValue {
    match v {
        serde_json::Value::Null => JsonValue::Null,
        serde_json::Value::Bool(b) => JsonValue::Bool(*b),
        serde_json::Value::Number(n) => JsonValue::Number(number(n)),
        serde_json::Value::String(s) => JsonValue::String(s.clone()),
        serde_json::Value::Array(items) => JsonValue::Array(items.iter().map(from_json).collect()),
        serde_json::Value::Object(map) => {
            let mut o = JsonObject::new();
            for (k, v) in map {
                o.insert(k.clone(), from_json(v));
            }
            JsonValue::Object(o)
        }
    }
}

/// A value written as JSON text.
fn json(text: &str) -> JsonValue {
    from_json(&serde_json::from_str::<serde_json::Value>(text).unwrap())
}

fn obj(text: &str) -> JsonObject {
    match json(text) {
        JsonValue::Object(o) => o,
        _ => panic!("not an object"),
    }
}

fn opts(block_name: &str) -> KoreOptions {
    KoreOptions::new(block_name)
}

// ── serialize ──────────────────────────────────────────────────────────

#[test]
fn null_becomes_underscore() {
    assert_eq!(serialize_value(&JsonValue::Null, false), "_");
}

#[test]
fn bools() {
    assert_eq!(serialize_value(&json("true"), false), "true");
    assert_eq!(serialize_value(&json("false"), false), "false");
}

#[test]
fn integers_have_no_decimal() {
    assert_eq!(serialize_value(&json("42"), false), "42");
    assert_eq!(serialize_value(&json("-7"), false), "-7");
}

#[test]
fn floats_render_plainly() {
    assert_eq!(serialize_value(&json("7.5"), false), "7.5");
}

#[test]
fn plain_string_unquoted() {
    assert_eq!(serialize_value(&json("\"hello\""), false), "hello");
    assert_eq!(serialize_value(&json("\"hello\""), true), "hello");
}

#[test]
fn table_string_with_pipe_is_quoted() {
    assert_eq!(serialize_value(&json("\"a|b\""), true), "\"a|b\"");
    // outside a table, no need to quote
    assert_eq!(serialize_value(&json("\"a|b\""), false), "a|b");
}

#[test]
fn table_string_with_leading_digit_is_quoted() {
    assert_eq!(serialize_value(&json("\"123abc\""), true), "\"123abc\"");
}

#[test]
fn comma_in_string_is_left_alone_but_safe_in_table() {
    assert_eq!(serialize_value(&json("\"Blue Lake, CO\""), true), "Blue Lake, CO");
}

#[test]
fn arrays_are_bracketed() {
    assert_eq!(serialize_value(&json(r#"["a", "b", "c"]"#), false), "[a, b, c]");
}

#[test]
fn nested_object_inlines_as_kv() {
    assert_eq!(serialize_value(&json(r#"{"x": 1, "y": 2}"#), false), "x=1, y=2");
}

// ── infer_types ────────────────────────────────────────────────────────

#[test]
fn infers_basic_types() {
    assert_eq!(infer_value_type(&json("true")), "bool");
    assert_eq!(infer_value_type(&json("1")), "u8");
    assert_eq!(infer_value_type(&json("300")), "u16");
    assert_eq!(infer_value_type(&json("7.5")), "f32");
    assert_eq!(infer_value_type(&json("\"hello\"")), "str");
    assert_eq!(infer_value_type(&json("\"2024-01-01\"")), "date");
    assert_eq!(infer_value_type(&json("\"https://example.com\"")), "url");
    assert_eq!(infer_value_type(&JsonValue::Null), "str?");
}

#[test]
fn nullable_field_gets_question_mark() {
    let rows = vec![
        obj(r#"{"name": "ana", "score": null}"#),
        obj(r#"{"name": "luis", "score": 5}"#),
    ];
    let types = infer_table_types(&rows);
    assert_eq!(types.get("score").unwrap(), "u8?");
}

#[test]
fn union_of_columns_across_rows() {
    let rows = vec![obj(r#"{"id": 1}"#), obj(r#"{"id": 2, "extra": "x"}"#)];
    let types = infer_table_types(&rows);
    assert_eq!(types.get("extra").unwrap(), "str?");
}

#[test]
fn numeric_widening() {
    let rows = vec![obj(r#"{"id": 1}"#), obj(r#"{"id": 999999}"#)];
    let types = infer_table_types(&rows);
    assert_eq!(types.get("id").unwrap(), "u32");
}

// ── converter core ─────────────────────────────────────────────────────

#[test]
fn converter_scalar_string() {
    let r = convert_any(&json("\"hello\""), "msg", &opts("msg"));
    assert_eq!(r.kore, "msg: hello");
    assert_eq!(r.structure, Structure::Scalar);
}

#[test]
fn flat_object_is_ctx_style() {
    let r = convert_any(
        &json(r#"{"name": "Boulder", "km": 7.5, "active": true}"#),
        "hike",
        &opts("hike"),
    );
    assert!(r.kore.starts_with("hike("));
    assert!(r.kore.contains("name=Boulder"));
    assert!(r.kore.contains("km=7.5"));
    assert_eq!(r.structure, Structure::Object);
}

#[test]
fn primitive_list() {
    let r = convert_any(&json(r#"["ana", "luis", "sam"]"#), "friends", &opts("friends"));
    assert_eq!(r.kore, "friends: ana, luis, sam");
    assert_eq!(r.structure, Structure::List);
    assert_eq!(r.row_count, Some(3));
}

#[test]
fn table_basic() {
    let data = json(
        r#"[
            {"id": 1, "name": "Blue Lake Trail", "km": 7.5, "sunny": true},
            {"id": 2, "name": "Ridge Overlook", "km": 9.2, "sunny": false}
        ]"#,
    );
    let r = convert_any(&data, "hikes", &opts("hikes"));
    assert_eq!(r.structure, Structure::Table);
    assert_eq!(r.row_count, Some(2));
    assert!(r.kore.contains("hikes[id, name, km, sunny]:"));
    assert!(r.kore.contains('|'));
}

#[test]
fn table_null_becomes_underscore() {
    let data = json(
        r#"[
            {"id": 1, "name": "Blue Lake", "rating": null},
            {"id": 2, "name": "Ridge", "rating": 4}
        ]"#,
    );
    let r = convert_any(&data, "hikes", &opts("hikes"));
    assert!(r.kore.contains('_'));
}

#[test]
fn envelope_extracts_meta_and_data() {
    let data = json(
        r#"{
            "status": "ok",
            "page": 1,
            "hikes": [
                {"id": 1, "name": "Blue Lake", "km": 7.5},
                {"id": 2, "name": "Ridge", "km": 9.2}
            ]
        }"#,
    );
    let r = convert_any(&data, "hikes", &opts("hikes"));
    assert!(r.kore.contains("ctx("));
    assert!(r.kore.contains("status=ok"));
    assert!(r.kore.contains("hikes["));
    assert_eq!(r.structure, Structure::Table);
}

// ── further cases ──────────────────────────────────────────────────────

#[test]
fn whole_floats_render_without_fraction() {
    assert_eq!(serialize_value(&json("7.0"), false), "7");
    assert_eq!(serialize_value(&json("-2.0"), false), "-2");
}

#[test]
fn extreme_integers_render_exactly() {
    assert_eq!(serialize_value(&json("18446744073709551615"), false), "18446744073709551615");
    assert_eq!(serialize_value(&json("-9223372036854775808"), false), "-9223372036854775808");
    assert_eq!(serialize_value(&json("0"), false), "0");
}

#[test]
fn table_quoting_escapes_backslashes_and_quotes() {
    // starts with a digit, so it is quoted; `"` and `\` inside are escaped
    assert_eq!(serialize_value(&json(r#""2\"x\\y""#), true), r#""2\"x\\y""#);
    assert_eq!(serialize_value(&json(r#""_hidden""#), true), r#""_hidden""#);
    assert_eq!(serialize_value(&json(r#""'q'""#), true), r#""'q'""#);
    assert_eq!(serialize_value(&json(r#""\"q\"""#), true), r#""\"q\"""#);
}

#[test]
fn quoting_keeps_distinct_strings_distinct() {
    let a = serialize_value(&json(r#""1a\"""#), true);
    let b = serialize_value(&json(r#""1a\\""#), true);
    assert_ne!(a, b);
    assert_eq!(a, r#""1a\"""#);
    assert_eq!(b, r#""1a\\""#);
}

#[test]
fn nested_values_render_inline() {
    assert_eq!(serialize_value(&json(r#"[1, [2, null], {"k": true}]"#), false), "[1, [2, _], k=true]");
    assert_eq!(serialize_value(&json("[]"), false), "[]");
    assert_eq!(serialize_value(&json("{}"), false), "");
    // elements of an array are never table cells, even inside one
    assert_eq!(serialize_value(&json(r#"["a|b"]"#), true), "[a|b]");
}

#[test]
fn ctx_values_quote_only_when_ambiguous() {
    assert_eq!(ctx_value(&CtxValue::from_str("plain")), "plain");
    assert_eq!(ctx_value(&CtxValue::from_str("a b")), "\"a b\"");
    assert_eq!(ctx_value(&CtxValue::from_str("a=b")), "\"a=b\"");
    assert_eq!(ctx_value(&CtxValue::from_str("a,b")), "\"a,b\"");
    assert_eq!(ctx_value(&CtxValue::from_str("f(x)")), "\"f(x)\"");
    assert_eq!(ctx_value(&CtxValue::from_str("tab\there")), "\"tab\there\"");
    assert_eq!(ctx_value(&CtxValue::from_str("say \"hi\"")), "\"say \\\"hi\\\"\"");
    assert_eq!(ctx_value(&CtxValue::from_str("a|b")), "a|b");
    assert_eq!(ctx_value(&CtxValue::from_bool(false)), "false");
    assert_eq!(ctx_value(&CtxValue::from_i32(-12)), "-12");
    assert_eq!(ctx_value(&CtxValue::Num(binary64(2.5))), "2.5");
    assert_eq!(ctx_value(&CtxValue::Num(binary64(3.0))), "3");
    assert_eq!(ctx_value(&CtxValue::Num(binary64(1e20))), "100000000000000000000");
}

#[test]
fn integer_types_pick_the_narrowest_bucket() {
    assert_eq!(infer_value_type(&json("255")), "u8");
    assert_eq!(infer_value_type(&json("256")), "u16");
    assert_eq!(infer_value_type(&json("65535")), "u16");
    assert_eq!(infer_value_type(&json("70000")), "u32");
    assert_eq!(infer_value_type(&json("4294967296")), "u64");
    assert_eq!(infer_value_type(&json("18446744073709551615")), "u64");
    assert_eq!(infer_value_type(&json("-5")), "i32");
    assert_eq!(infer_value_type(&json("-2147483648")), "i32");
    assert_eq!(infer_value_type(&json("-2147483649")), "i64");
    assert_eq!(infer_value_type(&json("5.0")), "f32");
}

#[test]
fn string_shapes_and_containers() {
    assert_eq!(infer_value_type(&json("\"2024-1-01\"")), "str");
    assert_eq!(infer_value_type(&json("\"2024-01-0x\"")), "str");
    assert_eq!(infer_value_type(&json("\"http://x\"")), "url");
    assert_eq!(infer_value_type(&json("\"http:/x\"")), "str");
    assert_eq!(infer_value_type(&json("\"ftp://x\"")), "str");
    assert_eq!(infer_value_type(&json("[1, 2]")), "[]str");
    assert_eq!(infer_value_type(&json(r#"{"a": 1}"#)), "str");
}

#[test]
fn column_types_resolve_mixed_kinds() {
    let rows = vec![
        obj(r#"{"n": 1, "m": 1, "s": -1, "x": null}"#),
        obj(r#"{"n": 2.5, "m": "one", "s": 70000}"#),
    ];
    let types = infer_table_types(&rows);
    assert_eq!(types.get("n").unwrap(), "f32");
    assert_eq!(types.get("m").unwrap(), "str");
    // i32 is wider than u32 in the widening order
    assert_eq!(types.get("s").unwrap(), "i32");
    assert_eq!(types.get("x").unwrap(), "str?");
    let keys: Vec<&String> = types.keys().collect();
    assert_eq!(keys, vec!["n", "m", "s", "x"]);
}

#[test]
fn types_block_lists_columns_in_order() {
    let rows = vec![obj(r#"{"b": true, "a": 1}"#)];
    let types = infer_table_types(&rows);
    let cols = vec!["a".to_string(), "b".to_string(), "zz".to_string()];
    assert_eq!(
        build_types_block("Things", &cols, &types),
        "@types {\n  Things {\n    a: u8\n    b: bool\n    zz: str\n  }\n}\n"
    );
}

#[test]
fn object_insert_keeps_key_in_place() {
    let mut o = JsonObject::new();
    o.insert("a".to_string(), json("1"));
    o.insert("b".to_string(), json("2"));
    o.insert("a".to_string(), json("3"));
    assert_eq!(o.len(), 2);
    assert_eq!(serialize_value(&JsonValue::Object(o), false), "a=3, b=2");
}

#[test]
fn converter_result_shape_matches_structure() {
    let o = opts("d");
    let scalar = convert_any(&json("1"), "d", &o);
    assert_eq!((scalar.columns, scalar.row_count), (None, None));
    let list = convert_any(&json("[1, 2]"), "d", &o);
    assert_eq!((list.structure, list.columns, list.row_count), (Structure::List, None, Some(2)));
    let object = convert_any(&json(r#"{"a": 1}"#), "d", &o);
    assert_eq!((object.structure, object.columns, object.row_count), (Structure::Object, None, None));
    let table = convert_any(&json(r#"[{"a": 1}, {"b": 2}]"#), "d", &o);
    assert_eq!(table.structure, Structure::Table);
    assert_eq!(table.columns, Some(vec!["a".to_string(), "b".to_string()]));
    assert_eq!(table.row_count, Some(2));
}

#[test]
fn floats_never_use_an_exponent() {
    assert_eq!(serialize_value(&json("1e16"), false), "10000000000000000");
    assert_eq!(serialize_value(&json("1e20"), false), "100000000000000000000");
    assert_eq!(serialize_value(&json("1.5e-7"), false), "0.00000015");
    assert_eq!(serialize_value(&json("999999999999999.0"), false), "999999999999999");
    assert_eq!(serialize_value(&json("-0.0"), false), "0");
}

#[test]
fn number_parts_must_agree() {
    assert!(Binary64::new(Some(7), "7".to_string()).is_some());
    assert!(Binary64::new(Some(0), "-0".to_string()).is_some());
    assert!(Binary64::new(None, "2.5".to_string()).is_some());
    assert!(Binary64::new(None, "NaN".to_string()).is_some());
    assert!(Binary64::new(None, "1000000000000000".to_string()).is_some());
    // a rendering that is not plain decimal, or disagrees with the whole part
    assert!(Binary64::new(None, "\"x".to_string()).is_none());
    assert!(Binary64::new(None, "1e16".to_string()).is_none());
    assert!(Binary64::new(None, "7".to_string()).is_none());
    assert!(Binary64::new(Some(7), "8".to_string()).is_none());
    assert!(Binary64::new(Some(1_000_000_000_000_000), "1000000000000000".to_string()).is_none());
    let seven = Binary64::new(Some(7), "7".to_string()).unwrap();
    assert!(JsonNumber::new(NumberRepr::UInt(7), seven.clone()).is_some());
    assert!(JsonNumber::new(NumberRepr::UInt(5), seven.clone()).is_none());
    assert!(JsonNumber::new(NumberRepr::Float, seven).is_some());
    let nan = Binary64::new(None, "NaN".to_string()).unwrap();
    assert!(JsonNumber::new(NumberRepr::Float, nan).is_none());
}

#[test]
fn capitalize_upper_cases_the_first_character() {
    assert_eq!(capitalize("hikes"), "Hikes");
    assert_eq!(capitalize(""), "");
    assert_eq!(capitalize("\u{df}x"), "SSx");
    assert_eq!(capitalize("1st"), "1st");
    assert_eq!(with_first_replaced("X", "hikes"), "Xikes");
    assert_eq!(with_first_replaced("AB", "\u{e9}t\u{e9}"), "ABt\u{e9}");
    assert_eq!(with_first_replaced("X", ""), "");
}

#[test]
fn pad_only_pads() {
    assert_eq!(pad("ab", 5), "ab   ");
    assert_eq!(pad("abcdef", 3), "abcdef");
    assert_eq!(pad("\u{e9}", 3), "\u{e9}  ");
    assert_eq!(pad("", 0), "");
}

#[test]
fn quote_escapes_and_round_trips() {
    let q = quote(r#"a"b\c"#);
    assert_eq!(q, r#""a\"b\\c""#);
    assert_eq!(q.len(), r#"a"b\c"#.len() + 2 + 2);
    assert_eq!(quote(""), "\"\"");
    assert_eq!(quote("plain"), "\"plain\"");
}

#[test]
fn table_columns_come_in_first_seen_order() {
    let rows = vec![obj(r#"{"b": 1, "a": 2}"#), obj(r#"{"c": 3, "a": 4}"#), obj(r#"{"b": 5, "d": 6}"#)];
    assert_eq!(table_columns(&rows), vec!["b", "a", "c", "d"]);
    assert!(table_columns(&[]).is_empty());
}

#[test]
fn table_rows_are_padded_and_never_truncated() {
    let rows = vec![obj(r#"{"name": "Al", "n": 1}"#), obj(r#"{"name": "Bob"}"#)];
    let (header, body, columns) = convert_table(&rows, "d", &opts("d"));
    assert_eq!(header, "d[name, n]:\n");
    assert_eq!(body, "  Al   | 1\n  Bob  | _");
    assert_eq!(columns, vec!["name", "n"]);
    let narrow = opts("d").max_col_width(2);
    let (_, body, _) = convert_table(&rows, "d", &narrow);
    assert_eq!(body, "  Al | 1\n  Bob | _");
}

#[test]
fn object_with_inline_fields_is_one_line() {
    let o = obj(r#"{"a": 1, "b": "x", "t": [1, 2]}"#);
    assert_eq!(convert_object(&o, "d", &opts("d")), "d(a=1, b=x, t=[1, 2])");
}

#[test]
fn object_with_nested_fields_is_a_block() {
    let o = obj(r#"{"name": "ana", "a": {"x": 1}, "b": [{"y": 2}]}"#);
    assert_eq!(convert_object(&o, "d", &opts("d")), "name: ana\n\na(x=1)\n\nb[y]:\n  2");
}

#[test]
fn mixed_arrays_are_tables_with_rows_and_distinct_columns() {
    let r = convert_any(&json(r#"[1, {"a": 2}, {"a": 3, "value": 4}]"#), "d", &opts("d"));
    assert_eq!(r.structure, Structure::Table);
    assert_eq!(r.row_count, Some(3));
    assert_eq!(r.columns, Some(vec!["value".to_string(), "a".to_string()]));
}

#[test]
fn envelope_is_its_data_block_under_a_ctx_line() {
    let r = convert_any(&json(r#"{"note": null, "items": [1, 2]}"#), "d", &opts("d"));
    assert_eq!(r.kore, "items: 1, 2");
    assert_eq!((r.structure, r.columns, r.row_count), (Structure::List, None, Some(2)));
    let r = convert_any(&json(r#"{"total": 2, "ok": true, "items": [1, 2]}"#), "d", &opts("d"));
    assert_eq!(r.kore, "ctx(total=2, ok=true)\n\nitems: 1, 2");
    assert_eq!((r.structure, r.columns, r.row_count), (Structure::List, None, Some(2)));
}

fn tags(ts: &[&str]) -> IndexSet<String> {
    ts.iter().map(|t| t.to_string()).collect()
}

#[test]
fn resolve_types_widens_or_falls_back() {
    assert_eq!(resolve_types(&tags(&[])), "str?");
    assert_eq!(resolve_types(&tags(&["date"])), "date");
    assert_eq!(resolve_types(&tags(&["u8", "f32"])), "f32");
    assert_eq!(resolve_types(&tags(&["i32", "u64"])), "i32");
    assert_eq!(resolve_types(&tags(&["u8", "str"])), "str");
}

#[test]
fn date_like_strings() {
    assert!(is_date_like("2024-01-01"));
    assert!(is_date_like("2024-13-99"));
    assert!(!is_date_like("2024-1-01"));
    assert!(!is_date_like("2024/01/01"));
    assert!(!is_date_like("2024-01-011"));
}

#[test]
fn options_clone_keeps_every_setting() {
    let o = KoreOptions::new("d")
        .with_ctx("a", CtxValue::from_i32(1))
        .with_ctx("b", CtxValue::from_str("x"))
        .comment("c")
        .indent("\t")
        .max_col_width(7)
        .infer_types(true);
    for c in [o.clone(), o.duplicate()] {
        assert_eq!(c.block_name, o.block_name);
        assert_eq!(c.ctx, o.ctx);
        assert_eq!(c.ctx.get_index(1), Some((&"b".to_string(), &CtxValue::from_str("x"))));
        assert_eq!(c.comment, o.comment);
        assert_eq!(c.indent, o.indent);
        assert_eq!(c.max_col_width, 7);
        assert!(c.infer_types && c.pipe_rows);
    }
}

#[test]
fn table_body_has_one_line_per_row() {
    let rows = vec![
        obj(r#"{"name": "Al", "n": 1}"#),
        obj(r#"{"name": "Bob", "tags": ["a", "b"]}"#),
        obj(r#"{"n": 3}"#),
    ];
    let o = opts("d").indent("> ");
    let (header, body, columns) = convert_table(&rows, "d", &o);
    let lines: Vec<&str> = body.split('\n').collect();
    assert_eq!(lines, vec!["> Al   | 1 | _", "> Bob  | _ | [a, b]", "> _    | 3 | _"]);
    assert!(lines.iter().all(|l| l.starts_with("> ")));
    let mut unpiped = o.clone();
    unpiped.pipe_rows = false;
    assert_eq!(convert_table(&rows, "d", &unpiped), (header, body, columns));
}
