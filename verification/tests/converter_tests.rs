//! Whole-document conversions: scalars, objects, lists, tables, envelopes
//! and the `ctx`, `comment` and `infer_types` options.

use kore::{
    to_kore, Binary64, CtxValue, JsonNumber, JsonObject, JsonValue, KoreOptions, KoreResult,
    NumberRepr, Structure,
};

fn binary64(f: f64) -> Binary64 {
    let whole = if f == f.trunc() && f.abs() < 1e15 { Some(f as i64) } else { None };
    Binary64::new(whole, f.to_string()).expect("a binary64 rendering")
}

fn number(n: &serde_json::Number) -> JsonNumber {
    let repr = if let Some(u) = n.as_u64() {
        NumberRepr::UInt(u)
    } else if let Some(i) = n.as_i64() {
        NumberRepr::NegInt(i)
    } else {
        NumberRepr::Float
    };
    JsonNumber::new(repr, binary64(n.as_f64().unwrap())).expect("a consistent number")
}

fn from_json(v: &serde_json::Value) -> JsonValue {
    match v {
        serde_json::Value::Null => JsonValue::Null,
        serde_json::Value::Bool(b) => JsonValue::Bool(*b),
        serde_json::Value::Number(n) => JsonValue::Number(number(n)),
        serde_json::Value::String(s) => JsonValue::String(s.clone()),
        serde_json::Value::Array(items) => JsonValue::Array(items.iter().map(from_json).collect()),
        serde_json::Value::Object(map) => {
            let mut o = JsonObject::new();
            for (k, v) in map {
                o.insert(k.clone(), from_json(v));
            }
            JsonValue::Object(o)
        }
    }
}

/// A value written as JSON text.
fn json(text: &str) -> JsonValue {
    from_json(&serde_json::from_str::<serde_json::Value>(text).unwrap())
}

/// Parses JSON text, then converts it.
fn kore_from_str(input: &str, opts: &KoreOptions) -> Result<KoreResult, serde_json::Error> {
    let value: serde_json::Value = serde_json::from_str(input)?;
    Ok(to_kore(&from_json(&value), opts))
}

// ── scalar values ────────────────────────────────────────────────────────

#[test]
fn converter_tests_scalar_string() {
    let r = to_kore(&json("\"hello\""), &KoreOptions::new("msg"));
    assert_eq!(r.kore, "msg: hello");
    assert_eq!(r.structure, Structure::Scalar);
}

#[test]
fn scalar_number() {
    let r = to_kore(&json("42"), &KoreOptions::new("count"));
    assert_eq!(r.kore, "count: 42");
}

#[test]
fn scalar_bool() {
    let r = to_kore(&json("true"), &KoreOptions::new("active"));
    assert_eq!(r.kore, "active: true");
}

#[test]
fn scalar_null() {
    let r = to_kore(&json("null"), &KoreOptions::new("val"));
    assert_eq!(r.kore, "val: _");
}

// ── flat object ──────────────────────────────────────────────────────────

#[test]
fn flat_object_all_scalars_is_ctx_style() {
    let r = to_kore(
        &json(r#"{"name": "Boulder", "km": 7.5, "active": true}"#),
        &KoreOptions::new("hike"),
    );
    assert!(r.kore.contains("hike("));
    assert!(r.kore.contains("name=Boulder"));
    assert!(r.kore.contains("km=7.5"));
    assert_eq!(r.structure, Structure::Object);
}

// ── primitive list ───────────────────────────────────────────────────────

#[test]
fn string_list() {
    let r = to_kore(&json(r#"["ana", "luis", "sam"]"#), &KoreOptions::new("friends"));
    assert_eq!(r.kore, "friends: ana, luis, sam");
    assert_eq!(r.structure, Structure::List);
    assert_eq!(r.row_count, Some(3));
}

#[test]
fn number_list() {
    let r = to_kore(&json("[1, 2, 3]"), &KoreOptions::new("ids"));
    assert_eq!(r.kore, "ids: 1, 2, 3");
}

// ── table (array of objects) ────────────────────────────────────────────

fn hikes_fixture() -> JsonValue {
    json(
        r#"[
            {"id": 1, "name": "Blue Lake Trail", "km": 7.5, "sunny": true},
            {"id": 2, "name": "Ridge Overlook",  "km": 9.2, "sunny": false},
            {"id": 3, "name": "Wildflower Loop", "km": 5.1, "sunny": true}
        ]"#,
    )
}

#[test]
fn table_structure_is_table() {
    let r = to_kore(&hikes_fixture(), &KoreOptions::new("hikes"));
    assert_eq!(r.structure, Structure::Table);
    assert_eq!(r.row_count, Some(3));
    assert_eq!(
        r.columns,
        Some(vec![
            "id".to_string(),
            "name".to_string(),
            "km".to_string(),
            "sunny".to_string()
        ])
    );
}

#[test]
fn table_header_contains_column_names() {
    let r = to_kore(&hikes_fixture(), &KoreOptions::new("hikes"));
    assert!(r.kore.contains("hikes[id, name, km, sunny]:"));
}

#[test]
fn table_rows_use_pipe_separator() {
    let r = to_kore(&hikes_fixture(), &KoreOptions::new("hikes"));
    assert!(r.kore.contains('|'));
}

#[test]
fn table_booleans_serialized_correctly() {
    let r = to_kore(&hikes_fixture(), &KoreOptions::new("hikes"));
    assert!(r.kore.contains("true"));
    assert!(r.kore.contains("false"));
}

#[test]
fn table_null_values_become_underscore() {
    let data = json(
        r#"[
            {"id": 1, "name": "Blue Lake", "rating": null},
            {"id": 2, "name": "Ridge",     "rating": 4}
        ]"#,
    );
    let r = to_kore(&data, &KoreOptions::new("hikes"));
    assert!(r.kore.contains('_'));
}

#[test]
fn table_strings_with_commas_are_safe() {
    let data = json(r#"[{"id": 1, "name": "Blue Lake, CO", "km": 7.5}]"#);
    let r = to_kore(&data, &KoreOptions::new("hikes"));
    let data_line = r
        .kore
        .lines()
        .find(|l| l.contains("Blue Lake, CO"))
        .expect("row containing the comma-bearing name");
    // Exactly 2 pipe separators for 3 columns.
    assert_eq!(data_line.matches('|').count(), 2);
}

// ── ctx option ───────────────────────────────────────────────────────────

#[test]
fn ctx_option_adds_top_line() {
    let opts = KoreOptions::new("friends")
        .with_ctx("task", CtxValue::from_str("hike planner"))
        .with_ctx("ver", CtxValue::from_i32(1));
    let r = to_kore(&json(r#"["ana", "luis"]"#), &opts);
    assert!(r.kore.starts_with("ctx("));
    assert!(r.kore.contains("task="));
    assert!(r.kore.contains("ver=1"));
}

// ── infer_types option ──────────────────────────────────────────────────

#[test]
fn infer_types_emits_types_block() {
    let data = json(r#"[{"id": 1, "name": "Blue Lake", "km": 7.5, "sunny": true}]"#);
    let r = to_kore(&data, &KoreOptions::new("hikes").infer_types(true));
    assert!(r.kore.contains("@types"));
    assert!(r.kore.contains("Hikes {"));
}

#[test]
fn infer_types_detects_u8_for_small_positive_ints() {
    let data = json(r#"[{"id": 1}, {"id": 2}]"#);
    let r = to_kore(&data, &KoreOptions::new("items").infer_types(true));
    assert!(r.kore.contains("u8"));
}

#[test]
fn infer_types_detects_f32_for_floats() {
    let data = json(r#"[{"km": 7.5}, {"km": 9.2}]"#);
    let r = to_kore(&data, &KoreOptions::new("items").infer_types(true));
    assert!(r.kore.contains("f32"));
}

#[test]
fn infer_types_detects_bool() {
    let data = json(r#"[{"active": true}, {"active": false}]"#);
    let r = to_kore(&data, &KoreOptions::new("items").infer_types(true));
    assert!(r.kore.contains("bool"));
}

#[test]
fn infer_types_nullable_field_gets_question_mark() {
    let data = json(r#"[{"name": "ana", "score": null}, {"name": "luis", "score": 5}]"#);
    let r = to_kore(&data, &KoreOptions::new("items").infer_types(true));
    assert!(r.kore.contains("score: u8?") || r.kore.contains("score:u8?"));
}

#[test]
fn infer_types_union_of_columns_across_rows_regression() {
    let data = json(r#"[{"id": 1}, {"id": 2, "extra": "x"}]"#);
    let r = to_kore(&data, &KoreOptions::new("items").infer_types(true));
    assert!(r.kore.contains("extra"));
}

// ── envelope object ──────────────────────────────────────────────────────

#[test]
fn envelope_extracts_meta_as_ctx_and_data_as_table() {
    let api = json(
        r#"{
            "status": "ok",
            "page": 1,
            "hikes": [
                {"id": 1, "name": "Blue Lake", "km": 7.5},
                {"id": 2, "name": "Ridge",     "km": 9.2}
            ]
        }"#,
    );
    let r = to_kore(&api, &KoreOptions::new("hikes"));
    assert!(r.kore.contains("ctx("));
    assert!(r.kore.contains("status=ok"));
    assert!(r.kore.contains("hikes["));
}

// ── comment option ──────────────────────────────────────────────────────

#[test]
fn comment_option_adds_header() {
    let r = to_kore(&json(r#"{"x": 1}"#), &KoreOptions::new("data").comment("generated by kore"));
    assert!(r.kore.starts_with("// generated by kore"));
}

// ── from JSON text ───────────────────────────────────────────────────────

#[test]
fn from_str_parses_json_then_converts() {
    let json_str = r#"[{"id": 1, "name": "ana"}]"#;
    let r = kore_from_str(json_str, &KoreOptions::new("users")).unwrap();
    assert_eq!(r.structure, Structure::Table);
    assert!(r.kore.contains("users["));
}

#[test]
fn from_str_returns_err_on_invalid_json() {
    let result = kore_from_str("{not valid", &KoreOptions::default());
    assert!(result.is_err());
}

// ── nested objects ──────────────────────────────────────────────────────

#[test]
fn single_nested_field_is_treated_as_envelope_data_key() {
    let data = json(r#"{"name": "ana", "address": {"city": "Boulder", "zip": "80301"}}"#);
    let r = to_kore(&data, &KoreOptions::new("user"));
    assert!(r.kore.contains("ctx(name=ana)"));
    assert!(r.kore.contains("address(city=Boulder, zip=80301)"));
}

#[test]
fn array_field_inside_scalar_object_is_bracketed() {
    let data = json(r#"{"name": "ana", "tags": ["fast", "fun"]}"#);
    let r = to_kore(&data, &KoreOptions::new("user"));
    assert!(r.kore.contains("ctx(name=ana)"));
    assert!(r.kore.contains("tags: fast, fun"));
}

#[test]
fn object_with_multiple_nested_fields_keeps_every_field() {
    let data = json(
        r#"{"name": "ana", "address": {"city": "Boulder"}, "tags": ["fast", "fun"]}"#,
    );
    let r = to_kore(&data, &KoreOptions::new("user"));
    assert!(r.kore.contains("name: ana"));
    assert!(r.kore.contains("address("));
    assert!(r.kore.contains("city=Boulder"));
    assert!(r.kore.contains("tags: [fast, fun]"));
}

#[test]
fn array_value_in_ctx_object_envelope_path() {
    let data = json(r#"{"name": "ana", "age": 30, "tags": ["fast", "fun"]}"#);
    let r = to_kore(&data, &KoreOptions::new("user"));
    assert!(r.kore.contains("ctx(name=ana, age=30)"));
    assert!(r.kore.contains("tags: fast, fun"));
}

// ── exact layouts ───────────────────────────────────────────────────────

#[test]
fn table_cells_are_padded_and_lines_trimmed() {
    let data = json(r#"[{"id": 1, "name": "ana"}, {"id": 22, "name": "luis"}]"#);
    let r = to_kore(&data, &KoreOptions::new("users"));
    assert_eq!(r.kore, "users[id, name]:\n  1  | ana\n  22 | luis");
}

#[test]
fn max_col_width_caps_padding_but_never_truncates() {
    let data = json(r#"[{"a": "xxxxxxxxxx"}, {"a": "y"}]"#);
    let r = to_kore(&data, &KoreOptions::new("t").max_col_width(3));
    assert_eq!(r.kore, "t[a]:\n  xxxxxxxxxx\n  y");
}

#[test]
fn custom_indent_prefixes_rows() {
    let data = json(r#"[{"a": 1}]"#);
    let r = to_kore(&data, &KoreOptions::new("t").indent("\t"));
    assert_eq!(r.kore, "t[a]:\n\t1");
}

#[test]
fn types_block_above_table_exactly() {
    let data = json(r#"[{"id": 1, "score": null}, {"id": 300, "score": 2.5}]"#);
    let r = to_kore(&data, &KoreOptions::new("items").infer_types(true));
    assert_eq!(
        r.kore,
        "@types {\n  Items {\n    id: u16\n    score: f32?\n  }\n}\n\nitems[id, score]:\n  1   | _\n  300 | 2.5"
    );
}

#[test]
fn types_block_name_uses_unicode_upper_case() {
    let data = json(r#"[{"a": 1}]"#);
    let r = to_kore(&data, &KoreOptions::new("élan").infer_types(true));
    assert!(r.kore.starts_with("@types {\n  Élan {\n"));
    let r = to_kore(&data, &KoreOptions::new("ßx").infer_types(true));
    assert!(r.kore.starts_with("@types {\n  SSx {\n"));
}

#[test]
fn types_block_and_header_share_columns() {
    let data = json(r#"[{"a": 1}, {"b": "x", "a": 2}]"#);
    let r = to_kore(&data, &KoreOptions::new("rows").infer_types(true));
    assert!(r.kore.contains("    a: u8\n    b: str?\n"));
    assert!(r.kore.contains("rows[a, b]:"));
    assert_eq!(r.columns, Some(vec!["a".to_string(), "b".to_string()]));
}

#[test]
fn mixed_array_wraps_primitives_as_value_rows() {
    let data = json(r#"["a", {"b": 1}, 3]"#);
    let r = to_kore(&data, &KoreOptions::new("m"));
    assert_eq!(r.structure, Structure::Table);
    assert_eq!(r.row_count, Some(3));
    assert_eq!(r.columns, Some(vec!["value".to_string(), "b".to_string()]));
    assert_eq!(r.kore, "m[value, b]:\n  a     | _\n  _     | 1\n  3     | _");
}

#[test]
fn empty_array_is_an_empty_list() {
    let r = to_kore(&json("[]"), &KoreOptions::new("e"));
    assert_eq!(r.kore, "e: ");
    assert_eq!(r.structure, Structure::List);
    assert_eq!(r.row_count, Some(0));
}

#[test]
fn empty_object_renders_nothing() {
    let r = to_kore(&json("{}"), &KoreOptions::new("e"));
    assert_eq!(r.kore, "");
    assert_eq!(r.structure, Structure::Object);
}

#[test]
fn nested_blocks_render_exactly() {
    let data = json(r#"{"a": 1, "b": {"c": {"d": 1}, "e": [1, {"f": 2}]}}"#);
    let r = to_kore(&data, &KoreOptions::new("x"));
    assert_eq!(
        r.kore,
        "ctx(a=1)\n\n\nc(d=1)\n\ne[value, f]:\n  1     | _\n  _     | 2"
    );
    assert_eq!(r.structure, Structure::Object);
}

#[test]
fn envelope_without_metadata_has_no_ctx_line() {
    let data = json(r#"{"skip": null, "items": [1, 2]}"#);
    let r = to_kore(&data, &KoreOptions::new("x"));
    assert_eq!(r.kore, "items: 1, 2");
    assert_eq!(r.structure, Structure::List);
    assert_eq!(r.row_count, Some(2));
}

#[test]
fn envelope_numbers_render_as_binary64() {
    let data = json(r#"{"big": 1e20, "half": 0.5, "n": 7, "items": [1]}"#);
    let r = to_kore(&data, &KoreOptions::new("x"));
    assert_eq!(r.kore, "ctx(big=100000000000000000000, half=0.5, n=7)\n\nitems: 1");
}

#[test]
fn single_field_object_is_not_an_envelope() {
    let data = json(r#"{"items": [1, 2]}"#);
    let r = to_kore(&data, &KoreOptions::new("x"));
    assert_eq!(r.kore, "x(items=[1, 2])");
    assert_eq!(r.structure, Structure::Object);
}

#[test]
fn comment_and_ctx_come_before_the_data() {
    let opts = KoreOptions::new("d")
        .comment("hi")
        .with_ctx("a", CtxValue::from_i32(1))
        .with_ctx("b", CtxValue::from_bool(true))
        .with_ctx("a", CtxValue::from_str("x y"));
    let r = to_kore(&json("1"), &opts);
    assert_eq!(r.kore, "// hi\nctx(a=\"x y\", b=true)\nd: 1");
    assert_eq!(r.structure, Structure::Scalar);
}

#[test]
fn default_options() {
    let d = KoreOptions::default();
    assert_eq!(d.block_name, "data");
    assert_eq!(d.indent, "  ");
    assert_eq!(d.max_col_width, 30);
    assert!(d.pipe_rows);
    assert!(!d.infer_types);
    assert!(d.comment.is_none());
    assert!(d.ctx.is_empty());
    let r = to_kore(&json("5"), &d);
    assert_eq!(r.kore, "data: 5");
}

#[test]
fn structure_names() {
    assert_eq!(Structure::Table.as_str(), "table");
    assert_eq!(Structure::Object.as_str(), "object");
    assert_eq!(Structure::List.as_str(), "list");
    assert_eq!(Structure::Scalar.as_str(), "scalar");
}
