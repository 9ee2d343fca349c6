//! Core types shared across the crate: conversion options, results, and the
//! small helper enums that describe detected structure.

use indexmap::IndexMap;
use vstd::prelude::*;

use crate::collections::{ctx_entries, ctx_map_clone, ctx_map_insert, ctx_map_new};
use crate::keyed::insert_entry;
use crate::json::Binary64;
use crate::text::{i64_text, int_text, to_owned};

verus! {

/// The shape of data that was detected while converting.
#[derive(Debug, Clone, Copy, PartialEq, Eq, Structural)]
pub enum Structure {
    /// An array of objects, rendered as a `name[col, col2]:` table block.
    Table,
    /// A plain object, rendered as either `name(k=v)` or a multi-line block.
    Object,
    /// An array of primitive values, rendered as `name: a, b, c`.
    List,
    /// A single primitive value, rendered as `name: value`.
    Scalar,
}

/// The lower-case name of a structure.
pub open spec fn structure_name(s: Structure) -> Seq<char> {
    match s {
        Structure::Table => "table"@,
        Structure::Object => "object"@,
        Structure::List => "list"@,
        Structure::Scalar => "scalar"@,
    }
}

impl Structure {
    /// Lower-case string form: `"table"`, `"object"`, `"list"` or `"scalar"`.
    pub fn as_str(&self) -> (r: &'static str)
        ensures
            r@ == structure_name(*self),
    {
        match self {
            Structure::Table => "table",
            Structure::Object => "object",
            Structure::List => "list",
            Structure::Scalar => "scalar",
        }
    }
}

/// A scalar value usable inside a `ctx(...)` block: string, number, or bool.
#[derive(Debug, PartialEq)]
pub enum CtxValue {
    Str(String),
    Num(Binary64),
    Bool(bool),
}

/// The model of a `ctx` value.
pub enum CtxView {
    Str(Seq<char>),
    Num(Binary64),
    Bool(bool),
}

impl View for CtxValue {
    type V = CtxView;

    open spec fn view(&self) -> CtxView {
        match self {
            CtxValue::Str(s) => CtxView::Str(s@),
            CtxValue::Num(b) => CtxView::Num(*b),
            CtxValue::Bool(b) => CtxView::Bool(*b),
        }
    }
}

impl CtxValue {
    /// A string value.
    pub fn from_str(s: &str) -> (r: CtxValue)
        ensures
            r@ == CtxView::Str(s@),
    {
        CtxValue::Str(to_owned(s))
    }

    /// A 32-bit integer as a number: every such integer is a whole binary64
    /// value whose decimal rendering is its plain decimal text.
    pub fn from_i32(n: i32) -> (r: CtxValue)
        ensures
            r@ matches CtxView::Num(b) && b.whole_part() == Some(n as i64) && b.text() == int_text(
                n as int,
            ),
    {
        match Binary64::new(Some(n as i64), i64_text(n as i64)) {
            Some(b) => CtxValue::Num(b),
            None => CtxValue::Bool(false),
        }
    }

    /// A copy of this value.
    pub fn duplicate(&self) -> (r: CtxValue)
        ensures
            r@ == self@,
    {
        match self {
            CtxValue::Str(s) => CtxValue::Str(s.clone()),
            CtxValue::Num(b) => CtxValue::Num(b.duplicate()),
            CtxValue::Bool(b) => CtxValue::Bool(*b),
        }
    }

    /// A boolean value.
    pub fn from_bool(b: bool) -> (r: CtxValue)
        ensures
            r@ == CtxView::Bool(b),
    {
        CtxValue::Bool(b)
    }
}

impl Clone for CtxValue {
    fn clone(&self) -> (r: Self)
        ensures
            r@ == self@,
    {
        self.duplicate()
    }
}

/// Options controlling how JSON is converted into `.kore` text.
#[derive(Debug)]
pub struct KoreOptions {
    /// Block name used for the root value (e.g. `"hikes"` in `hikes[...]:`).
    pub block_name: String,
    /// Metadata rendered as a `ctx(k=v, ...)` line at the top of the document.
    pub ctx: IndexMap<String, CtxValue>,
    /// Whether table rows use a `|` separator between columns (tables
    /// always do at present).
    pub pipe_rows: bool,
    /// Whether to emit an `@types { ... }` block above tables.
    pub infer_types: bool,
    /// Indentation string used for table rows.
    pub indent: String,
    /// Optional `// comment` header line written above everything else.
    pub comment: Option<String>,
    /// Maximum column width used when aligning table cells.
    pub max_col_width: usize,
}

impl Default for KoreOptions {
    fn default() -> (r: Self)
        ensures
            r.block_name@ == "data"@,
            ctx_entries(r.ctx) == Seq::<(Seq<char>, CtxView)>::empty(),
            r.pipe_rows,
            !r.infer_types,
            r.indent@ == "  "@,
            r.comment is None,
            r.max_col_width == 30,
    {
        KoreOptions {
            block_name: to_owned("data"),
            ctx: ctx_map_new(),
            pipe_rows: true,
            infer_types: false,
            indent: to_owned("  "),
            comment: None,
            max_col_width: 30,
        }
    }
}

/// Two option sets that hold the same settings.
pub open spec fn same_options(a: KoreOptions, b: KoreOptions) -> bool {
    &&& a.block_name@ == b.block_name@
    &&& ctx_entries(a.ctx) == ctx_entries(b.ctx)
    &&& a.pipe_rows == b.pipe_rows
    &&& a.infer_types == b.infer_types
    &&& a.indent@ == b.indent@
    &&& match (a.comment, b.comment) {
        (Some(x), Some(y)) => x@ == y@,
        (None, None) => true,
        _ => false,
    }
    &&& a.max_col_width == b.max_col_width
}

impl Clone for KoreOptions {
    fn clone(&self) -> (r: Self)
        ensures
            same_options(r, *self),
    {
        self.duplicate()
    }
}

impl KoreOptions {
    /// A copy of these options, `ctx` entries included, in order.
    pub fn duplicate(&self) -> (r: Self)
        ensures
            same_options(r, *self),
    {
        let comment = match &self.comment {
            Some(c) => Some(c.clone()),
            None => None,
        };
        KoreOptions {
            block_name: self.block_name.clone(),
            ctx: ctx_map_clone(&self.ctx),
            pipe_rows: self.pipe_rows,
            infer_types: self.infer_types,
            indent: self.indent.clone(),
            comment,
            max_col_width: self.max_col_width,
        }
    }

    /// The default options with the given root block name.
    pub fn new(block_name: &str) -> (r: Self)
        ensures
            r.block_name@ == block_name@,
            ctx_entries(r.ctx) == Seq::<(Seq<char>, CtxView)>::empty(),
            r.pipe_rows,
            !r.infer_types,
            r.indent@ == "  "@,
            r.comment is None,
            r.max_col_width == 30,
    {
        KoreOptions { block_name: to_owned(block_name), ..KoreOptions::default() }
    }

    /// Sets `infer_types`.
    pub fn infer_types(self, value: bool) -> (r: Self)
        ensures
            r == (KoreOptions { infer_types: value, ..self }),
    {
        KoreOptions { infer_types: value, ..self }
    }

    /// Sets `comment`.
    pub fn comment(self, value: &str) -> (r: Self)
        ensures
            r.comment matches Some(c) && c@ == value@,
            r == (KoreOptions { comment: r.comment, ..self }),
    {
        KoreOptions { comment: Some(to_owned(value)), ..self }
    }

    /// Sets `indent`.
    pub fn indent(self, value: &str) -> (r: Self)
        ensures
            r.indent@ == value@,
            r == (KoreOptions { indent: r.indent, ..self }),
    {
        KoreOptions { indent: to_owned(value), ..self }
    }

    /// Sets `max_col_width`.
    pub fn max_col_width(self, value: usize) -> (r: Self)
        ensures
            r == (KoreOptions { max_col_width: value, ..self }),
    {
        KoreOptions { max_col_width: value, ..self }
    }

    /// Adds one `ctx` entry (replacing the value of an existing key in place).
    pub fn with_ctx(self, key: &str, value: CtxValue) -> (r: Self)
        ensures
            ctx_entries(r.ctx) == insert_entry(ctx_entries(self.ctx), key@, value@),
            r == (KoreOptions { ctx: r.ctx, ..self }),
    {
        let mut s = self;
        ctx_map_insert(&mut s.ctx, to_owned(key), value);
        s
    }
}

/// The output of converting JSON to `.kore`.
#[derive(Debug, Clone)]
pub struct KoreResult {
    /// The full rendered `.kore` text.
    pub kore: String,
    /// The detected top-level structure.
    pub structure: Structure,
    /// Column names, present only for tables.
    pub columns: Option<Vec<String>>,
    /// Row count, present for tables and lists.
    pub row_count: Option<usize>,
}

} // verus!
