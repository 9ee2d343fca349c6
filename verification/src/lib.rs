//! Convert JSON-shaped data into compact `.kore` text: arrays of objects
//! become aligned tables, flat objects become `name(k=v)` lines, arrays of
//! primitives become lists, API envelopes become a `ctx(...)` line above
//! their data, and anything else becomes `name: value`.

pub mod collections;
pub mod converter;
pub mod infer_types;
pub mod json;
pub mod keyed;
pub mod serialize;
pub mod text;
pub mod types;

pub use infer_types::{build_types_block, infer_table_types, infer_value_type};
pub use json::{Binary64, JsonNumber, JsonObject, JsonValue, NumberRepr};
pub use serialize::{ctx_value, serialize_value};
pub use types::{CtxValue, KoreOptions, KoreResult, Structure};

use vstd::prelude::*;

use crate::collections::ctx_entries;
use crate::converter::{convert, convert_any, ctx_line, result_view, KoreOut};
use crate::text::{push_char, push_str};

verus! {

/// The lines written above the converted data: the `// comment` line when a
/// comment is set, then the `ctx(...)` line when there are `ctx` fields.
pub open spec fn preamble(opts: KoreOptions) -> Seq<char> {
    (match opts.comment {
        Some(c) => "// "@ + c@ + seq!['\n'],
        None => seq![],
    }) + if ctx_entries(opts.ctx).len() > 0 {
        ctx_line(ctx_entries(opts.ctx))
    } else {
        seq![]
    }
}

/// Converts a JSON value into `.kore` text under `opts.block_name`: the
/// preamble, then the converted value; the detected structure, columns and
/// row count are those of the value.
pub fn to_kore(data: &JsonValue, opts: &KoreOptions) -> (r: KoreResult)
    ensures
        result_view(r) == (KoreOut {
            kore: preamble(*opts) + convert(data@, opts.block_name@, *opts).kore,
            ..convert(data@, opts.block_name@, *opts)
        }),
{
    let mut out = String::new();
    match &opts.comment {
        Some(c) => {
            push_str(&mut out, "// ");
            push_str(&mut out, c.as_str());
            push_char(&mut out, '\n');
        },
        None => {},
    }
    assert(out@ =~= match opts.comment {
        Some(c) => "// "@ + c@ + seq!['\n'],
        None => seq![],
    });
    if crate::collections::ctx_map_len(&opts.ctx) > 0 {
        let line = crate::converter::build_ctx(&opts.ctx);
        push_str(&mut out, line.as_str());
    }
    assert(out@ =~= preamble(*opts));
    let result = convert_any(data, opts.block_name.as_str(), opts);
    push_str(&mut out, result.kore.as_str());
    KoreResult {
        kore: out,
        structure: result.structure,
        columns: result.columns,
        row_count: result.row_count,
    }
}

} // verus!
