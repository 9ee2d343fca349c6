//! The insertion-ordered map and set of the `indexmap` crate, as this
//! library uses them: each instance is described by what it holds, in order.

use indexmap::{IndexMap, IndexSet};
use vstd::prelude::*;

use crate::keyed::{insert_entry, keys_of, lookup};
use crate::text::views;
use crate::types::{CtxValue, CtxView};

verus! {

#[verifier::external_type_specification]
#[verifier::external_body]
#[verifier::reject_recursive_types(K)]
#[verifier::reject_recursive_types(V)]
#[verifier::reject_recursive_types(S)]
pub struct ExIndexMap<K, V, S>(IndexMap<K, V, S>);

#[verifier::external_type_specification]
#[verifier::external_body]
#[verifier::reject_recursive_types(T)]
#[verifier::reject_recursive_types(S)]
pub struct ExIndexSet<T, S>(IndexSet<T, S>);

/// What a map of `ctx` fields holds: its entries, in order.
pub uninterp spec fn ctx_entries(m: IndexMap<String, CtxValue>) -> Seq<(Seq<char>, CtxView)>;

/// What a map of column types holds: its entries, in order.
pub uninterp spec fn type_entries(m: IndexMap<String, String>) -> Seq<(Seq<char>, Seq<char>)>;

/// What a set of names holds: its items, in order.
pub uninterp spec fn name_items(s: IndexSet<String>) -> Seq<Seq<char>>;

/// `IndexMap::new`: an empty map of `ctx` fields.
#[verifier::external_body]
pub(crate) fn ctx_map_new() -> (m: IndexMap<String, CtxValue>)
    ensures
        ctx_entries(m) == Seq::<(Seq<char>, CtxView)>::empty(),
{
    IndexMap::new()
}

/// `IndexMap::insert`: an entry whose key equals `key` keeps its place and
/// takes `value`; otherwise `(key, value)` is appended. Keys stay distinct.
#[verifier::external_body]
pub(crate) fn ctx_map_insert(m: &mut IndexMap<String, CtxValue>, key: String, value: CtxValue)
    ensures
        ctx_entries(*final(m)) == insert_entry(ctx_entries(*old(m)), key@, value@),
        keys_of(ctx_entries(*final(m))).no_duplicates(),
{
    m.insert(key, value);
}

/// `IndexMap::len`: the number of entries (whose keys are always distinct).
#[verifier::external_body]
pub(crate) fn ctx_map_len(m: &IndexMap<String, CtxValue>) -> (r: usize)
    ensures
        r == ctx_entries(*m).len(),
{
    m.len()
}

/// `IndexMap::clone` (the map's `Clone`): a map with the same entries in the
/// same order, each key and value copied by its own `clone`.
#[verifier::external_body]
pub(crate) fn ctx_map_clone(m: &IndexMap<String, CtxValue>) -> (r: IndexMap<String, CtxValue>)
    ensures
        ctx_entries(r) == ctx_entries(*m),
{
    m.clone()
}

/// `IndexMap::get_index`: the entry at position `i`, if there is one.
#[verifier::external_body]
pub(crate) fn ctx_map_get_index(m: &IndexMap<String, CtxValue>, i: usize) -> (r: Option<
    (&String, &CtxValue),
>)
    ensures
        match r {
            Some(e) => i < ctx_entries(*m).len() && e.0@ == ctx_entries(*m)[i as int].0 && e.1@
                == ctx_entries(*m)[i as int].1,
            None => i >= ctx_entries(*m).len(),
        },
{
    m.get_index(i)
}

/// `IndexMap::new`: an empty map of column types.
#[verifier::external_body]
pub(crate) fn type_map_new() -> (m: IndexMap<String, String>)
    ensures
        type_entries(m) == Seq::<(Seq<char>, Seq<char>)>::empty(),
{
    IndexMap::new()
}

/// `IndexMap::insert`: an entry whose key equals `key` keeps its place and
/// takes `value`; otherwise `(key, value)` is appended. Keys stay distinct.
#[verifier::external_body]
pub(crate) fn type_map_insert(m: &mut IndexMap<String, String>, key: String, value: String)
    ensures
        type_entries(*final(m)) == insert_entry(type_entries(*old(m)), key@, value@),
        keys_of(type_entries(*final(m))).no_duplicates(),
{
    m.insert(key, value);
}

/// `IndexMap::get`: the value stored under `key`, if any.
#[verifier::external_body]
pub(crate) fn type_map_get<'a>(m: &'a IndexMap<String, String>, key: &String) -> (r: Option<&'a String>)
    ensures
        match r {
            Some(v) => lookup(type_entries(*m), key@) == Some(v@),
            None => lookup(type_entries(*m), key@) is None,
        },
{
    m.get(key)
}

/// `IndexSet::new`: an empty set of names.
#[verifier::external_body]
pub(crate) fn name_set_new() -> (s: IndexSet<String>)
    ensures
        name_items(s) == Seq::<Seq<char>>::empty(),
{
    IndexSet::new()
}

/// `IndexSet::insert`: a name not yet present is appended (and `true` is
/// returned); a name already present leaves the set as it was (`false`).
/// Items stay distinct.
#[verifier::external_body]
pub(crate) fn name_set_insert(s: &mut IndexSet<String>, value: String) -> (r: bool)
    ensures
        r == !name_items(*old(s)).contains(value@),
        name_items(*final(s)) == if r {
            name_items(*old(s)).push(value@)
        } else {
            name_items(*old(s))
        },
        name_items(*final(s)).no_duplicates(),
{
    s.insert(value)
}

/// `IndexSet::len`: the number of items.
#[verifier::external_body]
pub(crate) fn name_set_len(s: &IndexSet<String>) -> (r: usize)
    ensures
        r == name_items(*s).len(),
{
    s.len()
}

/// `IndexSet::get_index`: the item at position `i`, if there is one.
#[verifier::external_body]
pub(crate) fn name_set_get_index(s: &IndexSet<String>, i: usize) -> (r: Option<&String>)
    ensures
        match r {
            Some(v) => i < name_items(*s).len() && v@ == name_items(*s)[i as int],
            None => i >= name_items(*s).len(),
        },
{
    s.get_index(i)
}

/// `IndexSet::into_iter`, collected into a `Vec`: the items, in order.
#[verifier::external_body]
pub(crate) fn name_set_into_vec(s: IndexSet<String>) -> (r: Vec<String>)
    ensures
        views(r@) == name_items(s),
{
    s.into_iter().collect()
}

} // verus!
