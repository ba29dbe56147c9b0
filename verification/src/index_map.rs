//! The insertion-ordered maps of `indexmap` that the resolution reads and fills:
//! the table of reusable abstractions, the children of a reusable abstraction,
//! and the cache of resolved abstractions.
use std::rc::Rc;

use indexmap::IndexMap;

use vstd::prelude::*;

use crate::config::{AbstractionConfig, AbstractionModel};
use crate::config_schema::{AbstractionFieldValueSchema, AbstractionSchema};

verus! {

/// `indexmap::IndexMap`, declared as an outside type whose fields stay private;
/// what a map holds is given by the names below.
#[verifier::external_type_specification]
#[verifier::external_body]
#[verifier::reject_recursive_types(K)]
#[verifier::reject_recursive_types(V)]
#[verifier::reject_recursive_types(S)]
pub struct ExIndexMap<K, V, S>(IndexMap<K, V, S>);

/// The entries of a table of reusable abstractions, in insertion order,
/// each key given by its characters.
pub uninterp spec fn schema_entries(m: IndexMap<String, AbstractionSchema>) -> Seq<
    (Seq<char>, AbstractionSchema),
>;

/// The children of a reusable abstraction, in insertion order,
/// each matcher given by its characters.
pub uninterp spec fn child_entries(m: IndexMap<String, AbstractionFieldValueSchema>) -> Seq<
    (Seq<char>, AbstractionFieldValueSchema),
>;

/// What a cache of resolved abstractions holds: each key, by its characters,
/// mapped to the tree of the abstraction stored under it.
pub uninterp spec fn cache_contents(m: AbstractionCache) -> Map<
    Seq<char>,
    AbstractionModel,
>;

/// Resolved abstractions by the name they were resolved under.
pub type AbstractionCache = IndexMap<String, Rc<AbstractionConfig>>;

/// The keys of a cache of resolved abstractions in the order the map keeps them,
/// each by its characters.
pub uninterp spec fn cache_keys(m: AbstractionCache) -> Seq<Seq<char>>;

/// The value of the first entry whose key is `key`, if any.
pub open spec fn entry_lookup<V>(entries: Seq<(Seq<char>, V)>, key: Seq<char>) -> Option<V>
    decreases entries.len(),
{
    if entries.len() == 0 {
        None
    } else if entries[0].0 == key {
        Some(entries[0].1)
    } else {
        entry_lookup(entries.drop_first(), key)
    }
}

/// `IndexMap::new` for a table of reusable abstractions: the table is empty.
#[verifier::external_body]
pub(crate) fn schema_table_new() -> (m: IndexMap<String, AbstractionSchema>)
    ensures
        schema_entries(m) == Seq::<(Seq<char>, AbstractionSchema)>::empty(),
{
    IndexMap::new()
}

/// `IndexMap::get` on a table of reusable abstractions: the value stored under
/// `key`. Keys of an `IndexMap` are unique, so that is the value of the first
/// entry with that key.
#[verifier::external_body]
pub(crate) fn schema_table_get<'a>(m: &'a IndexMap<String, AbstractionSchema>, key: &str) -> (r:
    Option<&'a AbstractionSchema>)
    ensures
        (match r {
            Some(v) => entry_lookup(schema_entries(*m), key@) == Some(*v),
            None => entry_lookup(schema_entries(*m), key@) is None,
        }),
{
    m.get(key)
}

/// `IndexMap::iter` on the children of a reusable abstraction: the entries in
/// insertion order; the keys of an `IndexMap` are distinct.
#[verifier::external_body]
pub(crate) fn child_table_entries<'a>(m: &'a IndexMap<String, AbstractionFieldValueSchema>) -> (r:
    Vec<(&'a String, &'a AbstractionFieldValueSchema)>)
    ensures
        r@.len() == child_entries(*m).len(),
        forall|i: int| 0 <= i < r@.len() ==> (#[trigger] r@[i]).0@ == child_entries(*m)[i].0 && *r@[i].1 == child_entries(*m)[i].1,
        forall|i: int| 0 <= i < r@.len() ==> forall|j: int| i < j < r@.len() ==> (#[trigger] r@[i]).0@ != (#[trigger] r@[j]).0@,
{
    m.iter().collect()
}

/// `IndexMap::new` for a cache of resolved abstractions: the cache is empty and
/// has no keys.
#[verifier::external_body]
pub(crate) fn cache_new() -> (r: AbstractionCache)
    ensures
        cache_contents(r) == (Map::<Seq<char>, AbstractionModel>::empty()),
        cache_keys(r).len() == 0,
{
    IndexMap::new()
}

/// `IndexMap::get` on the cache, handing out a new handle on the stored abstraction
/// (`Rc::clone` points at the same value): present exactly when the key is.
#[verifier::external_body]
pub(crate) fn cache_get(m: &AbstractionCache, key: &str) -> (r: Option<Rc<AbstractionConfig>>)
    ensures
        (match r {
            Some(v) => cache_contents(*m).contains_key(key@) && v@ == cache_contents(*m)[key@],
            None => !cache_contents(*m).contains_key(key@),
        }),
{
    m.get(key).cloned()
}

/// `IndexMap::insert` on the cache: afterwards `key` maps to `value`, every
/// other key keeps its value; a key already present keeps its place in the
/// order, a new one goes last.
#[verifier::external_body]
pub(crate) fn cache_insert(
    m: &mut AbstractionCache,
    key: String,
    value: Rc<AbstractionConfig>,
)
    ensures
        cache_contents(*final(m)) == cache_contents(*old(m)).insert(key@, value@),
        cache_keys(*final(m)) == (if cache_keys(*old(m)).contains(key@) { cache_keys(*old(m)) } else { cache_keys(*old(m)).push(key@) }),
{
    m.insert(key, value);
}

} // verus!
