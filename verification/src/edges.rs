//! The insertion-ordered edge table, kept in an `indexmap::IndexMap`.
//!
//! Verus cannot look inside the map, so its contents are given a name,
//! [`edge_entries`], and each map method the library calls is reached
//! through a small function whose contract is taken on trust from the
//! documentation of `indexmap`.

use indexmap::IndexMap;
use vstd::prelude::*;

verus! {

/// `indexmap::IndexMap`, declared so that it can stand in fields and
/// signatures. Nothing is known of what a value of it holds but through
/// [`edge_entries`].
#[verifier::external_type_specification]
#[verifier::external_body]
#[verifier::reject_recursive_types(K)]
#[verifier::reject_recursive_types(V)]
#[verifier::reject_recursive_types(S)]
pub struct ExIndexMap<K, V, S>(IndexMap<K, V, S>);

/// One entry of the table: a target and its dependencies, in declared order.
pub type Entry = (Seq<char>, Seq<Seq<char>>);

/// The entries an edge table holds, in insertion order.
pub uninterp spec fn edge_entries(m: IndexMap<String, Vec<String>>) -> Seq<Entry>;

/// Some entry of `entries` is keyed by `key`.
pub open spec fn has_key(entries: Seq<Entry>, key: Seq<char>) -> bool {
    exists|i: int| 0 <= i < entries.len() && (#[trigger] entries[i]).0 == key
}

/// The place of an entry keyed by `key`; meaningful where [`has_key`] holds.
pub open spec fn index_of(entries: Seq<Entry>, key: Seq<char>) -> int {
    choose|i: int| 0 <= i < entries.len() && (#[trigger] entries[i]).0 == key
}

/// No two entries share a key.
pub open spec fn distinct_keys(entries: Seq<Entry>) -> bool {
    forall|i: int, j: int|
        0 <= i < j < entries.len() ==> (#[trigger] entries[i]).0 != (#[trigger] entries[j]).0
}

/// The table after `key` is declared with `deps`: an existing entry keeps
/// its place and takes the new dependencies, a new one goes last.
pub open spec fn put(entries: Seq<Entry>, key: Seq<char>, deps: Seq<Seq<char>>) -> Seq<Entry> {
    if has_key(entries, key) {
        entries.update(index_of(entries, key), (key, deps))
    } else {
        entries.push((key, deps))
    }
}

/// Calls `IndexMap::new`: the new map holds no entry.
#[verifier::external_body]
pub(crate) fn edges_new() -> (m: IndexMap<String, Vec<String>>)
    ensures
        edge_entries(m) == Seq::<Entry>::empty(),
{
    IndexMap::new()
}

/// Calls `IndexMap::len`: the number of entries.
#[verifier::external_body]
pub(crate) fn edges_len(m: &IndexMap<String, Vec<String>>) -> (n: usize)
    ensures
        n == edge_entries(*m).len(),
{
    m.len()
}

/// Calls `IndexMap::insert`: where the key is present its entry keeps its
/// place and gets the new value, otherwise the pair is appended.
#[verifier::external_body]
pub(crate) fn edges_insert(m: &mut IndexMap<String, Vec<String>>, key: String, deps: Vec<String>)
    ensures
        edge_entries(*final(m)) == put(edge_entries(*old(m)), key@, deps.deep_view()),
{
    m.insert(key, deps);
}

/// Calls `IndexMap::get_index_of`: the place of the entry with this key,
/// or `None` where no entry has it.
#[verifier::external_body]
pub(crate) fn edges_index_of(m: &IndexMap<String, Vec<String>>, key: &str) -> (r: Option<usize>)
    ensures
        match r {
            Some(i) => i < edge_entries(*m).len() && edge_entries(*m)[i as int].0 == key@,
            None => !has_key(edge_entries(*m), key@),
        },
{
    m.get_index_of(key)
}

/// Calls `IndexMap::get_index`: the key and value at a place below the
/// length, `None` at any other.
#[verifier::external_body]
pub(crate) fn edges_get_index(m: &IndexMap<String, Vec<String>>, index: usize) -> (r: Option<
    (&String, &Vec<String>),
>)
    ensures
        match r {
            Some((key, deps)) => index < edge_entries(*m).len() && key@ == edge_entries(
                *m,
            )[index as int].0 && deps.deep_view() == edge_entries(*m)[index as int].1,
            None => index >= edge_entries(*m).len(),
        },
{
    m.get_index(index)
}

} // verus!
