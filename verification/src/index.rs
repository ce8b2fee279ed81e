//! The in-memory index: a concurrent hash map from key to current value.
//!
//! The map itself comes from the `dashmap` crate and is opaque to the
//! verifier. What it holds is named by `dash_contents`, and each operation
//! the store uses is wrapped in a trusted function whose contract states, in
//! terms of that name, what the crate's source shows the operation to do.

use vstd::prelude::*;
use dashmap::DashMap;

verus! {

#[verifier::external_type_specification]
#[verifier::external_body]
#[verifier::reject_recursive_types(K)]
#[verifier::reject_recursive_types(V)]
#[verifier::reject_recursive_types(S)]
pub struct ExDashMap<K, V, S>(DashMap<K, V, S>);

/// The key-value pairs a `DashMap` holds, as a map of byte sequences.
pub uninterp spec fn dash_contents(m: DashMap<Vec<u8>, Vec<u8>>) -> Map<Seq<u8>, Seq<u8>>;

/// A map with no entries.
pub open spec fn no_contents(m: DashMap<Vec<u8>, Vec<u8>>) -> bool {
    dash_contents(m) == Map::<Seq<u8>, Seq<u8>>::empty()
}

/// Relies on dashmap::DashMap::new: it creates a map with no entries.
#[verifier::external_body]
pub(crate) fn dm_new() -> (r: DashMap<Vec<u8>, Vec<u8>>)
    ensures
        no_contents(r),
{
    DashMap::new()
}

/// Relies on dashmap::DashMap::get: it returns a reference to the value the
/// map holds under `key`, or `None` when the map holds no such key.
#[verifier::external_body]
pub(crate) fn dm_get(m: &DashMap<Vec<u8>, Vec<u8>>, key: &[u8]) -> (r: Option<Vec<u8>>)
    ensures
        match r {
            Some(v) => dash_contents(*m).contains_key(key@) && v@ == dash_contents(*m)[key@],
            None => !dash_contents(*m).contains_key(key@),
        },
{
    match m.get(key) {
        Some(entry) => Some(entry.value().clone()),
        None => None,
    }
}

/// Relies on dashmap::DashMap::insert: it maps `key` to `value`, replacing
/// any value the map held under `key` before.
#[verifier::external_body]
pub(crate) fn dm_insert(m: &mut DashMap<Vec<u8>, Vec<u8>>, key: Vec<u8>, value: Vec<u8>)
    ensures
        dash_contents(*final(m)) == dash_contents(*old(m)).insert(key@, value@),
{
    m.insert(key, value);
}

/// Relies on dashmap::DashMap::remove: it removes the entry under `key`, if
/// the map holds one.
#[verifier::external_body]
pub(crate) fn dm_remove(m: &mut DashMap<Vec<u8>, Vec<u8>>, key: &[u8])
    ensures
        dash_contents(*final(m)) == dash_contents(*old(m)).remove(key@),
{
    m.remove(key);
}

/// Relies on dashmap::DashMap::iter: with no writer alongside, it visits
/// every entry of the map exactly once. In what order the shards hand the
/// entries out is not stated: only that the pairs returned are exactly the
/// map's contents.
#[verifier::external_body]
pub(crate) fn dm_pairs(m: &DashMap<Vec<u8>, Vec<u8>>) -> (r: Vec<(Vec<u8>, Vec<u8>)>)
    ensures
        forall|i: int|
            0 <= i < r@.len() ==> dash_contents(*m).contains_key((#[trigger] r@[i]).0@)
                && r@[i].1@ == dash_contents(*m)[r@[i].0@],
        forall|k: Seq<u8>| #[trigger]
            dash_contents(*m).contains_key(k) ==> exists|i: int|
                0 <= i < r@.len() && (#[trigger] r@[i]).0@ == k,
        forall|i: int, j: int| 0 <= i < j < r@.len() ==> (#[trigger] r@[i]).0@ != (#[trigger] r@[j]).0@,
{
    let mut v = Vec::new();
    for entry in m.iter() {
        v.push((entry.key().clone(), entry.value().clone()));
    }
    v
}

} // verus!
