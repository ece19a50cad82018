//! The FNV-hashed map and set of the `fnv` crate, seen through their contents.
//!
//! `FnvHashMap` and `FnvHashSet` are the standard library's `HashMap` and
//! `HashSet` with `fnv::FnvBuildHasher`, whose hashers all start from the same
//! fixed state and hash a byte sequence deterministically. Keys that are equal
//! therefore hash equally, and the collections behave as a finite map and a
//! finite set of their keys; the items below state exactly that, operation by
//! operation.
use fnv::{FnvHashMap, FnvHashSet, FnvHasher};
use std::hash::BuildHasherDefault;
use vstd::prelude::*;

verus! {

/// The hasher of the `fnv` crate.
#[verifier::external_type_specification]
#[verifier::external_body]
pub struct ExFnvHasher(FnvHasher);

/// The standard library's builder of default-constructed hashers.
#[verifier::external_type_specification]
#[verifier::external_body]
#[verifier::reject_recursive_types(H)]
pub struct ExBuildHasherDefault<H>(BuildHasherDefault<H>);

/// An empty FNV-hashed map (`FnvHashMap::default`): its contents are the
/// empty map.
#[verifier::external_body]
pub fn fnv_map_new() -> (m: FnvHashMap<u32, u16>)
    ensures
        m@.dom() == Set::<u32>::empty(),
{
    FnvHashMap::default()
}

/// `HashMap::get` on an FNV-hashed map: the value stored under `k`, if any.
#[verifier::external_body]
pub fn fnv_map_get(m: &FnvHashMap<u32, u16>, k: u32) -> (v: Option<u16>)
    ensures
        v == (if m@.contains_key(k) { Some(m@[k]) } else { None::<u16> }),
{
    m.get(&k).cloned()
}

/// `HashMap::insert` on an FNV-hashed map: afterwards `k` maps to `v` and
/// every other key keeps its value.
#[verifier::external_body]
pub fn fnv_map_insert(m: &mut FnvHashMap<u32, u16>, k: u32, v: u16)
    ensures
        final(m)@ == old(m)@.insert(k, v),
{
    m.insert(k, v);
}

/// `HashMap::iter` on an FNV-hashed map, each entry copied out as a pair.
/// The pairs are exactly the entries of the map, each key once; the order is
/// the map's internal order, which is left open.
#[verifier::external_body]
pub fn fnv_map_entries(m: &FnvHashMap<u32, u16>) -> (entries: Vec<(u32, u16)>)
    ensures
        entries@.len() == m@.dom().len(),
        forall|i: int|
            0 <= i < entries@.len() ==> #[trigger] m@.contains_key(entries@[i].0) && m@[entries@[i].0]
                == entries@[i].1,
        forall|i: int, j: int|
            0 <= i < entries@.len() && 0 <= j < entries@.len() && i != j ==> #[trigger] entries@[i].0
                != #[trigger] entries@[j].0,
        forall|k: u32| #[trigger] m@.contains_key(k) ==> exists|i: int| 0 <= i < entries@.len() && #[trigger] entries@[i].0 == k,
{
    m.iter().map(|(k, v)| (*k, *v)).collect()
}

/// An empty FNV-hashed set (`FnvHashSet::default`).
#[verifier::external_body]
pub fn fnv_set_new() -> (s: FnvHashSet<u32>)
    ensures
        s@ == Set::<u32>::empty(),
{
    FnvHashSet::default()
}

/// `HashSet::insert` on an FNV-hashed set: afterwards the set holds `v`
/// besides what it held.
#[verifier::external_body]
pub fn fnv_set_insert(s: &mut FnvHashSet<u32>, v: u32)
    ensures
        final(s)@ == old(s)@.insert(v),
{
    s.insert(v);
}

} // verus!
