//! The hash collections of `rustc_hash` as this library uses them.
//!
//! `FxHashMap` and `FxHashSet` are std's `HashMap` and `HashSet` with the
//! hash builder `FxBuildHasher`. vstd states what the methods of the std
//! collections do only for hash builders it knows; `FxBuildHasher` is none of
//! them, so the contracts of the methods used here are stated in this file
//! and taken on trust. They are written over vstd's views of the
//! collections: a `Map` for a map, a `Set` for a set.

use rustc_hash::FxBuildHasher;
use rustc_hash::FxHashMap;
use rustc_hash::FxHashSet;
use vstd::prelude::*;

verus! {

/// `rustc_hash::FxBuildHasher`, the hash builder of `FxHashMap` and
/// `FxHashSet`. Nothing is said of what it holds.
#[verifier::external_type_specification]
#[verifier::external_body]
pub struct ExFxBuildHasher(FxBuildHasher);

/// `HashMap::insert` on an `FxHashMap` keyed by cell index: afterwards the
/// map holds `v` under `k` and is otherwise unchanged. The value that was
/// there before is dropped.
#[verifier::external_body]
pub(crate) fn map_insert<V>(m: &mut FxHashMap<u8, V>, k: u8, v: V)
    ensures
        final(m)@ == old(m)@.insert(k, v),
{
    m.insert(k, v);
}

/// `HashMap::get` on an `FxHashMap` keyed by cell index: the value under
/// `k`, or `None` where the map has no such key.
#[verifier::external_body]
pub(crate) fn map_get<'a, V>(m: &'a FxHashMap<u8, V>, k: u8) -> (r: Option<&'a V>)
    ensures
        r == (if m@.contains_key(k) {
            Some(&m@[k])
        } else {
            None
        }),
{
    m.get(&k)
}

/// `HashMap::remove` on an `FxHashMap` keyed by cell index: afterwards the
/// map has no key `k` and is otherwise unchanged.
#[verifier::external_body]
pub(crate) fn map_remove<V>(m: &mut FxHashMap<u8, V>, k: u8)
    ensures
        final(m)@ == old(m)@.remove(k),
{
    m.remove(&k);
}

/// `HashMap::keys` on an `FxHashMap`, the keys copied into a vector: every
/// key of the map once, in an order of which nothing is said.
#[verifier::external_body]
pub(crate) fn map_keys<V>(m: &FxHashMap<u8, V>) -> (keys: Vec<u8>)
    ensures
        keys@.no_duplicates(),
        keys@.to_set() == m@.dom(),
{
    m.keys().copied().collect()
}

/// `HashSet::insert` on an `FxHashSet`: afterwards the set holds `k` and
/// what it held before.
#[verifier::external_body]
pub(crate) fn set_insert(s: &mut FxHashSet<u8>, k: u8)
    ensures
        final(s)@ == old(s)@.insert(k),
{
    s.insert(k);
}

/// `HashSet::contains` on an `FxHashSet`: whether `k` is in the set.
#[verifier::external_body]
pub(crate) fn set_contains(s: &FxHashSet<u8>, k: u8) -> (r: bool)
    ensures
        r == s@.contains(k),
{
    s.contains(&k)
}

/// `HashSet::iter` on an `FxHashSet`, its items copied into a vector: every
/// item of the set once, in an order of which nothing is said.
#[verifier::external_body]
pub(crate) fn set_items(s: &FxHashSet<u8>) -> (v: Vec<u8>)
    ensures
        v@.no_duplicates(),
        v@.to_set() == s@,
{
    s.iter().copied().collect()
}

/// `==` on two `FxHashSet`s: true exactly when they hold the same items.
#[verifier::external_body]
pub(crate) fn set_eq(a: &FxHashSet<u8>, b: &FxHashSet<u8>) -> (r: bool)
    ensures
        r == (a@ == b@),
{
    a == b
}

} // verus!
