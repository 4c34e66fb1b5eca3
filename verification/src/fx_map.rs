//! Hash maps keyed by `u32` with the Fx hasher.
//!
//! `fxhash::FxHashMap` is `std`'s `HashMap` over `fxhash::FxHasher`. The
//! contents of a map are its view, a `Map<u32, V>`. What `vstd` states of
//! `HashMap` it states for hashers that it knows to hash equal keys alike.
//! `FxHasher` does (it starts from a fixed state and folds the key's bytes
//! in, with no seed from outside), but Verus cannot be told so short of
//! believing it. The functions below are therefore believed, not proved:
//! each makes one call on the map and states of it what `std` documents.
//! They are the only such code in this library.

use fxhash::FxHashMap;
use vstd::prelude::*;

verus! {

/// `fxhash::FxHasher`, the hasher state; opaque.
#[verifier::external_type_specification]
#[verifier::external_body]
pub struct ExFxHasher(fxhash::FxHasher);

/// `std::hash::BuildHasherDefault`, which makes a hasher by `Default`; opaque.
#[verifier::external_type_specification]
#[verifier::external_body]
#[verifier::reject_recursive_types(H)]
pub struct ExBuildHasherDefault<H>(core::hash::BuildHasherDefault<H>);

/// `FxHashMap::default`: a map that holds nothing.
#[verifier::external_body]
pub(crate) fn fx_new<V>() -> (m: FxHashMap<u32, V>)
    ensures
        forall|k: u32| !m@.contains_key(k),
{
    FxHashMap::default()
}

/// `HashMap::insert` on an `FxHashMap`: afterwards the key maps to the value
/// and every other key is as before; the value that the key had is returned.
#[verifier::external_body]
pub(crate) fn fx_insert<V>(m: &mut FxHashMap<u32, V>, key: u32, value: V) -> (prev: Option<V>)
    ensures
        final(m)@ == old(m)@.insert(key, value),
        prev == (if old(m)@.contains_key(key) {
            Some(old(m)@[key])
        } else {
            None
        }),
{
    m.insert(key, value)
}

/// `HashMap::remove` on an `FxHashMap`: afterwards the key is absent and
/// every other key is as before; the value that the key had is returned.
#[verifier::external_body]
pub(crate) fn fx_remove<V>(m: &mut FxHashMap<u32, V>, key: u32) -> (prev: Option<V>)
    ensures
        final(m)@ == old(m)@.remove(key),
        prev == (if old(m)@.contains_key(key) {
            Some(old(m)@[key])
        } else {
            None
        }),
{
    m.remove(&key)
}

/// `HashMap::get` on an `FxHashMap`: the value of the key, if the map has it.
#[verifier::external_body]
pub(crate) fn fx_get<'a, V>(m: &'a FxHashMap<u32, V>, key: u32) -> (found: Option<&'a V>)
    ensures
        found == (if m@.contains_key(key) {
            Some(&m@[key])
        } else {
            None
        }),
{
    m.get(&key)
}

/// `HashMap::keys` on an `FxHashMap`, collected: every key of the map once,
/// in the order in which the map is walked, of which nothing is said.
#[verifier::external_body]
pub(crate) fn fx_keys<V>(m: &FxHashMap<u32, V>) -> (keys: Vec<u32>)
    ensures
        keys@.no_duplicates(),
        forall|k: u32| keys@.contains(k) <==> m@.contains_key(k),
{
    m.keys().copied().collect()
}

} // verus!
