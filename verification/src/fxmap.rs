//! The hash maps that back the two stores: `rustc_hash::FxHashMap` keyed by
//! `u64`. Verus specifies std's `HashMap` only for hashers it knows to be
//! well behaved, and it knows nothing of `FxBuildHasher`; so each method the
//! stores call is reached through a function here whose contract is taken on
//! trust. A map is spoken of by its view, the mathematical map it holds.

use rustc_hash::FxHashMap;
use vstd::prelude::*;

verus! {

/// The hasher builder of `rustc_hash`, a unit struct that Verus only needs to
/// know by name.
#[verifier::external_type_specification]
#[verifier::external_body]
pub struct ExFxBuildHasher(rustc_hash::FxBuildHasher);

/// `FxHashMap::default`: a map that holds nothing.
#[verifier::external_body]
pub(crate) fn fx_new<V>() -> (created: FxHashMap<u64, V>)
    ensures
        created@.dom() == Set::<u64>::empty(),
{
    FxHashMap::default()
}

/// `HashMap::contains_key`: whether the map holds an entry for the key.
#[verifier::external_body]
pub(crate) fn fx_contains_key<V>(m: &FxHashMap<u64, V>, key: u64) -> (held: bool)
    ensures
        held == m@.contains_key(key),
{
    m.contains_key(&key)
}

/// `HashMap::insert`: afterwards the key maps to the value and every other
/// entry is as before; the value that the key mapped to before, if any, is
/// handed back.
#[verifier::external_body]
pub(crate) fn fx_insert<V>(m: &mut FxHashMap<u64, V>, key: u64, value: V) -> (previous: Option<V>)
    ensures
        final(m)@ == old(m)@.insert(key, value),
        previous == (if old(m)@.contains_key(key) {
            Some(old(m)@[key])
        } else {
            None
        }),
{
    m.insert(key, value)
}

/// `HashMap::get`: a reference to the value of the key, if the map holds one.
#[verifier::external_body]
pub(crate) fn fx_get<V>(m: &FxHashMap<u64, V>, key: u64) -> (found: Option<&V>)
    ensures
        found == (if m@.contains_key(key) {
            Some(&m@[key])
        } else {
            None
        }),
{
    m.get(&key)
}

/// `HashMap::get_mut`: a mutable reference to the value of the key, if the map
/// holds one. Whatever is written through the reference becomes the key's
/// value; nothing else in the map changes.
#[verifier::external_body]
pub(crate) fn fx_get_mut<V>(m: &mut FxHashMap<u64, V>, key: u64) -> (found: Option<&mut V>)
    ensures
        match found {
            Some(value) => old(m)@.contains_key(key) && *value == old(m)@[key] && final(m)@
                == old(m)@.insert(key, *final(value)),
            None => !old(m)@.contains_key(key) && final(m)@ == old(m)@,
        },
{
    m.get_mut(&key)
}

/// `HashMap::remove`: afterwards the map holds no entry for the key and every
/// other entry is as before; the value that was removed, if any, is handed
/// back.
#[verifier::external_body]
pub(crate) fn fx_remove<V>(m: &mut FxHashMap<u64, V>, key: u64) -> (removed: Option<V>)
    ensures
        final(m)@ == old(m)@.remove(key),
        removed == (if old(m)@.contains_key(key) {
            Some(old(m)@[key])
        } else {
            None
        }),
{
    m.remove(&key)
}

} // verus!
