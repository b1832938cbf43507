//! Derivation of the stable 64-bit keys by which elements are told apart.
//!
//! A key is the digest of three 64-bit words: the key of the enclosing scope,
//! the slot of the element in that scope (its position, or the identity it was
//! given), and the tag of its declared type. Each word is fed to the hasher as
//! its eight little-endian bytes, so a key does not depend on the machine.

use std::collections::hash_map::DefaultHasher;
use std::hash::{Hash, Hasher};
use vstd::bytes::{spec_u64_to_le_bytes, u64_to_le_bytes};
use vstd::prelude::*;
use vstd::std_specs::hash::DefaultHasherAdditionalSpecFns;

verus! {

/// The words that are hashed for a key, in the order in which they are fed.
pub open spec fn key_words(parent_key: u64, slot: u64, type_tag: u64) -> Seq<Seq<u8>> {
    seq![
        spec_u64_to_le_bytes(parent_key),
        spec_u64_to_le_bytes(slot),
        spec_u64_to_le_bytes(type_tag),
    ]
}

/// The key of the element of type `type_tag` that fills `slot` of the scope
/// `parent_key`.
pub open spec fn key_digest(parent_key: u64, slot: u64, type_tag: u64) -> u64 {
    DefaultHasher::spec_finish(key_words(parent_key, slot, type_tag))
}

/// The key of an element that carries an explicit identity.
pub open spec fn keyed_inner_key(parent_key: u64, stable_id: u64, type_tag: u64) -> u64 {
    key_digest(parent_key, stable_id, type_tag)
}

/// The key of an element that is identified by its position.
pub open spec fn positional_inner_key(parent_key: u64, position: usize, type_tag: u64) -> u64 {
    key_digest(parent_key, position as u64, type_tag)
}

fn digest(parent_key: u64, slot: u64, type_tag: u64) -> (key: u64)
    ensures
        key == key_digest(parent_key, slot, type_tag),
{
    let mut hasher = DefaultHasher::new();
    let parent_bytes = u64_to_le_bytes(parent_key);
    hasher.write(parent_bytes.as_slice());
    let slot_bytes = u64_to_le_bytes(slot);
    hasher.write(slot_bytes.as_slice());
    let tag_bytes = u64_to_le_bytes(type_tag);
    hasher.write(tag_bytes.as_slice());
    assert(hasher@ =~= key_words(parent_key, slot, type_tag));
    hasher.finish()
}

/// Derives the key of an element with an explicit identity: the digest of the
/// enclosing scope's key, the identity and the type tag. The position of the
/// element among its siblings plays no part.
pub fn generate_keyed_inner_key(parent_key: u64, stable_id: u64, type_tag: u64) -> (key: u64)
    ensures
        key == keyed_inner_key(parent_key, stable_id, type_tag),
{
    digest(parent_key, stable_id, type_tag)
}

/// Derives the key of an element without an explicit identity: the digest of
/// the enclosing scope's key, the element's position and the type tag.
pub fn generate_positional_inner_key(parent_key: u64, position: usize, type_tag: u64) -> (key:
    u64)
    ensures
        key == positional_inner_key(parent_key, position, type_tag),
{
    digest(parent_key, position as u64, type_tag)
}

/// `Hash::hash`: feeds `value` to the hasher. What a value feeds is for its
/// type to say, so nothing is claimed of the hasher afterwards.
#[verifier::external_body]
pub(crate) fn feed<H: Hash, S: Hasher>(value: &H, hasher: &mut S) {
    value.hash(hasher);
}

/// Turns an identity that the application chose, any value that can be
/// hashed, into the 64-bit identity that keys are derived from: the digest of
/// what the value feeds to a fresh hasher. Which writes a value makes is for
/// its type to say; whatever they are, the identity is the digest of them.
pub fn generate_stable_id<H: Hash>(h: &H) -> (id: u64)
    ensures
        exists|fed: Seq<Seq<u8>>| id == DefaultHasher::spec_finish(fed),
{
    let mut hasher = DefaultHasher::new();
    feed(h, &mut hasher);
    let id = hasher.finish();
    assert(id == DefaultHasher::spec_finish(hasher@));
    id
}

} // verus!
