//! The resource registry: one shared value per element type.

use crate::fxmap::{fx_contains_key, fx_get_mut, fx_insert, fx_new};
use rustc_hash::FxHashMap;
use vstd::prelude::*;

verus! {

/// The store of the values that all elements of one type share, by type tag.
/// An entry comes into being the first time its type asks for it, and stays.
pub struct ResourceRegistry<R> {
    entries: FxHashMap<u64, R>,
}

impl<R> View for ResourceRegistry<R> {
    type V = Map<u64, R>;

    closed spec fn view(&self) -> Map<u64, R> {
        self.entries@
    }
}

impl<R: Default> ResourceRegistry<R> {
    /// A registry without entries.
    pub fn new() -> (registry: Self)
        ensures
            registry@.dom() == Set::<u64>::empty(),
    {
        ResourceRegistry { entries: fx_new() }
    }

    /// Whether the type `type_tag` has its shared value yet.
    pub fn contains(&self, type_tag: u64) -> (held: bool)
        ensures
            held == self@.contains_key(type_tag),
    {
        fx_contains_key(&self.entries, type_tag)
    }

    /// The shared value of the type `type_tag`, for changing. If the type has
    /// none yet, it gets the default value first. No other entry is touched,
    /// and whatever is written through the reference is what the entry holds
    /// afterwards.
    pub fn get(&mut self, type_tag: u64) -> (resource: &mut R)
        ensures
            old(self)@.contains_key(type_tag) ==> *resource == old(self)@[type_tag],
            !old(self)@.contains_key(type_tag) ==> call_ensures(R::default, (), *resource),
            final(self)@ == old(self)@.insert(type_tag, *final(resource)),
    {
        if !fx_contains_key(&self.entries, type_tag) {
            let fresh = R::default();
            let _ = fx_insert(&mut self.entries, type_tag, fresh);
        }
        let found = fx_get_mut(&mut self.entries, type_tag);
        found.unwrap()
    }
}

impl<R: Default> Default for ResourceRegistry<R> {
    /// A registry without entries.
    fn default() -> (registry: Self)
        ensures
            registry@.dom() == Set::<u64>::empty(),
    {
        ResourceRegistry::new()
    }
}

} // verus!
