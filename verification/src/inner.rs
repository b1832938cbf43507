//! The native-resource map: the one place where native handles live, and
//! the one place where the record of the engine's calls is written.
//!
//! The record grows only here, and only by what happened: each function that
//! writes an entry either takes what a leaf returned and writes what that
//! value says, or makes the call to the leaf or to the projection itself.
//! What is done to the store by hand, past the engine, is recorded as such,
//! so that no pass can store or change a handle without a trace.

use crate::custom::{CreateInnerInfo, CustomElement, Mapper};
use crate::fxmap::{fx_get, fx_get_mut, fx_insert, fx_new, fx_remove};
use crate::journal::Call;
use crate::place::Parent;
use crate::resource::ResourceRegistry;
use rustc_hash::FxHashMap;
use vstd::prelude::*;

verus! {

/// A native handle together with the tag of the element type that made it.
pub struct Slot<I> {
    pub type_tag: u64,
    pub inner: I,
}

/// The store of native handles, one per key. A handle is reached only by one
/// who names the type that made it.
pub struct ElementInnerMap<I> {
    slots: FxHashMap<u64, Slot<I>>,
    history: Ghost<Seq<Call>>,
}

impl<I> View for ElementInnerMap<I> {
    type V = Map<u64, Slot<I>>;

    closed spec fn view(&self) -> Map<u64, Slot<I>> {
        self.slots@
    }
}

/// Whether a leaf of the type `type_tag` was handed its shared resource as
/// `handed` and left it as `left`, given the registry before the call and
/// after it: it is handed the value the registry held for the type, or the
/// default value where it held none, and what it leaves is what the registry
/// holds afterwards. No other entry changes.
pub open spec fn hands_shared<R: Default>(
    before: ResourceRegistry<R>,
    after: ResourceRegistry<R>,
    type_tag: u64,
    handed: R,
    left: R,
) -> bool {
    &&& before@.contains_key(type_tag) ==> handed == before@[type_tag]
    &&& !before@.contains_key(type_tag) ==> call_ensures(R::default, (), handed)
    &&& after@ == before@.insert(type_tag, left)
}

impl<I> ElementInnerMap<I> {
    /// The record of what the engine has done to the native resources so
    /// far, oldest first.
    pub closed spec fn history(&self) -> Seq<Call> {
        self.history@
    }

    /// Which keys are live, each with the tag of the type that made its handle.
    pub open spec fn tags(&self) -> Map<u64, u64> {
        Map::new(|k: u64| self@.contains_key(k), |k: u64| self@[k].type_tag)
    }

    /// Whether `key` holds a handle that an element of type `type_tag` made.
    pub open spec fn holds(&self, key: u64, type_tag: u64) -> bool {
        self@.contains_key(key) && self@[key].type_tag == type_tag
    }

    /// A store that holds nothing and has seen nothing.
    pub fn new() -> (map: Self)
        ensures
            map@.dom() == Set::<u64>::empty(),
            map.history() == Seq::<Call>::empty(),
    {
        ElementInnerMap { slots: fx_new(), history: Ghost(Seq::empty()) }
    }

    /// Notes in the record that `call` was made.
    fn record(&mut self, Ghost(call): Ghost<Call>)
        ensures
            final(self)@ == old(self)@,
            final(self).history() == old(self).history().push(call),
    {
        self.history = Ghost(self.history@.push(call));
    }

    /// Takes what a leaf returned when it was asked to make the resource of
    /// `key`, to go under the scene node of `under`. A resource that was made
    /// is stored under the key; where none was made the store stays as it
    /// is. Either way the attempt is recorded with its outcome.
    fn store_made<E: CustomElement<Inner = I>>(
        &mut self,
        key: u64,
        type_tag: u64,
        made: Result<I, E::Error>,
        Ghost(under): Ghost<Option<u64>>,
    ) -> (created: bool)
        ensures
            created == (made is Ok),
            made matches Ok(inner) ==> final(self)@ == old(self)@.insert(
                key,
                (Slot { type_tag, inner }),
            ),
            made is Err ==> final(self)@ == old(self)@,
            final(self).history() == old(self).history().push(
                Call::Create { key, type_tag, parent: under, created },
            ),
    {
        match made {
            Ok(inner) => {
                let _ = fx_insert(&mut self.slots, key, Slot { type_tag, inner });
                self.record(Ghost(Call::Create { key, type_tag, parent: under, created: true }));
                true
            },
            Err(_) => {
                self.record(Ghost(Call::Create { key, type_tag, parent: under, created: false }));
                false
            },
        }
    }

    /// Asks the leaf `custom` to make the resource of `key` at the place
    /// `parent`: the leaf is handed the scene node of the place, the path of
    /// the element and the shared resource of its type, which is made first
    /// if the type has none. What the leaf returned decides: a resource that
    /// was made is stored under the key, and where none was made the store
    /// stays as it is. The attempt is recorded with its outcome and with the
    /// resource that the place belongs to.
    pub(crate) fn create_noted<E: CustomElement<Inner = I>>(
        &mut self,
        custom: &E,
        context: &E::Context,
        parent: &Parent<'_, E::Space>,
        element_path: &str,
        key: u64,
        type_tag: u64,
        resources: &mut ResourceRegistry<E::Resource>,
    ) -> (created: bool)
        ensures
            final(self).history() == old(self).history().push(
                Call::Create { key, type_tag, parent: parent.under(), created },
            ),
            exists|shared: &mut E::Resource, made: Result<I, E::Error>|
                hands_shared(
                    *old(resources),
                    *final(resources),
                    type_tag,
                    mut_ref_current(shared),
                    mut_ref_future(shared),
                ) && call_ensures(
                    E::create_inner,
                    (
                        custom,
                        context,
                        (CreateInnerInfo { parent_space: &parent.space(), element_path }),
                        shared,
                    ),
                    made,
                ) && created == (made is Ok) && (made matches Ok(inner) ==> final(self)@ == old(
                    self,
                )@.insert(key, (Slot { type_tag, inner }))),
            created ==> final(self).holds(key, type_tag) && final(self)@ == old(self)@.insert(
                key,
                final(self)@[key],
            ),
            !created ==> final(self)@ == old(self)@,
            final(resources)@.contains_key(type_tag),
            final(resources)@ == old(resources)@.insert(type_tag, final(resources)@[type_tag]),
    {
        let resource = resources.get(type_tag);
        let made = custom.create_inner(
            context,
            CreateInnerInfo { parent_space: parent.space_ref(), element_path },
            resource,
        );
        let created = self.store_made::<E>(key, type_tag, made, parent.label());
        proof {
            assert(resources@ =~= old(resources)@.insert(type_tag, resources@[type_tag]));
            if created {
                assert(self@ =~= old(self)@.insert(key, self@[key]));
            }
        }
        created
    }

    /// Asks the leaf `new_custom` to bring the resource of `key` up to date,
    /// if the key holds one of the type `type_tag`: the leaf is handed the
    /// parameters `old_custom` of the previous tick, the handle and the
    /// shared resource of its type, and the update is recorded. Only that
    /// handle and that shared resource can change. Where the key holds no
    /// such resource, nothing is asked, recorded or changed.
    pub(crate) fn update_live<E: CustomElement<Inner = I>>(
        &mut self,
        key: u64,
        type_tag: u64,
        new_custom: &E,
        old_custom: &E,
        resources: &mut ResourceRegistry<E::Resource>,
    ) -> (called: bool)
        ensures
            called == old(self).holds(key, type_tag),
            called ==> exists|handle: &mut I, shared: &mut E::Resource|
                mut_ref_current(handle) == old(self)@[key].inner && mut_ref_future(handle)
                    == final(self)@[key].inner && hands_shared(
                    *old(resources),
                    *final(resources),
                    type_tag,
                    mut_ref_current(shared),
                    mut_ref_future(shared),
                ) && call_ensures(E::diff, (new_custom, old_custom, handle, shared), ()),
            called ==> final(self).history() == old(self).history().push(
                Call::Update { key, type_tag },
            ),
            called ==> final(self).holds(key, type_tag) && final(self)@ == old(self)@.insert(
                key,
                final(self)@[key],
            ),
            called ==> final(resources)@.contains_key(type_tag) && final(resources)@ == old(
                resources,
            )@.insert(type_tag, final(resources)@[type_tag]),
            !called ==> final(self).history() == old(self).history(),
            !called ==> final(self)@ == old(self)@,
            !called ==> final(resources)@ == old(resources)@,
    {
        let mut called = false;
        match fx_get_mut(&mut self.slots, key) {
            Some(slot) => {
                if slot.type_tag == type_tag {
                    let resource = resources.get(type_tag);
                    new_custom.diff(old_custom, &mut slot.inner, resource);
                    called = true;
                }
            },
            None => {},
        }
        if called {
            self.record(Ghost(Call::Update { key, type_tag }));
            assert(self@ =~= old(self)@.insert(key, self@[key]));
            assert(resources@ =~= old(resources)@.insert(type_tag, resources@[type_tag]));
        }
        called
    }

    /// Gives the resource of `key` its per-tick callback, if the key holds
    /// one of the type `type_tag`, and records the callback. Only that handle
    /// can change. Where the key holds no such resource, nothing is called,
    /// recorded or changed.
    pub(crate) fn frame_live<E: CustomElement<Inner = I>>(
        &mut self,
        key: u64,
        type_tag: u64,
        custom: &E,
        context: &E::Context,
        info: &E::FrameInfo,
        state: &mut E::State,
    ) -> (called: bool)
        ensures
            called == old(self).holds(key, type_tag),
            called ==> exists|handle: &mut I, handed: &mut E::State|
                mut_ref_current(handle) == old(self)@[key].inner && mut_ref_future(handle)
                    == final(self)@[key].inner && mut_ref_current(handed) == *old(state)
                    && mut_ref_future(handed) == *final(state) && call_ensures(
                    E::frame,
                    (custom, context, info, handed, handle),
                    (),
                ),
            !called ==> *final(state) == *old(state),
            called ==> final(self).history() == old(self).history().push(
                Call::Frame { key, type_tag },
            ),
            called ==> final(self).holds(key, type_tag) && final(self)@ == old(self)@.insert(
                key,
                final(self)@[key],
            ),
            !called ==> final(self).history() == old(self).history(),
            !called ==> final(self)@ == old(self)@,
    {
        let mut called = false;
        match fx_get_mut(&mut self.slots, key) {
            Some(slot) => {
                if slot.type_tag == type_tag {
                    custom.frame(context, info, state, &mut slot.inner);
                    called = true;
                }
            },
            None => {},
        }
        if called {
            self.record(Ghost(Call::Frame { key, type_tag }));
            assert(self@ =~= old(self)@.insert(key, self@[key]));
        }
        called
    }

    /// Applies the projection `mapper` to `state` and records whether it
    /// selected anything. What the projection returned is handed on as it
    /// came; the store stays as it is.
    pub(crate) fn project_noted<'a, S, F: Mapper<S>>(
        &mut self,
        mapper: &F,
        state: &'a mut S,
    ) -> (projected: Option<&'a mut S>)
        ensures
            exists|handed: &mut S|
                mut_ref_current(handed) == *old(state) && call_ensures(
                    F::project,
                    (mapper, handed),
                    projected,
                ),
            final(self)@ == old(self)@,
            final(self).history() == old(self).history().push(
                Call::Project { present: projected is Some },
            ),
    {
        let projected = mapper.project(state);
        let ghost present = projected is Some;
        self.record(Ghost(Call::Project { present }));
        projected
    }

    /// Stores `inner` as the handle of `key`, made by an element of type
    /// `type_tag`. A handle that the key held before is dropped. The record
    /// notes that the handle was stored by hand.
    pub fn insert(&mut self, key: u64, type_tag: u64, inner: I)
        ensures
            final(self)@ == old(self)@.insert(key, (Slot { type_tag, inner })),
            final(self).history() == old(self).history().push(Call::Store { key, type_tag }),
    {
        let _ = fx_insert(&mut self.slots, key, Slot { type_tag, inner });
        self.record(Ghost(Call::Store { key, type_tag }));
    }

    /// The handle of `key`, if the key holds one that an element of type
    /// `type_tag` made.
    pub fn get(&self, key: u64, type_tag: u64) -> (found: Option<&I>)
        ensures
            found == (if self.holds(key, type_tag) {
                Some(&self@[key].inner)
            } else {
                None
            }),
    {
        match fx_get(&self.slots, key) {
            Some(slot) => {
                if slot.type_tag == type_tag {
                    Some(&slot.inner)
                } else {
                    None
                }
            },
            None => None,
        }
    }

    /// The handle of `key` for changing, if the key holds one that an element
    /// of type `type_tag` made. Only the handle can change: the key keeps its
    /// type, and no other key is touched. The record notes that the handle
    /// was lent out.
    pub fn get_mut(&mut self, key: u64, type_tag: u64) -> (found: Option<&mut I>)
        ensures
            match found {
                Some(inner) => old(self).holds(key, type_tag) && *inner == old(self)@[key].inner
                    && final(self)@ == old(self)@.insert(
                    key,
                    (Slot { type_tag, inner: *final(inner) }),
                ) && final(self).history() == old(self).history().push(Call::Touch { key }),
                None => !old(self).holds(key, type_tag) && final(self)@ == old(self)@
                    && final(self).history() == old(self).history(),
            },
    {
        let held = match fx_get(&self.slots, key) {
            Some(slot) => slot.type_tag == type_tag,
            None => false,
        };
        if held {
            self.record(Ghost(Call::Touch { key }));
        }
        match fx_get_mut(&mut self.slots, key) {
            Some(slot) => {
                if slot.type_tag == type_tag {
                    Some(&mut slot.inner)
                } else {
                    None
                }
            },
            None => None,
        }
    }

    /// Drops the handle of `key`, if it holds one, and records the removal.
    /// No other key is touched. To a leaf this is the one signal that its
    /// element is gone.
    pub fn remove(&mut self, key: u64)
        ensures
            final(self)@ == old(self)@.remove(key),
            final(self).history() == old(self).history().push(Call::Destroy { key }),
    {
        let _ = fx_remove(&mut self.slots, key);
        self.record(Ghost(Call::Destroy { key }));
    }
}

impl<I> Default for ElementInnerMap<I> {
    /// A store that holds nothing and has seen nothing.
    fn default() -> (map: Self)
        ensures
            map@.dom() == Set::<u64>::empty(),
            map.history() == Seq::<Call>::empty(),
    {
        ElementInnerMap::new()
    }
}

} // verus!
