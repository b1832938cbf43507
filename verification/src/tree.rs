//! The two descriptions that the engine holds at any time: the current one,
//! which the native resources follow, and the one before it, kept only to be
//! compared against.

use crate::custom::{CustomElement, Mapper};
use crate::differ::{reading, reading_map};
use crate::element::{
    apply_element_keys, generate_slot_key, keyed, lemma_same_declaration_slot, same_declaration,
    slot_key, Element,
};
use crate::inner::ElementInnerMap;
use crate::journal::{create_run, diff_run, extends, frame_run};
use crate::laws::{create_targets, created, framed};
use crate::resource::ResourceRegistry;
use vstd::prelude::*;

verus! {

/// The key of the scope in which the root of a description stands.
pub const ROOT_SCOPE: u64 = 0;

/// The key that the root `e` of a description is stamped with.
pub open spec fn root_key<E, F>(e: Element<E, F>) -> u64 {
    slot_key(ROOT_SCOPE, 0, e)
}

/// The current description and the previous one.
pub struct Trees<E, F> {
    /// The path under which the root stands.
    pub root_element_path: String,
    /// The description that the native resources follow.
    pub current: Element<E, F>,
    /// The description before it, if there was one.
    pub old: Option<Element<E, F>>,
}

/// Stamps the description `blueprint` with keys from the root down.
pub fn stamp<E, F>(blueprint: Element<E, F>) -> (stamped: Element<E, F>)
    ensures
        same_declaration(blueprint, stamped),
        keyed(stamped, root_key(stamped)),
        root_key(stamped) == root_key(blueprint),
{
    let mut stamped = blueprint;
    let key = generate_slot_key(ROOT_SCOPE, 0, &stamped);
    apply_element_keys(&mut stamped, key);
    proof {
        lemma_same_declaration_slot(blueprint, stamped);
    }
    stamped
}

impl<E: CustomElement, F: Mapper<E::State>> Trees<E, F> {
    /// Takes the first description: stamps it with keys and creates the
    /// native resources of every element in it, under `parent_space`.
    pub fn new(
        blueprint: Element<E, F>,
        context: &E::Context,
        parent_space: &E::Space,
        inner_map: &mut ElementInnerMap<E::Inner>,
        resource_registry: &mut ResourceRegistry<E::Resource>,
        root_element_path: String,
    ) -> (trees: Self)
        ensures
            trees.root_element_path == root_element_path,
            trees.old is None,
            same_declaration(blueprint, trees.current),
            keyed(trees.current, root_key(blueprint)),
            extends(old(inner_map).history(), final(inner_map).history()),
            create_run(
                trees.current,
                None,
                final(inner_map).history(),
                reading(*old(inner_map), *old(resource_registry)),
            ) == reading(*final(inner_map), *final(resource_registry)),
            created(
                final(inner_map).history(),
                reading(*old(inner_map), *old(resource_registry)),
                reading(*final(inner_map), *final(resource_registry)),
                create_targets(trees.current),
            ),
    {
        let current = stamp(blueprint);
        current.create_inner_recursive(
            context,
            parent_space,
            root_element_path.as_str(),
            inner_map,
            resource_registry,
        );
        Trees { root_element_path, current, old: None }
    }

    /// Gives every live native resource of the current description its
    /// per-tick callback.
    pub fn frame(
        &self,
        context: &E::Context,
        info: &E::FrameInfo,
        state: &mut E::State,
        inner_map: &mut ElementInnerMap<E::Inner>,
    )
        ensures
            extends(old(inner_map).history(), final(inner_map).history()),
            frame_run(self.current, final(inner_map).history(), reading_map(*old(inner_map)))
                == reading_map(*final(inner_map)),
            framed(
                final(inner_map).history(),
                reading_map(*old(inner_map)),
                reading_map(*final(inner_map)),
            ),
    {
        self.current.frame_recursive(context, info, state, inner_map);
    }

    /// Takes the description of a new tick: stamps it with keys, makes it
    /// the current one, and brings the native resources from what the
    /// description before it declared to what it declares. That description
    /// is kept as the previous one; the one before it is dropped.
    pub fn diff_and_apply(
        &mut self,
        new_blueprint: Element<E, F>,
        context: &E::Context,
        state: &mut E::State,
        parent_space: &E::Space,
        inner_map: &mut ElementInnerMap<E::Inner>,
        resource_registry: &mut ResourceRegistry<E::Resource>,
    )
        ensures
            final(self).root_element_path == old(self).root_element_path,
            final(self).old == Some(old(self).current),
            same_declaration(new_blueprint, final(self).current),
            keyed(final(self).current, root_key(new_blueprint)),
            extends(old(inner_map).history(), final(inner_map).history()),
            diff_run(
                final(self).current,
                old(self).current,
                None,
                final(inner_map).history(),
                reading(*old(inner_map), *old(resource_registry)),
            ) == reading(*final(inner_map), *final(resource_registry)),
    {
        let mut tree = stamp(new_blueprint);
        std::mem::swap(&mut self.current, &mut tree);
        self.old = Some(tree);
        match &self.old {
            Some(previous) => {
                self.current.diff_same_type(
                    previous,
                    context,
                    state,
                    parent_space,
                    self.root_element_path.as_str(),
                    inner_map,
                    resource_registry,
                );
            },
            None => {},
        }
    }
}

} // verus!
