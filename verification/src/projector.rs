//! The engine as its driver sees it: a projector is made from the first
//! description of a scene and then, once per tick, shown the next.

use crate::custom::{CustomElement, Mapper, ValidState};
use crate::differ::{reading, reading_map};
use crate::element::{keyed, lemma_same_declaration_slot, same_declaration, Element};
use crate::inner::ElementInnerMap;
use crate::journal::{create_run, diff_run, extends, frame_run, Cursor};
use crate::laws::{
    create_targets, created, distinct_keys, every_lens_present, framed, keys_among, keys_of,
    lemma_diff_follows, lemma_targets_are_keys, lenses_project,
};
use crate::resource::ResourceRegistry;
use crate::tree::{root_key, Trees};
use vstd::prelude::*;

verus! {

/// An application state that can describe the scene it wants.
pub trait Reify<E, F>: ValidState {
    /// The scene as the state wants it now.
    fn reify(&self) -> Element<E, F>;

    /// The scene as the state wants it now, for use inside the description
    /// of a state that this state is a part of: `mapper` selects this state
    /// from that one. What comes back is a description that `reify` gave for
    /// this state, seen through `mapper`.
    fn reify_substate(&self, mapper: F) -> (e: Element<E, F>)
        default_ensures
            e matches Element::Mapped(m) && m.mapper == Some(mapper) && call_ensures(
                Self::reify,
                (self,),
                *m.wrapped,
            ),
    {
        self.reify().map(mapper)
    }
}

/// A scene that is kept in step with its description.
pub struct Projector<E: CustomElement, F> {
    /// The scene node under which the scene stands.
    pub root: E::Space,
    /// The native resources of the scene.
    pub inner_map: ElementInnerMap<E::Inner>,
    /// The resources that elements of one type share.
    pub resource_registry: ResourceRegistry<E::Resource>,
    /// The description that the scene follows, and the one before it.
    pub trees: Trees<E, F>,
}

impl<E: CustomElement, F: Mapper<E::State>> Projector<E, F> {
    /// Whether the native resources follow the description: every key that
    /// holds a native resource is the key of a declaration of the current
    /// description. It holds of a scene that was just built, no per-tick
    /// pass breaks it, and an update keeps it where the description before
    /// had no two elements of one list under one key and every projection of
    /// the new one selected something. Behind a projection that selects
    /// nothing the native resources are left as they were, whatever is
    /// declared now, so there it can break.
    pub open spec fn follows(&self) -> bool {
        forall|k: u64| #[trigger]
            self.inner_map@.contains_key(k) ==> keys_of(self.trees.current).contains(k)
    }

    /// Where the record of this projector ends, with the state of its
    /// stores.
    pub open spec fn reading(&self) -> Cursor {
        reading(self.inner_map, self.resource_registry)
    }

    /// Builds the scene that `blueprint` describes under `parent_spatial`:
    /// starting from empty stores, the native resources of every element are
    /// created, each element before what is below it.
    pub fn create_with(
        blueprint: Element<E, F>,
        context: &E::Context,
        parent_spatial: E::Space,
        root_element_path: String,
    ) -> (projector: Self)
        ensures
            projector.root == parent_spatial,
            projector.trees.root_element_path == root_element_path,
            projector.trees.old is None,
            same_declaration(blueprint, projector.trees.current),
            keyed(projector.trees.current, root_key(blueprint)),
            create_run(
                projector.trees.current,
                None,
                projector.inner_map.history(),
                Cursor {
                    ok: true,
                    at: 0,
                    live: Map::empty(),
                    shared: Set::empty(),
                },
            ) == projector.reading(),
            created(
                projector.inner_map.history(),
                Cursor { ok: true, at: 0, live: Map::empty(), shared: Set::empty() },
                projector.reading(),
                create_targets(projector.trees.current),
            ),
            projector.follows(),
    {
        let mut inner_map = ElementInnerMap::new();
        let mut resource_registry = ResourceRegistry::new();
        proof {
            assert(inner_map.tags() =~= Map::<u64, u64>::empty());
        }
        let trees = Trees::new(
            blueprint,
            context,
            &parent_spatial,
            &mut inner_map,
            &mut resource_registry,
            root_element_path,
        );
        proof {
            lemma_targets_are_keys(trees.current);
            assert forall|k: u64| #[trigger] inner_map@.contains_key(k) implies keys_of(
                trees.current,
            ).contains(k) by {
                assert(inner_map.tags().contains_key(k));
                assert(keys_among(create_targets(trees.current)).contains(k));
            }
        }
        Projector { root: parent_spatial, inner_map, resource_registry, trees }
    }

    /// Brings the scene from the description it follows to `blueprint`:
    /// resources of nodes that are in both are updated, those of nodes that
    /// are gone are destroyed, those of nodes that are new are created.
    pub fn update_with(
        &mut self,
        context: &E::Context,
        state: &mut E::State,
        blueprint: Element<E, F>,
    )
        ensures
            final(self).root == old(self).root,
            final(self).trees.root_element_path == old(self).trees.root_element_path,
            final(self).trees.old == Some(old(self).trees.current),
            same_declaration(blueprint, final(self).trees.current),
            keyed(final(self).trees.current, root_key(blueprint)),
            extends(old(self).inner_map.history(), final(self).inner_map.history()),
            diff_run(
                final(self).trees.current,
                old(self).trees.current,
                None,
                final(self).inner_map.history(),
                old(self).reading(),
            ) == final(self).reading(),
            old(self).follows() && distinct_keys(old(self).trees.current) && lenses_project(
                final(self).trees.current,
            ) && every_lens_present(
                final(self).inner_map.history(),
                old(self).inner_map.history().len() as int,
            ) ==> final(self).follows(),
    {
        self.trees.diff_and_apply(
            blueprint,
            context,
            state,
            &self.root,
            &mut self.inner_map,
            &mut self.resource_registry,
        );
        proof {
            let t = self.inner_map.history();
            let c = old(self).reading();
            if old(self).follows() && distinct_keys(old(self).trees.current) && lenses_project(
                self.trees.current,
            ) && every_lens_present(t, c.at) {
                assert forall|k: u64| #[trigger] c.live.contains_key(k) implies keys_of(
                    old(self).trees.current,
                ).contains(k) || Set::<u64>::empty().contains(k) by {
                    assert(old(self).inner_map@.contains_key(k));
                }
                lemma_diff_follows(
                    self.trees.current,
                    old(self).trees.current,
                    None,
                    t,
                    c,
                    Set::empty(),
                );
                assert forall|k: u64| #[trigger] self.inner_map@.contains_key(k) implies keys_of(
                    self.trees.current,
                ).contains(k) by {
                    assert(self.inner_map.tags().contains_key(k));
                }
            }
        }
    }

    /// Gives every live native resource of the scene its per-tick callback.
    /// The description, the live keys and the shared resources stay as they
    /// are.
    pub fn frame(&mut self, context: &E::Context, info: &E::FrameInfo, state: &mut E::State)
        ensures
            final(self).root == old(self).root,
            final(self).trees == old(self).trees,
            final(self).resource_registry == old(self).resource_registry,
            extends(old(self).inner_map.history(), final(self).inner_map.history()),
            frame_run(
                old(self).trees.current,
                final(self).inner_map.history(),
                reading_map(old(self).inner_map),
            ) == reading_map(final(self).inner_map),
            framed(
                final(self).inner_map.history(),
                reading_map(old(self).inner_map),
                reading_map(final(self).inner_map),
            ),
            old(self).follows() ==> final(self).follows(),
    {
        self.trees.frame(context, info, state, &mut self.inner_map);
        proof {
            if old(self).follows() {
                assert forall|k: u64| #[trigger] self.inner_map@.contains_key(k) implies keys_of(
                    self.trees.current,
                ).contains(k) by {
                    assert(self.inner_map.tags().contains_key(k));
                    assert(old(self).inner_map.tags().contains_key(k));
                    assert(old(self).inner_map@.contains_key(k));
                }
            }
        }
    }

    /// Builds the scene that `state` describes now.
    pub fn create(
        state: &E::State,
        context: &E::Context,
        parent_spatial: E::Space,
        root_element_path: String,
    ) -> (projector: Self) where E::State: Reify<E, F>
        ensures
            projector.root == parent_spatial,
            projector.trees.root_element_path == root_element_path,
            projector.trees.old is None,
            exists|blueprint: Element<E, F>|
                call_ensures(<E::State as Reify<E, F>>::reify, (state,), blueprint)
                    && same_declaration(blueprint, projector.trees.current),
            projector.follows(),
            keyed(projector.trees.current, root_key(projector.trees.current)),
            created(
                projector.inner_map.history(),
                Cursor { ok: true, at: 0, live: Map::empty(), shared: Set::empty() },
                projector.reading(),
                create_targets(projector.trees.current),
            ),
            create_run(
                projector.trees.current,
                None,
                projector.inner_map.history(),
                Cursor {
                    ok: true,
                    at: 0,
                    live: Map::empty(),
                    shared: Set::empty(),
                },
            ) == projector.reading(),
    {
        let blueprint = state.reify();
        let ghost declared = blueprint;
        let projector = Projector::create_with(
            blueprint,
            context,
            parent_spatial,
            root_element_path,
        );
        proof {
            lemma_same_declaration_slot(declared, projector.trees.current);
        }
        projector
    }

    /// Brings the scene to what `state` describes now.
    pub fn update(&mut self, context: &E::Context, state: &mut E::State) where
        E::State: Reify<E, F>,

        ensures
            final(self).root == old(self).root,
            final(self).trees.root_element_path == old(self).trees.root_element_path,
            final(self).trees.old == Some(old(self).trees.current),
            exists|blueprint: Element<E, F>|
                call_ensures(<E::State as Reify<E, F>>::reify, (&*old(state),), blueprint)
                    && same_declaration(blueprint, final(self).trees.current),
            keyed(final(self).trees.current, root_key(final(self).trees.current)),
            extends(old(self).inner_map.history(), final(self).inner_map.history()),
            diff_run(
                final(self).trees.current,
                old(self).trees.current,
                None,
                final(self).inner_map.history(),
                old(self).reading(),
            ) == final(self).reading(),
            old(self).follows() && distinct_keys(old(self).trees.current) && lenses_project(
                final(self).trees.current,
            ) && every_lens_present(
                final(self).inner_map.history(),
                old(self).inner_map.history().len() as int,
            ) ==> final(self).follows(),
    {
        let blueprint = state.reify();
        let ghost declared = blueprint;
        self.update_with(context, state, blueprint);
        proof {
            lemma_same_declaration_slot(declared, self.trees.current);
        }
    }
}

} // verus!
