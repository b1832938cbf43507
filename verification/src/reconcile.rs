//! The comparison pass: the new description is held against the one of the
//! previous tick, and the native resources are updated, destroyed and
//! created so that they follow the new one.

use crate::custom::{CustomElement, Mapper};
use crate::differ::{reading, reading_map};
use crate::element::{same_key, Children, DynamicElement, Element, ElementWrapper, Mapped};
use crate::index::KeyIndex;
use crate::inner::{hands_shared, ElementInnerMap, Slot};
use crate::journal::{
    added_run, common_run, diff_children_run, diff_dynamic_run, diff_run, extends, removed_run,
    replace_children_run, replace_run, same_type, same_type_children, step_project, step_update,
    with_shared, wrapper_live, wrappers_match, Call,
};
use crate::path::join_element_path;
use crate::place::Parent;
use crate::resource::ResourceRegistry;
use crate::stability::{
    lemma_added_stable, lemma_common_stable, lemma_destroy_children_shared,
    lemma_destroy_children_stable, lemma_destroy_shared, lemma_destroy_stable,
    lemma_diff_children_stable, lemma_extends_transitive, lemma_first_with_key,
    lemma_removed_stable,
};
use vstd::prelude::*;

verus! {

/// What holds when the leaf of the declaration `w` was asked to bring its
/// native resource up to date.
///
/// The leaf was handed the handle that its key held, as `handle`, and left
/// it as `handle_left`; and the shared resource of its type, as `handed`,
/// which it left as `left`. Right afterwards the two stores stood as
/// `updated` and `registered`: the key holds the handle as the leaf left
/// it, under the same type, and no other key changed. The update is
/// recorded.
pub open spec fn asked_to_update<E: CustomElement, F>(
    w: ElementWrapper<E, F>,
    handle: E::Inner,
    handle_left: E::Inner,
    handed: E::Resource,
    left: E::Resource,
    before: ElementInnerMap<E::Inner>,
    registry_before: ResourceRegistry<E::Resource>,
    updated: ElementInnerMap<E::Inner>,
    registered: ResourceRegistry<E::Resource>,
) -> bool {
    let key = w.inner_key->0;
    &&& handle == before@[key].inner
    &&& hands_shared(registry_before, registered, w.type_tag, handed, left)
    &&& updated.history() == before.history().push(Call::Update { key, type_tag: w.type_tag })
    &&& updated@ == before@.insert(key, (Slot { type_tag: w.type_tag, inner: handle_left }))
}

impl<E, F> Element<E, F> {
    /// Whether `self` and `other` have the same type all the way down.
    pub fn same_type(&self, other: &Self) -> (same: bool)
        ensures
            same == same_type(*self, *other),
        decreases self,
    {
        match (self, other) {
            (Element::Wrapper(x), Element::Wrapper(y)) => x.type_tag == y.type_tag
                && x.children.same_type(&y.children),
            (Element::Mapped(x), Element::Mapped(y)) => x.wrapped.same_type(&*y.wrapped),
            (Element::Dynamic(_), Element::Dynamic(_)) => true,
            _ => false,
        }
    }
}

impl<E, F> Children<E, F> {
    /// Whether `self` and `other` have the same type all the way down.
    pub fn same_type(&self, other: &Self) -> (same: bool)
        ensures
            same == same_type_children(*self, *other),
        decreases self,
    {
        match (self, other) {
            (Children::Empty, Children::Empty) => true,
            (Children::Single(x), Children::Single(y)) => x.same_type(&**y),
            (Children::Pair(xa, xb), Children::Pair(ya, yb)) => xa.same_type(&**ya)
                && xb.same_type(&**yb),
            (Children::List(_), Children::List(_)) => true,
            (Children::Optional(_), Children::Optional(_)) => true,
            _ => false,
        }
    }
}

impl<E: CustomElement, F: Mapper<E::State>> ElementWrapper<E, F> {
    /// Compares this declaration with `previous`, which stood in its place
    /// on the previous tick. If the two are the same node, the leaf is handed
    /// the previous parameters to bring its resource up to date, and the
    /// children are compared under the scene node that the resource names
    /// afterwards. If they are not, the previous subtree is destroyed and
    /// this one is created; the leaf is not asked to update.
    pub fn diff_same_type(
        &self,
        previous: &Self,
        context: &E::Context,
        state: &mut E::State,
        parent: &Parent<'_, E::Space>,
        element_path: &str,
        inner_map: &mut ElementInnerMap<E::Inner>,
        resources: &mut ResourceRegistry<E::Resource>,
    )
        ensures
            extends(old(inner_map).history(), final(inner_map).history()),
            diff_run(
                Element::Wrapper(*self),
                Element::Wrapper(*previous),
                parent.under(),
                final(inner_map).history(),
                reading(*old(inner_map), *old(resources)),
            ) == reading(*final(inner_map), *final(resources)),
            wrappers_match(*self, *previous) && wrapper_live(*self, old(inner_map).tags())
                ==> exists|
                handle: &mut E::Inner,
                shared: &mut E::Resource,
                updated: ElementInnerMap<E::Inner>,
                registered: ResourceRegistry<E::Resource>,
            |
                asked_to_update(
                    *self,
                    mut_ref_current(handle),
                    mut_ref_future(handle),
                    mut_ref_current(shared),
                    mut_ref_future(shared),
                    *old(inner_map),
                    *old(resources),
                    updated,
                    registered,
                ) && call_ensures(
                    E::diff,
                    (&self.custom_element->0, &previous.custom_element->0, handle, shared),
                    (),
                ) && diff_children_run(
                    self.children,
                    previous.children,
                    self.inner_key,
                    final(inner_map).history(),
                    reading(updated, registered),
                ) == reading(*final(inner_map), *final(resources)),
            wrappers_match(*self, *previous) && !wrapper_live(*self, old(inner_map).tags())
                ==> diff_children_run(
                self.children,
                previous.children,
                parent.under(),
                final(inner_map).history(),
                reading(*old(inner_map), *old(resources)),
            ) == reading(*final(inner_map), *final(resources)),
        decreases self,
    {
        let ghost t0 = inner_map.history();
        let ghost c0 = reading(*inner_map, *resources);
        let matching = same_key(self.inner_key, previous.inner_key) && self.type_tag
            == previous.type_tag && self.custom_element.is_some()
            == previous.custom_element.is_some();
        assert(matching == wrappers_match(*self, *previous));
        if !matching {
            previous.destroy_inner_recursive(inner_map);
            let ghost t1 = inner_map.history();
            self.create_inner_recursive(
                context,
                parent,
                element_path,
                inner_map,
                resources,
            );
            proof {
                let t2 = inner_map.history();
                lemma_destroy_shared(
                    Element::Wrapper(*previous),
                    t1,
                    reading_map(*old(inner_map)),
                    c0.shared,
                );
                assert(with_shared(reading_map(*old(inner_map)), c0.shared) == c0);
                lemma_destroy_stable(Element::Wrapper(*previous), t1, t2, c0);
                lemma_extends_transitive(t0, t1, t2);
            }
            return ;
        }
        match (&self.custom_element, &previous.custom_element, self.inner_key) {
            (Some(new_custom), Some(old_custom), Some(key)) => {
                let tag = self.type_tag;
                let called = inner_map.update_live(key, tag, new_custom, old_custom, resources);
                let ghost t1 = inner_map.history();
                let ghost c1 = reading(*inner_map, *resources);
                let ghost updated = *inner_map;
                let ghost registered = *resources;
                let ghost (handle, shared) = choose|handle: &mut E::Inner, shared: &mut E::Resource|
                    mut_ref_current(handle) == old(inner_map)@[key].inner && mut_ref_future(handle)
                        == updated@[key].inner && hands_shared(
                        *old(resources),
                        registered,
                        tag,
                        mut_ref_current(shared),
                        mut_ref_future(shared),
                    ) && call_ensures(E::diff, (new_custom, old_custom, handle, shared), ());
                proof {
                    if called {
                        assert(updated@ =~= old(inner_map)@.insert(
                            key,
                            (Slot { type_tag: tag, inner: mut_ref_future(handle) }),
                        ));
                        assert(asked_to_update(
                            *self,
                            mut_ref_current(handle),
                            mut_ref_future(handle),
                            mut_ref_current(shared),
                            mut_ref_future(shared),
                            *old(inner_map),
                            *old(resources),
                            updated,
                            registered,
                        ));
                    }
                    assert(c1.live =~= c0.live);
                    if called {
                        let s = step_update(t1, c0, key, tag);
                        assert(s.shared =~= c1.shared);
                        assert(s == c1);
                    } else {
                        assert(c1.shared =~= c0.shared);
                        assert(c1 == c0);
                    }
                }
                let name = new_custom.full_name();
                let path = join_element_path(element_path, name.as_str(), key);
                let child = Parent::below(new_custom, inner_map, key, tag, parent);
                self.children.diff_same_type(
                    &previous.children,
                    context,
                    state,
                    &child,
                    path.as_str(),
                    inner_map,
                    resources,
                );
                proof {
                    let t2 = inner_map.history();
                    if called {
                        assert(step_update(t2, c0, key, tag) == c1);
                    }
                    lemma_extends_transitive(t0, t1, t2);
                }
            },
            _ => {
                self.children.diff_same_type(
                    &previous.children,
                    context,
                    state,
                    parent,
                    element_path,
                    inner_map,
                    resources,
                );
            },
        }
    }
}

impl<E: CustomElement, F: Mapper<E::State>> Mapped<E, F> {
    /// Applies the projection to the state. If it selects something, the
    /// subtree behind it is compared with the one behind `previous`; if not,
    /// the subtree is left as it is on this tick: nothing in it is updated,
    /// nothing is destroyed for the projection coming up empty, and both
    /// stores stay as they are.
    pub fn diff_same_type(
        &self,
        previous: &Self,
        context: &E::Context,
        state: &mut E::State,
        parent: &Parent<'_, E::Space>,
        element_path: &str,
        inner_map: &mut ElementInnerMap<E::Inner>,
        resources: &mut ResourceRegistry<E::Resource>,
    )
        ensures
            extends(old(inner_map).history(), final(inner_map).history()),
            diff_run(
                Element::Mapped(*self),
                Element::Mapped(*previous),
                parent.under(),
                final(inner_map).history(),
                reading(*old(inner_map), *old(resources)),
            ) == reading(*final(inner_map), *final(resources)),
            final(inner_map).history() == old(inner_map).history().push(
                Call::Project { present: false },
            ) ==> final(inner_map)@ == old(inner_map)@ && final(resources)@ == old(resources)@,
            self.mapper matches Some(mapper) ==> exists|
                handed: &mut E::State,
                projected: Option<&mut E::State>,
            |
                mut_ref_current(handed) == *old(state) && call_ensures(
                    F::project,
                    (&mapper, handed),
                    projected,
                ) && final(inner_map).history().len() > old(inner_map).history().len() && final(inner_map).history()[old(inner_map).history().len() as int] == (Call::Project {
                    present: projected is Some,
                }) && (projected is None ==> final(inner_map).history() == old(inner_map).history().push(Call::Project { present: false }) && final(inner_map)@ == old(inner_map)@ && final(resources)@ == old(resources)@),
            self.mapper is None ==> final(inner_map).history() == old(inner_map).history() && final(inner_map)@ == old(inner_map)@ && final(resources)@ == old(resources)@ && *final(state) == *old(state),
        decreases self, 1nat,
    {
        let ghost t0 = inner_map.history();
        let ghost c0 = reading(*inner_map, *resources);
        match &self.mapper {
            Some(mapper) => {
                let projected = inner_map.project_noted(mapper, state);
                let ghost present = projected is Some;
                let ghost t1 = inner_map.history();
                self.diff_projected(
                    previous,
                    projected,
                    context,
                    parent,
                    element_path,
                    inner_map,
                    resources,
                );
                proof {
                    let t = inner_map.history();
                    lemma_extends_transitive(t0, t1, t);
                    if present {
                        assert(step_project(t, c0, true) == step_project(t1, c0, true));
                    } else {
                        assert(!step_project(t, c0, true).ok);
                        assert(inner_map.tags() =~= c0.live);
                    }
                }
            },
            None => {},
        }
    }

    /// Takes what the projection returned. If it selected nothing, nothing
    /// happens: nothing is forwarded to the subtree, nothing is recorded and
    /// both stores stay as they are. If it selected something, the subtree is
    /// compared with the one behind `previous`, on what was selected.
    pub fn diff_projected(
        &self,
        previous: &Self,
        projected: Option<&mut E::State>,
        context: &E::Context,
        parent: &Parent<'_, E::Space>,
        element_path: &str,
        inner_map: &mut ElementInnerMap<E::Inner>,
        resources: &mut ResourceRegistry<E::Resource>,
    )
        ensures
            extends(old(inner_map).history(), final(inner_map).history()),
            projected is None ==> final(inner_map).history() == old(inner_map).history()
                && final(inner_map)@ == old(inner_map)@ && final(resources)@ == old(resources)@,
            projected is Some ==> diff_run(
                *self.wrapped,
                *previous.wrapped,
                parent.under(),
                final(inner_map).history(),
                reading(*old(inner_map), *old(resources)),
            ) == reading(*final(inner_map), *final(resources)),
        decreases self, 0nat,
    {
        match projected {
            Some(mapped_state) => {
                self.wrapped.diff_under(
                    &*previous.wrapped,
                    context,
                    mapped_state,
                    parent,
                    element_path,
                    inner_map,
                    resources,
                );
            },
            None => {},
        }
    }
}

impl<E: CustomElement, F: Mapper<E::State>> DynamicElement<E, F> {
    /// Compares what stands behind this dynamic element with what stood
    /// behind `previous`: by parts if the two have the same type all the way
    /// down, by replacing the whole otherwise.
    pub fn diff_same_type(
        &self,
        previous: &Self,
        context: &E::Context,
        state: &mut E::State,
        parent: &Parent<'_, E::Space>,
        element_path: &str,
        inner_map: &mut ElementInnerMap<E::Inner>,
        resources: &mut ResourceRegistry<E::Resource>,
    )
        ensures
            extends(old(inner_map).history(), final(inner_map).history()),
            diff_run(
                Element::Dynamic(*self),
                Element::Dynamic(*previous),
                parent.under(),
                final(inner_map).history(),
                reading(*old(inner_map), *old(resources)),
            ) == reading(*final(inner_map), *final(resources)),
        decreases self,
    {
        if self.0.same_type(&*previous.0) {
            self.0.diff_under(
                &*previous.0,
                context,
                state,
                parent,
                element_path,
                inner_map,
                resources,
            );
        } else {
            self.0.replace_under(
                &*previous.0,
                context,
                parent,
                element_path,
                inner_map,
                resources,
            );
        }
    }
}

impl<E: CustomElement, F: Mapper<E::State>> Element<E, F> {
    /// Destroys the subtree `previous`, then creates this one in its place.
    pub fn replace_under(
        &self,
        previous: &Self,
        context: &E::Context,
        parent: &Parent<'_, E::Space>,
        element_path: &str,
        inner_map: &mut ElementInnerMap<E::Inner>,
        resources: &mut ResourceRegistry<E::Resource>,
    )
        ensures
            extends(old(inner_map).history(), final(inner_map).history()),
            replace_run(
                *self,
                *previous,
                parent.under(),
                final(inner_map).history(),
                reading(*old(inner_map), *old(resources)),
            ) == reading(*final(inner_map), *final(resources)),
    {
        let ghost t0 = inner_map.history();
        let ghost c0 = reading(*inner_map, *resources);
        previous.destroy_inner_recursive(inner_map);
        let ghost t1 = inner_map.history();
        self.create_under(context, parent, element_path, inner_map, resources);
        proof {
            let t2 = inner_map.history();
            lemma_destroy_shared(*previous, t1, reading_map(*old(inner_map)), c0.shared);
            assert(with_shared(reading_map(*old(inner_map)), c0.shared) == c0);
            lemma_destroy_stable(*previous, t1, t2, c0);
            lemma_extends_transitive(t0, t1, t2);
        }
    }

    /// Compares this element with `previous`, to go under the scene node of
    /// the live resource `under`.
    pub fn diff_under(
        &self,
        previous: &Self,
        context: &E::Context,
        state: &mut E::State,
        parent: &Parent<'_, E::Space>,
        element_path: &str,
        inner_map: &mut ElementInnerMap<E::Inner>,
        resources: &mut ResourceRegistry<E::Resource>,
    )
        ensures
            extends(old(inner_map).history(), final(inner_map).history()),
            diff_run(
                *self,
                *previous,
                parent.under(),
                final(inner_map).history(),
                reading(*old(inner_map), *old(resources)),
            ) == reading(*final(inner_map), *final(resources)),
        decreases self,
    {
        match (self, previous) {
            (Element::Wrapper(n), Element::Wrapper(o)) => n.diff_same_type(
                o,
                context,
                state,
                parent,
                element_path,
                inner_map,
                resources,
            ),
            (Element::Mapped(n), Element::Mapped(o)) => n.diff_same_type(
                o,
                context,
                state,
                parent,
                element_path,
                inner_map,
                resources,
            ),
            (Element::Dynamic(n), Element::Dynamic(o)) => n.diff_same_type(
                o,
                context,
                state,
                parent,
                element_path,
                inner_map,
                resources,
            ),
            _ => self.replace_under(
                previous,
                context,
                parent,
                element_path,
                inner_map,
                resources,
            ),
        }
    }

    /// Compares this element with `previous`, which stood in its place on
    /// the previous tick, and brings the native resources from what
    /// `previous` describes to what this element describes: resources of
    /// nodes that are in both are updated, those of nodes that are gone are
    /// destroyed, those of nodes that are new are created. The whole goes
    /// under the scene node `parent_space`.
    pub fn diff_same_type(
        &self,
        previous: &Self,
        context: &E::Context,
        state: &mut E::State,
        parent_space: &E::Space,
        element_path: &str,
        inner_map: &mut ElementInnerMap<E::Inner>,
        resources: &mut ResourceRegistry<E::Resource>,
    )
        ensures
            extends(old(inner_map).history(), final(inner_map).history()),
            diff_run(
                *self,
                *previous,
                None,
                final(inner_map).history(),
                reading(*old(inner_map), *old(resources)),
            ) == reading(*final(inner_map), *final(resources)),
    {
        let parent = Parent::root(parent_space);
        self.diff_under(
            previous,
            context,
            state,
            &parent,
            element_path,
            inner_map,
            resources,
        );
    }

    /// Compares this element with `previous` where nothing is known of their
    /// types. The types are checked first: if they are the same all the way
    /// down the two are compared as by [`Element::diff_same_type`]; if not,
    /// `previous` is destroyed and this element is created.
    pub fn diff_dynamic(
        &self,
        previous: &Self,
        context: &E::Context,
        state: &mut E::State,
        parent_space: &E::Space,
        element_path: &str,
        inner_map: &mut ElementInnerMap<E::Inner>,
        resources: &mut ResourceRegistry<E::Resource>,
    )
        ensures
            extends(old(inner_map).history(), final(inner_map).history()),
            diff_dynamic_run(
                *self,
                *previous,
                None,
                final(inner_map).history(),
                reading(*old(inner_map), *old(resources)),
            ) == reading(*final(inner_map), *final(resources)),
    {
        let parent = Parent::root(parent_space);
        if self.same_type(previous) {
            self.diff_under(
                previous,
                context,
                state,
                &parent,
                element_path,
                inner_map,
                resources,
            );
        } else {
            self.replace_under(
                previous,
                context,
                &parent,
                element_path,
                inner_map,
                resources,
            );
        }
    }
}

impl<E: CustomElement, F: Mapper<E::State>> Children<E, F> {
    /// Destroys the children `previous`, then creates these in their place.
    pub fn replace_under(
        &self,
        previous: &Self,
        context: &E::Context,
        parent: &Parent<'_, E::Space>,
        element_path: &str,
        inner_map: &mut ElementInnerMap<E::Inner>,
        resources: &mut ResourceRegistry<E::Resource>,
    )
        ensures
            extends(old(inner_map).history(), final(inner_map).history()),
            replace_children_run(
                *self,
                *previous,
                parent.under(),
                final(inner_map).history(),
                reading(*old(inner_map), *old(resources)),
            ) == reading(*final(inner_map), *final(resources)),
    {
        let ghost t0 = inner_map.history();
        let ghost c0 = reading(*inner_map, *resources);
        previous.destroy_inner_recursive(inner_map);
        let ghost t1 = inner_map.history();
        self.create_inner_recursive(
            context,
            parent,
            element_path,
            inner_map,
            resources,
        );
        proof {
            let t2 = inner_map.history();
            lemma_destroy_children_shared(*previous, t1, reading_map(*old(inner_map)), c0.shared);
            assert(with_shared(reading_map(*old(inner_map)), c0.shared) == c0);
            lemma_destroy_children_stable(*previous, t1, t2, c0);
            lemma_extends_transitive(t0, t1, t2);
        }
    }

    /// Compares these children with `previous`. Children of the same
    /// structure are compared part by part, the elements of a list by key;
    /// children of another structure are replaced.
    pub fn diff_same_type(
        &self,
        previous: &Self,
        context: &E::Context,
        state: &mut E::State,
        parent: &Parent<'_, E::Space>,
        element_path: &str,
        inner_map: &mut ElementInnerMap<E::Inner>,
        resources: &mut ResourceRegistry<E::Resource>,
    )
        ensures
            extends(old(inner_map).history(), final(inner_map).history()),
            diff_children_run(
                *self,
                *previous,
                parent.under(),
                final(inner_map).history(),
                reading(*old(inner_map), *old(resources)),
            ) == reading(*final(inner_map), *final(resources)),
        decreases self,
    {
        let ghost t0 = inner_map.history();
        let ghost c0 = reading(*inner_map, *resources);
        match (self, previous) {
            (Children::Empty, Children::Empty) => {},
            (Children::Single(n), Children::Single(o)) => {
                n.diff_under(
                    &**o,
                    context,
                    state,
                    parent,
                    element_path,
                    inner_map,
                    resources,
                );
            },
            (Children::Pair(na, nb), Children::Pair(oa, ob)) => {
                na.diff_same_type(
                    &**oa,
                    context,
                    state,
                    parent,
                    element_path,
                    inner_map,
                    resources,
                );
                let ghost t1 = inner_map.history();
                nb.diff_same_type(
                    &**ob,
                    context,
                    state,
                    parent,
                    element_path,
                    inner_map,
                    resources,
                );
                proof {
                    let t2 = inner_map.history();
                    lemma_diff_children_stable(**na, **oa, parent.under(), t1, t2, c0);
                    lemma_extends_transitive(t0, t1, t2);
                }
            },
            (Children::List(nv), Children::List(ov)) => {
                diff_list(
                    nv,
                    ov,
                    context,
                    state,
                    parent,
                    element_path,
                    inner_map,
                    resources,
                );
            },
            (Children::Optional(n), Children::Optional(o)) => {
                match (n, o) {
                    (Some(p), Some(q)) => {
                        p.diff_under(
                            &**q,
                            context,
                            state,
                            parent,
                            element_path,
                            inner_map,
                            resources,
                        );
                    },
                    (Some(p), None) => {
                        p.create_under(
                            context,
                            parent,
                            element_path,
                            inner_map,
                            resources,
                        );
                    },
                    (None, Some(q)) => {
                        q.destroy_inner_recursive(inner_map);
                        proof {
                            lemma_destroy_shared(
                                **q,
                                inner_map.history(),
                                reading_map(*old(inner_map)),
                                c0.shared,
                            );
                            assert(with_shared(reading_map(*old(inner_map)), c0.shared) == c0);
                        }
                    },
                    (None, None) => {},
                }
            },
            _ => {
                self.replace_under(
                    previous,
                    context,
                    parent,
                    element_path,
                    inner_map,
                    resources,
                );
            },
        }
    }
}

/// Compares the list `nv` with the list `ov` of the previous tick, by key.
/// Both lists are indexed by key first, so that each element is found in the
/// other list at once.
/// First each element of `nv` whose key was there before is compared with
/// the element that carried the key; then each element of `ov` whose key is
/// gone is destroyed; last each element of `nv` whose key is new is created.
/// So within one parent every removal is done before any creation begins,
/// and creations follow the order of declaration.
pub fn diff_list<E: CustomElement, F: Mapper<E::State>>(
    nv: &Vec<Element<E, F>>,
    ov: &Vec<Element<E, F>>,
    context: &E::Context,
    state: &mut E::State,
    parent: &Parent<'_, E::Space>,
    element_path: &str,
    inner_map: &mut ElementInnerMap<E::Inner>,
    resources: &mut ResourceRegistry<E::Resource>,
)
    ensures
        extends(old(inner_map).history(), final(inner_map).history()),
        added_run(
            nv@,
            ov@,
            parent.under(),
            final(inner_map).history(),
            removed_run(
                ov@,
                nv@,
                final(inner_map).history(),
                common_run(
                    nv@,
                    ov@,
                    parent.under(),
                    final(inner_map).history(),
                    reading(*old(inner_map), *old(resources)),
                ),
            ),
        ) == reading(*final(inner_map), *final(resources)),
    decreases nv,
{
    let ghost t0 = inner_map.history();
    let ghost c0 = reading(*inner_map, *resources);
    let old_index = KeyIndex::build(ov);
    let new_index = KeyIndex::build(nv);
    let mut i: usize = 0;
    while i < nv.len()
        invariant
            i <= nv.len(),
            old_index.indexes(ov@),
            extends(t0, inner_map.history()),
            common_run(nv@.take(i as int), ov@, parent.under(), inner_map.history(), c0) == reading(
                *inner_map,
                *resources,
            ),
        decreases nv.len() - i,
    {
        let ghost ta = inner_map.history();
        let key = nv[i].inner_key();
        let found = old_index.find(key);
        proof {
            assert(found == old_index.answer(key));
            assert(nv@.take(i + 1).drop_last() =~= nv@.take(i as int));
            assert(nv@.take(i + 1).last() == nv@[i as int]);
        }
        match found {
            Some(j) => {
                proof {
                    lemma_first_with_key(ov@, key, j as int);
                }
                nv[i].diff_under(
                    &ov[j],
                    context,
                    state,
                    parent,
                    element_path,
                    inner_map,
                    resources,
                );
                proof {
                    let tb = inner_map.history();
                    lemma_common_stable(nv@.take(i as int), ov@, parent.under(), ta, tb, c0);
                    lemma_extends_transitive(t0, ta, tb);
                }
            },
            None => {},
        }
        i += 1;
    }
    assert(nv@.take(nv.len() as int) =~= nv@);
    let ghost t1 = inner_map.history();
    let ghost c1 = reading(*inner_map, *resources);
    let mut j: usize = 0;
    while j < ov.len()
        invariant
            j <= ov.len(),
            new_index.indexes(nv@),
            extends(t1, inner_map.history()),
            removed_run(ov@.take(j as int), nv@, inner_map.history(), c1) == reading(
                *inner_map,
                *resources,
            ),
        decreases ov.len() - j,
    {
        let ghost ta = inner_map.history();
        let ghost ca = reading(*inner_map, *resources);
        let ghost ma = *inner_map;
        let key = ov[j].inner_key();
        let found = new_index.find(key);
        proof {
            assert(found == new_index.answer(key));
            assert(ov@.take(j + 1).drop_last() =~= ov@.take(j as int));
            assert(ov@.take(j + 1).last() == ov@[j as int]);
        }
        match found {
            Some(k) => {
                proof {
                    lemma_first_with_key(nv@, key, k as int);
                }
            },
            None => {
                ov[j].destroy_inner_recursive(inner_map);
                proof {
                    let tb = inner_map.history();
                    lemma_destroy_shared(ov@[j as int], tb, reading_map(ma), ca.shared);
                    assert(with_shared(reading_map(ma), ca.shared) == ca);
                    lemma_removed_stable(ov@.take(j as int), nv@, ta, tb, c1);
                    lemma_extends_transitive(t1, ta, tb);
                }
            },
        }
        j += 1;
    }
    assert(ov@.take(ov.len() as int) =~= ov@);
    let ghost t2 = inner_map.history();
    let ghost c2 = reading(*inner_map, *resources);
    let mut i: usize = 0;
    while i < nv.len()
        invariant
            i <= nv.len(),
            old_index.indexes(ov@),
            extends(t2, inner_map.history()),
            added_run(nv@.take(i as int), ov@, parent.under(), inner_map.history(), c2) == reading(
                *inner_map,
                *resources,
            ),
        decreases nv.len() - i,
    {
        let ghost ta = inner_map.history();
        let key = nv[i].inner_key();
        let found = old_index.find(key);
        proof {
            assert(found == old_index.answer(key));
            assert(nv@.take(i + 1).drop_last() =~= nv@.take(i as int));
            assert(nv@.take(i + 1).last() == nv@[i as int]);
        }
        match found {
            Some(k) => {
                proof {
                    lemma_first_with_key(ov@, key, k as int);
                }
            },
            None => {
                nv[i].create_under(
                    context,
                    parent,
                    element_path,
                    inner_map,
                    resources,
                );
                proof {
                    let tb = inner_map.history();
                    lemma_added_stable(nv@.take(i as int), ov@, parent.under(), ta, tb, c2);
                    lemma_extends_transitive(t2, ta, tb);
                }
            },
        }
        i += 1;
    }
    assert(nv@.take(nv.len() as int) =~= nv@);
    proof {
        let t3 = inner_map.history();
        lemma_extends_transitive(t1, t2, t3);
        lemma_common_stable(nv@, ov@, parent.under(), t1, t3, c0);
        lemma_removed_stable(ov@, nv@, t2, t3, c1);
        lemma_extends_transitive(t0, t1, t3);
    }
}

} // verus!
