//! The three simple passes over a description: creating the native
//! resources of a subtree, destroying them, and the per-tick callback.

use crate::custom::{CreateInnerInfo, CustomElement, Mapper};
use crate::element::{Children, DynamicElement, Element, ElementWrapper, Mapped};
use crate::inner::{hands_shared, ElementInnerMap, Slot};
use crate::journal::{
    child_parent, create_children_run, create_list_run, create_run, destroy_children_run,
    destroy_list_run, destroy_run, extends, frame_children_run, frame_list_run, frame_run,
    has_resource, step_create, step_destroy, step_project, wrapper_live, Call, Cursor,
};
use crate::laws::{
    children_keys, create_targets, created, destroy_calls, framed, keys_of, lemma_create_reads,
    lemma_destroy_reads, lemma_frame_reads, list_keys,
};
use crate::path::{join_element_path, joined, path_segment};
use crate::place::Parent;
use crate::resource::ResourceRegistry;
use crate::stability::{
    lemma_create_children_stable, lemma_create_list_stable, lemma_destroy_children_stable,
    lemma_destroy_list_stable, lemma_extends_transitive, lemma_frame_children_stable,
    lemma_frame_list_stable,
};
use vstd::prelude::*;

verus! {

/// Where the record of `inner_map` ends, with the state of the two stores.
pub open spec fn reading<I, R>(
    inner_map: ElementInnerMap<I>,
    resources: ResourceRegistry<R>,
) -> Cursor {
    Cursor {
        ok: true,
        at: inner_map.history().len() as int,
        live: inner_map.tags(),
        shared: resources@.dom(),
    }
}

/// Where the record of `inner_map` ends, with the state of the map, for a
/// pass that leaves the shared resources alone.
pub open spec fn reading_map<I>(inner_map: ElementInnerMap<I>) -> Cursor {
    Cursor {
        ok: true,
        at: inner_map.history().len() as int,
        live: inner_map.tags(),
        shared: Set::empty(),
    }
}

/// What holds when the leaf of the declaration `w` was asked to make its
/// native resource at the place `parent`, below the path `element_path`.
///
/// The leaf was handed the path `path`, which is `element_path` with the
/// segment of this declaration behind it, made from the name `name` that the
/// leaf gave for its type; and the shared resource of its type, as `handed`,
/// which it left as `left`. What it returned, `made`, decided how the two
/// stores stood right afterwards, `stored` and `registered`: a resource
/// that was made is stored under the key of the declaration, and where none
/// was made the store is as it was. The attempt is recorded with its
/// outcome and with the resource that the place belongs to.
pub open spec fn asked_to_create<E: CustomElement, F>(
    w: ElementWrapper<E, F>,
    context: &E::Context,
    parent: Parent<'_, E::Space>,
    element_path: &str,
    name: String,
    path: &str,
    handed: E::Resource,
    left: E::Resource,
    made: Result<E::Inner, E::Error>,
    before: ElementInnerMap<E::Inner>,
    registry_before: ResourceRegistry<E::Resource>,
    stored: ElementInnerMap<E::Inner>,
    registered: ResourceRegistry<E::Resource>,
) -> bool {
    let key = w.inner_key->0;
    &&& call_ensures(E::full_name, (&w.custom_element->0,), name)
    &&& path@ == joined(element_path@, path_segment(name@, key))
    &&& hands_shared(registry_before, registered, w.type_tag, handed, left)
    &&& stored.history() == before.history().push(
        Call::Create { key, type_tag: w.type_tag, parent: parent.under(), created: made is Ok },
    )
    &&& made matches Ok(inner) ==> stored@ == before@.insert(
        key,
        (Slot { type_tag: w.type_tag, inner }),
    )
    &&& made is Err ==> stored@ == before@
}

impl<E: CustomElement, F: Mapper<E::State>> ElementWrapper<E, F> {
    /// Makes the native resource of this declaration, then those of its
    /// children. A resource that cannot be made is left out, and the
    /// children go under the scene node this declaration was to go under.
    pub fn create_inner_recursive(
        &self,
        context: &E::Context,
        parent: &Parent<'_, E::Space>,
        element_path: &str,
        inner_map: &mut ElementInnerMap<E::Inner>,
        resources: &mut ResourceRegistry<E::Resource>,
    )
        ensures
            extends(old(inner_map).history(), final(inner_map).history()),
            create_run(
                Element::Wrapper(*self),
                parent.under(),
                final(inner_map).history(),
                reading(*old(inner_map), *old(resources)),
            ) == reading(*final(inner_map), *final(resources)),
            has_resource(*self) ==> exists|
                name: String,
                path: &str,
                shared: &mut E::Resource,
                made: Result<E::Inner, E::Error>,
                stored: ElementInnerMap<E::Inner>,
                registered: ResourceRegistry<E::Resource>,
            |
                asked_to_create(
                    *self,
                    context,
                    *parent,
                    element_path,
                    name,
                    path,
                    mut_ref_current(shared),
                    mut_ref_future(shared),
                    made,
                    *old(inner_map),
                    *old(resources),
                    stored,
                    registered,
                ) && call_ensures(
                    E::create_inner,
                    (
                        &self.custom_element->0,
                        context,
                        (CreateInnerInfo { parent_space: &parent.space(), element_path: path }),
                        shared,
                    ),
                    made,
                ) && create_children_run(
                    self.children,
                    child_parent(*self, stored.tags(), parent.under()),
                    final(inner_map).history(),
                    reading(stored, registered),
                ) == reading(*final(inner_map), *final(resources)),
            !has_resource(*self) ==> create_children_run(
                self.children,
                parent.under(),
                final(inner_map).history(),
                reading(*old(inner_map), *old(resources)),
            ) == reading(*final(inner_map), *final(resources)),
        decreases self,
    {
        let ghost t0 = inner_map.history();
        let ghost c0 = reading(*inner_map, *resources);
        match (&self.custom_element, self.inner_key) {
            (Some(custom), Some(key)) => {
                let tag = self.type_tag;
                let name = custom.full_name();
                let path = join_element_path(element_path, name.as_str(), key);
                let path_str = path.as_str();
                let created = inner_map.create_noted(
                    custom,
                    context,
                    parent,
                    path_str,
                    key,
                    tag,
                    resources,
                );
                let ghost t1 = inner_map.history();
                let ghost c1 = reading(*inner_map, *resources);
                let ghost stored = *inner_map;
                let ghost registered = *resources;
                let ghost (shared, made) = choose|
                    shared: &mut E::Resource,
                    made: Result<E::Inner, E::Error>,
                |
                    hands_shared(
                        *old(resources),
                        registered,
                        tag,
                        mut_ref_current(shared),
                        mut_ref_future(shared),
                    ) && call_ensures(
                        E::create_inner,
                        (
                            custom,
                            context,
                            (CreateInnerInfo { parent_space: &parent.space(), element_path: path_str }),
                            shared,
                        ),
                        made,
                    ) && created == (made is Ok) && (made matches Ok(inner) ==> stored@ == old(
                        inner_map,
                    )@.insert(key, (Slot { type_tag: tag, inner })));
                proof {
                    assert(asked_to_create(
                        *self,
                        context,
                        *parent,
                        element_path,
                        name,
                        path_str,
                        mut_ref_current(shared),
                        mut_ref_future(shared),
                        made,
                        *old(inner_map),
                        *old(resources),
                        stored,
                        registered,
                    ));
                    let s = step_create(t1, c0, key, tag, parent.under());
                    assert(s.live =~= c1.live);
                    assert(s.shared =~= c1.shared);
                    assert(s == c1);
                }
                let child = Parent::below(custom, inner_map, key, tag, parent);
                self.children.create_inner_recursive(
                    context,
                    &child,
                    path_str,
                    inner_map,
                    resources,
                );
                proof {
                    let t2 = inner_map.history();
                    assert(step_create(t2, c0, key, tag, parent.under()) == c1);
                    lemma_extends_transitive(t0, t1, t2);
                }
            },
            _ => {
                self.children.create_inner_recursive(
                    context,
                    parent,
                    element_path,
                    inner_map,
                    resources,
                );
            },
        }
    }

    /// Removes the native resources of the children, then that of this
    /// declaration.
    pub fn destroy_inner_recursive(&self, inner_map: &mut ElementInnerMap<E::Inner>)
        ensures
            extends(old(inner_map).history(), final(inner_map).history()),
            destroy_run(
                Element::Wrapper(*self),
                final(inner_map).history(),
                reading_map(*old(inner_map)),
            ) == reading_map(*final(inner_map)),
            final(inner_map)@ == old(inner_map)@.remove_keys(keys_of(Element::Wrapper(*self))),
        decreases self,
    {
        let ghost t0 = inner_map.history();
        let ghost c0 = reading_map(*inner_map);
        self.children.destroy_inner_recursive(inner_map);
        let ghost t1 = inner_map.history();
        let ghost c1 = reading_map(*inner_map);
        match self.inner_key {
            Some(key) => {
                inner_map.remove(key);
                proof {
                    let t2 = inner_map.history();
                    lemma_destroy_children_stable(self.children, t1, t2, c0);
                    let s = step_destroy(t2, c1, key);
                    assert(s.live =~= inner_map.tags());
                    lemma_extends_transitive(t0, t1, t2);
                    assert(inner_map@ =~= old(inner_map)@.remove_keys(
                        keys_of(Element::Wrapper(*self)),
                    ));
                }
            },
            None => {
                assert(inner_map@ =~= old(inner_map)@.remove_keys(
                    keys_of(Element::Wrapper(*self)),
                ));
            },
        }
    }

    /// Gives the native resource of this declaration its per-tick callback,
    /// if it is live, then goes on to the children.
    pub fn frame_recursive(
        &self,
        context: &E::Context,
        info: &E::FrameInfo,
        state: &mut E::State,
        inner_map: &mut ElementInnerMap<E::Inner>,
    )
        ensures
            extends(old(inner_map).history(), final(inner_map).history()),
            frame_run(
                Element::Wrapper(*self),
                final(inner_map).history(),
                reading_map(*old(inner_map)),
            ) == reading_map(*final(inner_map)),
            wrapper_live(*self, old(inner_map).tags()) ==> exists|
                handle: &mut E::Inner,
                handed: &mut E::State,
                ticked: ElementInnerMap<E::Inner>,
            |
                mut_ref_current(handle) == old(inner_map)@[self.inner_key->0].inner
                    && mut_ref_current(handed) == *old(state) && call_ensures(
                    E::frame,
                    (&self.custom_element->0, context, info, handed, handle),
                    (),
                ) && ticked@ == old(inner_map)@.insert(
                    self.inner_key->0,
                    (Slot { type_tag: self.type_tag, inner: mut_ref_future(handle) }),
                ) && ticked.history() == old(inner_map).history().push(
                    Call::Frame { key: self.inner_key->0, type_tag: self.type_tag },
                ) && frame_children_run(self.children, final(inner_map).history(), reading_map(ticked))
                    == reading_map(*final(inner_map)),
            !wrapper_live(*self, old(inner_map).tags()) ==> frame_children_run(
                self.children,
                final(inner_map).history(),
                reading_map(*old(inner_map)),
            ) == reading_map(*final(inner_map)),
        decreases self,
    {
        let ghost t0 = inner_map.history();
        let ghost c0 = reading_map(*inner_map);
        let ghost state0 = *state;
        match (&self.custom_element, self.inner_key) {
            (Some(custom), Some(key)) => {
                let tag = self.type_tag;
                let called = inner_map.frame_live(key, tag, custom, context, info, state);
                let ghost ticked = *inner_map;
                let ghost (handle, handed) = choose|handle: &mut E::Inner, handed: &mut E::State|
                    mut_ref_current(handle) == old(inner_map)@[key].inner && mut_ref_future(handle)
                        == ticked@[key].inner && mut_ref_current(handed) == state0
                        && mut_ref_future(handed) == *state && call_ensures(
                        E::frame,
                        (custom, context, info, handed, handle),
                        (),
                    );
                proof {
                    assert(inner_map.tags() =~= c0.live);
                    if called {
                        assert(ticked@ =~= old(inner_map)@.insert(
                            key,
                            (Slot { type_tag: tag, inner: mut_ref_future(handle) }),
                        ));
                    }
                }
            },
            _ => {},
        }
        let ghost t1 = inner_map.history();
        let ghost c1 = reading_map(*inner_map);
        self.children.frame_recursive(context, info, state, inner_map);
        proof {
            let t2 = inner_map.history();
            lemma_extends_transitive(t0, t1, t2);
        }
    }
}

impl<E: CustomElement, F: Mapper<E::State>> Mapped<E, F> {
    /// Makes the native resources of the subtree behind the projection.
    pub fn create_inner_recursive(
        &self,
        context: &E::Context,
        parent: &Parent<'_, E::Space>,
        element_path: &str,
        inner_map: &mut ElementInnerMap<E::Inner>,
        resources: &mut ResourceRegistry<E::Resource>,
    )
        ensures
            extends(old(inner_map).history(), final(inner_map).history()),
            create_run(
                Element::Mapped(*self),
                parent.under(),
                final(inner_map).history(),
                reading(*old(inner_map), *old(resources)),
            ) == reading(*final(inner_map), *final(resources)),
        decreases self,
    {
        self.wrapped.create_under(
            context,
            parent,
            element_path,
            inner_map,
            resources,
        );
    }

    /// Removes the native resources of the subtree behind the projection.
    pub fn destroy_inner_recursive(&self, inner_map: &mut ElementInnerMap<E::Inner>)
        ensures
            extends(old(inner_map).history(), final(inner_map).history()),
            destroy_run(
                Element::Mapped(*self),
                final(inner_map).history(),
                reading_map(*old(inner_map)),
            ) == reading_map(*final(inner_map)),
            final(inner_map)@ == old(inner_map)@.remove_keys(keys_of(Element::Mapped(*self))),
        decreases self,
    {
        self.wrapped.destroy_inner_recursive(inner_map);
    }

    /// Applies the projection to the state. If it selects something, the
    /// subtree gets its per-tick callbacks on what was selected; if not, the
    /// subtree gets none on this tick, and the store stays as it is.
    pub fn frame_recursive(
        &self,
        context: &E::Context,
        info: &E::FrameInfo,
        state: &mut E::State,
        inner_map: &mut ElementInnerMap<E::Inner>,
    )
        ensures
            extends(old(inner_map).history(), final(inner_map).history()),
            frame_run(
                Element::Mapped(*self),
                final(inner_map).history(),
                reading_map(*old(inner_map)),
            ) == reading_map(*final(inner_map)),
            final(inner_map).history() == old(inner_map).history().push(
                Call::Project { present: false },
            ) ==> final(inner_map)@ == old(inner_map)@,
            self.mapper matches Some(mapper) ==> exists|
                handed: &mut E::State,
                projected: Option<&mut E::State>,
            |
                mut_ref_current(handed) == *old(state) && call_ensures(
                    F::project,
                    (&mapper, handed),
                    projected,
                ) && final(inner_map).history().len() > old(inner_map).history().len() && final(inner_map).history()[old(inner_map).history().len() as int] == (Call::Project {
                    present: projected is Some,
                }) && (projected is None ==> final(inner_map).history() == old(inner_map).history().push(Call::Project { present: false }) && final(inner_map)@ == old(inner_map)@),
            self.mapper is None ==> final(inner_map).history() == old(inner_map).history() && final(inner_map)@ == old(inner_map)@ && *final(state) == *old(state),
        decreases self, 1nat,
    {
        let ghost t0 = inner_map.history();
        let ghost c0 = reading_map(*inner_map);
        match &self.mapper {
            Some(mapper) => {
                let projected = inner_map.project_noted(mapper, state);
                let ghost present = projected is Some;
                let ghost t1 = inner_map.history();
                let ghost m1 = inner_map@;
                self.frame_projected(projected, context, info, inner_map);
                proof {
                    let t = inner_map.history();
                    lemma_extends_transitive(t0, t1, t);
                    if present {
                        assert(step_project(t, c0, true) == step_project(t1, c0, true));
                    } else {
                        assert(!step_project(t, c0, true).ok);
                        assert(inner_map.tags() =~= c0.live);
                    }
                }
            },
            None => {},
        }
    }

    /// Takes what the projection returned. If it selected nothing, nothing
    /// happens: no callback reaches the subtree, nothing is recorded and the
    /// store stays as it is. If it selected something, the subtree gets its
    /// per-tick callbacks on what was selected.
    pub fn frame_projected(
        &self,
        projected: Option<&mut E::State>,
        context: &E::Context,
        info: &E::FrameInfo,
        inner_map: &mut ElementInnerMap<E::Inner>,
    )
        ensures
            extends(old(inner_map).history(), final(inner_map).history()),
            projected is None ==> final(inner_map).history() == old(inner_map).history()
                && final(inner_map)@ == old(inner_map)@,
            projected is Some ==> frame_run(
                *self.wrapped,
                final(inner_map).history(),
                reading_map(*old(inner_map)),
            ) == reading_map(*final(inner_map)),
        decreases self, 0nat,
    {
        match projected {
            Some(mapped_state) => {
                self.wrapped.frame_recursive(context, info, mapped_state, inner_map);
            },
            None => {},
        }
    }
}

impl<E: CustomElement, F: Mapper<E::State>> DynamicElement<E, F> {
    /// Makes the native resources of the subtree behind the dynamic element.
    pub fn create_inner_recursive(
        &self,
        context: &E::Context,
        parent: &Parent<'_, E::Space>,
        element_path: &str,
        inner_map: &mut ElementInnerMap<E::Inner>,
        resources: &mut ResourceRegistry<E::Resource>,
    )
        ensures
            extends(old(inner_map).history(), final(inner_map).history()),
            create_run(
                Element::Dynamic(*self),
                parent.under(),
                final(inner_map).history(),
                reading(*old(inner_map), *old(resources)),
            ) == reading(*final(inner_map), *final(resources)),
        decreases self,
    {
        self.0.create_under(context, parent, element_path, inner_map, resources);
    }

    /// Removes the native resources of the subtree behind the dynamic
    /// element.
    pub fn destroy_inner_recursive(&self, inner_map: &mut ElementInnerMap<E::Inner>)
        ensures
            extends(old(inner_map).history(), final(inner_map).history()),
            destroy_run(
                Element::Dynamic(*self),
                final(inner_map).history(),
                reading_map(*old(inner_map)),
            ) == reading_map(*final(inner_map)),
            final(inner_map)@ == old(inner_map)@.remove_keys(keys_of(Element::Dynamic(*self))),
        decreases self,
    {
        self.0.destroy_inner_recursive(inner_map);
    }

    /// Gives the subtree behind the dynamic element its per-tick callbacks.
    pub fn frame_recursive(
        &self,
        context: &E::Context,
        info: &E::FrameInfo,
        state: &mut E::State,
        inner_map: &mut ElementInnerMap<E::Inner>,
    )
        ensures
            extends(old(inner_map).history(), final(inner_map).history()),
            frame_run(
                Element::Dynamic(*self),
                final(inner_map).history(),
                reading_map(*old(inner_map)),
            ) == reading_map(*final(inner_map)),
        decreases self,
    {
        self.0.frame_recursive(context, info, state, inner_map);
    }
}

impl<E: CustomElement, F: Mapper<E::State>> Element<E, F> {
    /// Makes the native resources of this element and of everything below
    /// it, to go under the scene node of the live resource `under`.
    pub fn create_under(
        &self,
        context: &E::Context,
        parent: &Parent<'_, E::Space>,
        element_path: &str,
        inner_map: &mut ElementInnerMap<E::Inner>,
        resources: &mut ResourceRegistry<E::Resource>,
    )
        ensures
            extends(old(inner_map).history(), final(inner_map).history()),
            create_run(
                *self,
                parent.under(),
                final(inner_map).history(),
                reading(*old(inner_map), *old(resources)),
            ) == reading(*final(inner_map), *final(resources)),
        decreases self,
    {
        match self {
            Element::Wrapper(w) => w.create_inner_recursive(
                context,
                parent,
                element_path,
                inner_map,
                resources,
            ),
            Element::Mapped(m) => m.create_inner_recursive(
                context,
                parent,
                element_path,
                inner_map,
                resources,
            ),
            Element::Dynamic(d) => d.create_inner_recursive(
                context,
                parent,
                element_path,
                inner_map,
                resources,
            ),
        }
    }

    /// Makes the native resources of this element and of everything below
    /// it, each element before what is below it, under the scene node
    /// `parent_space`. One attempt is made for each declaration that stands
    /// for a resource, whether or not the attempts before it succeeded.
    pub fn create_inner_recursive(
        &self,
        context: &E::Context,
        parent_space: &E::Space,
        element_path: &str,
        inner_map: &mut ElementInnerMap<E::Inner>,
        resources: &mut ResourceRegistry<E::Resource>,
    )
        ensures
            extends(old(inner_map).history(), final(inner_map).history()),
            create_run(
                *self,
                None,
                final(inner_map).history(),
                reading(*old(inner_map), *old(resources)),
            ) == reading(*final(inner_map), *final(resources)),
            created(
                final(inner_map).history(),
                reading(*old(inner_map), *old(resources)),
                reading(*final(inner_map), *final(resources)),
                create_targets(*self),
            ),
    {
        let parent = Parent::root(parent_space);
        self.create_under(context, &parent, element_path, inner_map, resources);
        proof {
            lemma_create_reads(
                *self,
                None,
                inner_map.history(),
                reading(*old(inner_map), *old(resources)),
            );
        }
    }

    /// Removes the native resources of this element and of everything below
    /// it, what is below an element before the element.
    pub fn destroy_inner_recursive(&self, inner_map: &mut ElementInnerMap<E::Inner>)
        ensures
            extends(old(inner_map).history(), final(inner_map).history()),
            destroy_run(*self, final(inner_map).history(), reading_map(*old(inner_map)))
                == reading_map(*final(inner_map)),
            final(inner_map).history() == old(inner_map).history() + destroy_calls(*self),
            final(inner_map)@ == old(inner_map)@.remove_keys(keys_of(*self)),
            final(inner_map).tags() == old(inner_map).tags().remove_keys(keys_of(*self)),
        decreases self,
    {
        match self {
            Element::Wrapper(w) => w.destroy_inner_recursive(inner_map),
            Element::Mapped(m) => m.destroy_inner_recursive(inner_map),
            Element::Dynamic(d) => d.destroy_inner_recursive(inner_map),
        }
        proof {
            let t = inner_map.history();
            let before = old(inner_map).history();
            lemma_destroy_reads(*self, t, reading_map(*old(inner_map)));
            assert(t =~= before + t.subrange(before.len() as int, t.len() as int));
        }
    }

    /// Gives every live native resource of this element and below it its
    /// per-tick callback, an element before what is below it.
    pub fn frame_recursive(
        &self,
        context: &E::Context,
        info: &E::FrameInfo,
        state: &mut E::State,
        inner_map: &mut ElementInnerMap<E::Inner>,
    )
        ensures
            extends(old(inner_map).history(), final(inner_map).history()),
            frame_run(*self, final(inner_map).history(), reading_map(*old(inner_map)))
                == reading_map(*final(inner_map)),
            framed(
                final(inner_map).history(),
                reading_map(*old(inner_map)),
                reading_map(*final(inner_map)),
            ),
        decreases self,
    {
        match self {
            Element::Wrapper(w) => w.frame_recursive(context, info, state, inner_map),
            Element::Mapped(m) => m.frame_recursive(context, info, state, inner_map),
            Element::Dynamic(d) => d.frame_recursive(context, info, state, inner_map),
        }
        proof {
            lemma_frame_reads(*self, inner_map.history(), reading_map(*old(inner_map)));
        }
    }
}

impl<E: CustomElement, F: Mapper<E::State>> Children<E, F> {
    /// Makes the native resources of these children, in the order of
    /// declaration.
    pub fn create_inner_recursive(
        &self,
        context: &E::Context,
        parent: &Parent<'_, E::Space>,
        element_path: &str,
        inner_map: &mut ElementInnerMap<E::Inner>,
        resources: &mut ResourceRegistry<E::Resource>,
    )
        ensures
            extends(old(inner_map).history(), final(inner_map).history()),
            create_children_run(
                *self,
                parent.under(),
                final(inner_map).history(),
                reading(*old(inner_map), *old(resources)),
            ) == reading(*final(inner_map), *final(resources)),
        decreases self,
    {
        let ghost t0 = inner_map.history();
        let ghost c0 = reading(*inner_map, *resources);
        match self {
            Children::Empty => {},
            Children::Single(e) => {
                e.create_under(
                    context,
                    parent,
                    element_path,
                    inner_map,
                    resources,
                );
            },
            Children::Pair(a, b) => {
                a.create_inner_recursive(
                    context,
                    parent,
                    element_path,
                    inner_map,
                    resources,
                );
                let ghost t1 = inner_map.history();
                b.create_inner_recursive(
                    context,
                    parent,
                    element_path,
                    inner_map,
                    resources,
                );
                proof {
                    let t2 = inner_map.history();
                    lemma_create_children_stable(**a, parent.under(), t1, t2, c0);
                    lemma_extends_transitive(t0, t1, t2);
                }
            },
            Children::List(v) => {
                let mut i: usize = 0;
                while i < v.len()
                    invariant
                        i <= v.len(),
                        *self is List,
                        v@ == (*self)->List_0@,
                        extends(t0, inner_map.history()),
                        create_list_run(v@.take(i as int), parent.under(), inner_map.history(), c0)
                            == reading(*inner_map, *resources),
                    decreases v.len() - i,
                {
                    let ghost t1 = inner_map.history();
                    v[i].create_under(
                        context,
                        parent,
                        element_path,
                        inner_map,
                        resources,
                    );
                    proof {
                        let t2 = inner_map.history();
                        lemma_create_list_stable(v@.take(i as int), parent.under(), t1, t2, c0);
                        assert(v@.take(i + 1).drop_last() =~= v@.take(i as int));
                        assert(v@.take(i + 1).last() == v@[i as int]);
                        lemma_extends_transitive(t0, t1, t2);
                    }
                    i += 1;
                }
                assert(v@.take(v.len() as int) =~= v@);
            },
            Children::Optional(o) => {
                match o {
                    Some(e) => {
                        e.create_under(
                            context,
                            parent,
                            element_path,
                            inner_map,
                            resources,
                        );
                    },
                    None => {},
                }
            },
        }
    }

    /// Removes the native resources of these children, in the order of
    /// declaration.
    pub fn destroy_inner_recursive(&self, inner_map: &mut ElementInnerMap<E::Inner>)
        ensures
            extends(old(inner_map).history(), final(inner_map).history()),
            destroy_children_run(*self, final(inner_map).history(), reading_map(*old(inner_map)))
                == reading_map(*final(inner_map)),
            final(inner_map)@ == old(inner_map)@.remove_keys(children_keys(*self)),
        decreases self,
    {
        let ghost t0 = inner_map.history();
        let ghost c0 = reading_map(*inner_map);
        let ghost m0 = inner_map@;
        match self {
            Children::Empty => {
                assert(inner_map@ =~= m0.remove_keys(children_keys(*self)));
            },
            Children::Single(e) => {
                e.destroy_inner_recursive(inner_map);
            },
            Children::Pair(a, b) => {
                a.destroy_inner_recursive(inner_map);
                let ghost t1 = inner_map.history();
                b.destroy_inner_recursive(inner_map);
                proof {
                    let t2 = inner_map.history();
                    lemma_destroy_children_stable(**a, t1, t2, c0);
                    lemma_extends_transitive(t0, t1, t2);
                    assert(inner_map@ =~= m0.remove_keys(children_keys(*self)));
                }
            },
            Children::List(v) => {
                let mut i: usize = 0;
                assert(inner_map@ =~= m0.remove_keys(list_keys(v@.take(0))));
                while i < v.len()
                    invariant
                        i <= v.len(),
                        *self is List,
                        v@ == (*self)->List_0@,
                        extends(t0, inner_map.history()),
                        destroy_list_run(v@.take(i as int), inner_map.history(), c0)
                            == reading_map(*inner_map),
                        inner_map@ == m0.remove_keys(list_keys(v@.take(i as int))),
                    decreases v.len() - i,
                {
                    let ghost t1 = inner_map.history();
                    v[i].destroy_inner_recursive(inner_map);
                    proof {
                        let t2 = inner_map.history();
                        lemma_destroy_list_stable(v@.take(i as int), t1, t2, c0);
                        assert(v@.take(i + 1).drop_last() =~= v@.take(i as int));
                        assert(v@.take(i + 1).last() == v@[i as int]);
                        lemma_extends_transitive(t0, t1, t2);
                        assert(inner_map@ =~= m0.remove_keys(list_keys(v@.take(i + 1))));
                    }
                    i += 1;
                }
                assert(v@.take(v.len() as int) =~= v@);
            },
            Children::Optional(o) => {
                match o {
                    Some(e) => {
                        e.destroy_inner_recursive(inner_map);
                    },
                    None => {
                        assert(inner_map@ =~= m0.remove_keys(children_keys(*self)));
                    },
                }
            },
        }
    }

    /// Gives the live native resources of these children their per-tick
    /// callbacks, in the order of declaration.
    pub fn frame_recursive(
        &self,
        context: &E::Context,
        info: &E::FrameInfo,
        state: &mut E::State,
        inner_map: &mut ElementInnerMap<E::Inner>,
    )
        ensures
            extends(old(inner_map).history(), final(inner_map).history()),
            frame_children_run(*self, final(inner_map).history(), reading_map(*old(inner_map)))
                == reading_map(*final(inner_map)),
        decreases self,
    {
        let ghost t0 = inner_map.history();
        let ghost c0 = reading_map(*inner_map);
        match self {
            Children::Empty => {},
            Children::Single(e) => {
                e.frame_recursive(context, info, state, inner_map);
            },
            Children::Pair(a, b) => {
                a.frame_recursive(context, info, state, inner_map);
                let ghost t1 = inner_map.history();
                b.frame_recursive(context, info, state, inner_map);
                proof {
                    let t2 = inner_map.history();
                    lemma_frame_children_stable(**a, t1, t2, c0);
                    lemma_extends_transitive(t0, t1, t2);
                }
            },
            Children::List(v) => {
                let mut i: usize = 0;
                while i < v.len()
                    invariant
                        i <= v.len(),
                        *self is List,
                        v@ == (*self)->List_0@,
                        extends(t0, inner_map.history()),
                        frame_list_run(v@.take(i as int), inner_map.history(), c0) == reading_map(
                            *inner_map,
                        ),
                    decreases v.len() - i,
                {
                    let ghost t1 = inner_map.history();
                    v[i].frame_recursive(context, info, state, inner_map);
                    proof {
                        let t2 = inner_map.history();
                        lemma_frame_list_stable(v@.take(i as int), t1, t2, c0);
                        assert(v@.take(i + 1).drop_last() =~= v@.take(i as int));
                        assert(v@.take(i + 1).last() == v@[i as int]);
                        lemma_extends_transitive(t0, t1, t2);
                    }
                    i += 1;
                }
                assert(v@.take(v.len() as int) =~= v@);
            },
            Children::Optional(o) => {
                match o {
                    Some(e) => {
                        e.frame_recursive(context, info, state, inner_map);
                    },
                    None => {},
                }
            },
        }
    }
}

} // verus!
