//! Where in the scene a subtree goes: a scene node, together with the
//! resource it belongs to.

use crate::custom::CustomElement;
use crate::inner::ElementInnerMap;
use vstd::prelude::*;

verus! {

/// The place under which a subtree goes. It is made in two ways only: from
/// the scene node that a pass was given, or from the native resource of a
/// declaration, whose leaf then names the scene node. So the scene node that
/// a leaf is handed and the resource that the record names for it cannot
/// come apart.
pub struct Parent<'a, S> {
    own: Option<S>,
    fallback: &'a S,
    under: Ghost<Option<u64>>,
}

impl<'a, S> Parent<'a, S> {
    /// The key of the live resource whose scene node this is, or `None` for
    /// the scene node that the pass was given.
    pub closed spec fn under(&self) -> Option<u64> {
        self.under@
    }

    /// The scene node.
    pub closed spec fn space(&self) -> S {
        match self.own {
            Some(space) => space,
            None => *self.fallback,
        }
    }

    /// The place that a pass is given: the scene node `space`, which belongs
    /// to no resource of the description.
    pub fn root(space: &'a S) -> (parent: Self)
        ensures
            parent.under() == None::<u64>,
            parent.space() == *space,
    {
        Parent { own: None, fallback: space, under: Ghost(None) }
    }

    /// The scene node.
    pub fn space_ref(&self) -> (space: &S)
        ensures
            *space == self.space(),
    {
        match &self.own {
            Some(space) => space,
            None => self.fallback,
        }
    }

    /// The key of the live resource whose scene node this is.
    pub(crate) fn label(&self) -> (label: Ghost<Option<u64>>)
        ensures
            label@ == self.under(),
    {
        self.under
    }

    /// The place under which the children of a declaration go. Where the
    /// declaration's resource is live, its leaf `custom` is asked for the
    /// scene node, and the place belongs to that resource; where it is not,
    /// the children go where the declaration itself was to go.
    pub fn below<'b, E: CustomElement<Space = S>>(
        custom: &E,
        inner_map: &ElementInnerMap<E::Inner>,
        key: u64,
        type_tag: u64,
        parent: &'a Parent<'b, S>,
    ) -> (child: Parent<'a, S>)
        ensures
            child.under() == (if inner_map.holds(key, type_tag) {
                Some(key)
            } else {
                parent.under()
            }),
            inner_map.holds(key, type_tag) ==> call_ensures(
                E::spatial_aspect,
                (custom, &inner_map@[key].inner),
                child.space(),
            ),
            !inner_map.holds(key, type_tag) ==> child.space() == parent.space(),
    {
        match inner_map.get(key, type_tag) {
            Some(inner) => {
                let space = custom.spatial_aspect(inner);
                Parent { own: Some(space), fallback: parent.space_ref(), under: Ghost(Some(key)) }
            },
            None => Parent { own: None, fallback: parent.space_ref(), under: parent.label() },
        }
    }
}

} // verus!
