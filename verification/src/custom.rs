//! What the engine asks of the leaves it drives, and of the application
//! state they run on.

use crate::element::ElementWrapper;
use vstd::prelude::*;

verus! {

/// What any application state must be.
pub trait ValidState: Sized + Send + Sync + 'static {

}

impl<T: Sized + Send + Sync + 'static> ValidState for T {

}

/// Where a native resource is to be made.
pub struct CreateInnerInfo<'a, Space> {
    /// The scene node under which the resource goes.
    pub parent_space: &'a Space,
    /// The path of the element in the tree, one segment per ancestor.
    pub element_path: &'a str,
}

/// A projection of the application state onto a part of it.
pub trait Mapper<State> {
    /// The part of `state` that the projection selects, if it is there now.
    fn project<'a>(&self, state: &'a mut State) -> Option<&'a mut State>;
}

/// The contract of a leaf: how the native resource behind one kind of
/// element is made, kept up to date and driven.
pub trait CustomElement: Sized {
    /// The application state that the per-tick callback may change.
    type State: ValidState;

    /// What every leaf is handed by the host.
    type Context;

    /// What the host reports about a tick.
    type FrameInfo;

    /// A reference to a scene node of the renderer.
    type Space;

    /// The native resource behind an element.
    type Inner;

    /// The state that all elements of one type share.
    type Resource: Default;

    /// Why a native resource could not be made.
    type Error;

    /// The tag of the declared type of this element.
    fn type_tag(&self) -> u64;

    /// The full name of the declared type of this element, module path and
    /// generic arguments included.
    fn full_name(&self) -> String;

    /// Makes the native resource.
    fn create_inner(
        &self,
        context: &Self::Context,
        info: CreateInnerInfo<'_, Self::Space>,
        resource: &mut Self::Resource,
    ) -> Result<Self::Inner, Self::Error>;

    /// Brings the native resource up to date. `old_self` is what was declared
    /// on the previous tick: the leaf compares and applies what changed.
    fn diff(&self, old_self: &Self, inner: &mut Self::Inner, resource: &mut Self::Resource);

    /// Called on every tick for as long as the native resource lives. A leaf
    /// that says nothing else does nothing on a tick.
    fn frame(
        &self,
        context: &Self::Context,
        info: &Self::FrameInfo,
        state: &mut Self::State,
        inner: &mut Self::Inner,
    ) {
    }

    /// The scene node under which the children of this element go.
    fn spatial_aspect(&self, inner: &Self::Inner) -> Self::Space;
}

/// What every leaf can do once it has its contract.
pub trait Build: CustomElement {
    /// The declaration of this leaf, ready to be given children and to be
    /// made the child of another.
    fn build<F>(self) -> ElementWrapper<Self, F>;
}

impl<E: CustomElement> Build for E {
    fn build<F>(self) -> (wrapper: ElementWrapper<Self, F>)
        ensures
            wrapper.custom_element == Some(self),
            wrapper.children == crate::element::Children::<E, F>::Empty,
            wrapper.stable_id == None::<u64>,
            wrapper.inner_key == None::<u64>,
            call_ensures(E::type_tag, (&self,), wrapper.type_tag),
    {
        ElementWrapper::new(self)
    }
}

/// A function that is part of what an element declares. Functions cannot be
/// compared, so any two count as equal: a declaration never differs from the
/// previous one by its callbacks alone.
pub struct FnWrapper<Signature: Send + Sync + ?Sized>(pub Box<Signature>);

impl<Signature: Send + Sync + ?Sized> FnWrapper<Signature> {
    /// How a wrapped function is shown.
    pub fn label(&self) -> (label: &'static str)
        ensures
            label@ == "Function"@,
    {
        "Function"
    }
}

impl<Signature: Send + Sync + ?Sized> PartialEq for FnWrapper<Signature> {
    fn eq(&self, other: &Self) -> (equal: bool) {
        true
    }
}

impl<Signature: Send + Sync + ?Sized> vstd::std_specs::cmp::PartialEqSpecImpl for FnWrapper<Signature> {
    open spec fn obeys_eq_spec() -> bool {
        true
    }

    open spec fn eq_spec(&self, other: &Self) -> bool {
        true
    }
}

} // verus!
