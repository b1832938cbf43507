//! The description of a scene: a tree of declared elements, rebuilt on every
//! tick, and the combinators that build it.
//!
//! An element is a leaf declaration with its children ([`ElementWrapper`]), a
//! subtree seen through a projection of the state ([`Mapped`]), or a subtree
//! whose type may change from tick to tick ([`DynamicElement`]). The children
//! of a declaration are given by structure: nothing, one child, two groups
//! side by side, a list, or a child that may be absent.

use crate::custom::CustomElement;
use crate::key::{feed, generate_stable_id};
use std::hash::{Hash, Hasher};
use crate::key::{
    generate_keyed_inner_key, generate_positional_inner_key, keyed_inner_key,
    positional_inner_key,
};
use vstd::prelude::*;

verus! {

/// The type tag under which a [`DynamicElement`] takes its slot, whatever it
/// holds.
pub const DYNAMIC_TYPE_TAG: u64 = 0;

/// The type tag under which the two halves of [`Children::Pair`] take their
/// scopes.
pub const GROUP_TYPE_TAG: u64 = 1;

/// One declared leaf with its children.
pub struct ElementWrapper<E, F> {
    /// The declared parameters.
    pub custom_element: Option<E>,
    /// What is declared below this element.
    pub children: Children<E, F>,
    /// The identity that the application gave the element, if it gave one.
    pub stable_id: Option<u64>,
    /// The key, once it has been assigned.
    pub inner_key: Option<u64>,
    /// The tag of the declared type.
    pub type_tag: u64,
}

/// A subtree that sees the state through a projection.
pub struct Mapped<E, F> {
    pub wrapped: Box<Element<E, F>>,
    pub mapper: Option<F>,
}

/// A subtree whose type is checked when it is compared, not assumed.
pub struct DynamicElement<E, F>(pub Box<Element<E, F>>);

/// One node of the description.
pub enum Element<E, F> {
    Wrapper(ElementWrapper<E, F>),
    Mapped(Mapped<E, F>),
    Dynamic(DynamicElement<E, F>),
}

/// The children of a declaration.
pub enum Children<E, F> {
    Empty,
    Single(Box<Element<E, F>>),
    Pair(Box<Children<E, F>>, Box<Children<E, F>>),
    List(Vec<Element<E, F>>),
    Optional(Option<Box<Element<E, F>>>),
}

/// An element that can be given an identity of its own, so that it keeps its
/// key when its siblings come, go or change places.
pub trait Identifiable: Sized {
    /// The same element, identified by the digest of `h`.
    fn identify<H: Hash>(self, h: &H) -> Self;
}

/// The tag under which an element takes its slot.
pub open spec fn declared_tag<E, F>(e: Element<E, F>) -> u64
    decreases e,
{
    match e {
        Element::Wrapper(w) => w.type_tag,
        Element::Mapped(m) => declared_tag(*m.wrapped),
        Element::Dynamic(_) => DYNAMIC_TYPE_TAG,
    }
}

/// The identity that an element was given, if any.
pub open spec fn stable_id_of<E, F>(e: Element<E, F>) -> Option<u64>
    decreases e,
{
    match e {
        Element::Wrapper(w) => w.stable_id,
        Element::Mapped(m) => stable_id_of(*m.wrapped),
        Element::Dynamic(d) => stable_id_of(*d.0),
    }
}

/// The key that an element has been stamped with, if any.
pub open spec fn key_of<E, F>(e: Element<E, F>) -> Option<u64>
    decreases e,
{
    match e {
        Element::Wrapper(w) => w.inner_key,
        Element::Mapped(m) => key_of(*m.wrapped),
        Element::Dynamic(d) => key_of(*d.0),
    }
}

/// The key of the element that stands at `position` in the scope `scope`:
/// derived from its identity where it has one, from its position otherwise.
pub open spec fn slot_key<E, F>(scope: u64, position: usize, e: Element<E, F>) -> u64 {
    match stable_id_of(e) {
        Some(id) => keyed_inner_key(scope, id, declared_tag(e)),
        None => positional_inner_key(scope, position, declared_tag(e)),
    }
}

/// The scope of the first (`half == 0`) or second (`half == 1`) half of a pair
/// of groups that stands in `scope`.
pub open spec fn group_scope(scope: u64, half: usize) -> u64 {
    positional_inner_key(scope, half, GROUP_TYPE_TAG)
}

/// Whether every declaration in `e` carries the key that derives from `key`
/// for `e` itself.
pub open spec fn keyed<E, F>(e: Element<E, F>, key: u64) -> bool
    decreases e,
{
    match e {
        Element::Wrapper(w) => w.inner_key == Some(key) && keyed_children(w.children, key),
        Element::Mapped(m) => keyed(*m.wrapped, key),
        Element::Dynamic(d) => keyed(*d.0, key),
    }
}

/// Whether every declaration in `c` carries the key that derives from its
/// place in the scope `scope`.
pub open spec fn keyed_children<E, F>(c: Children<E, F>, scope: u64) -> bool
    decreases c,
{
    match c {
        Children::Empty => true,
        Children::Single(e) => keyed(*e, slot_key(scope, 0, *e)),
        Children::Pair(a, b) => keyed_children(*a, group_scope(scope, 0)) && keyed_children(
            *b,
            group_scope(scope, 1),
        ),
        Children::List(v) => forall|i: int|
            0 <= i < v.len() ==> keyed(#[trigger] v[i], slot_key(scope, i as usize, v[i])),
        Children::Optional(o) => match o {
            Some(e) => keyed(*e, slot_key(scope, 0, *e)),
            None => true,
        },
    }
}

/// Whether `a` and `b` declare the same: equal in everything but the keys
/// they are stamped with.
pub open spec fn same_declaration<E, F>(a: Element<E, F>, b: Element<E, F>) -> bool
    decreases a,
{
    match (a, b) {
        (Element::Wrapper(x), Element::Wrapper(y)) => x.custom_element == y.custom_element
            && x.stable_id == y.stable_id && x.type_tag == y.type_tag
            && same_declaration_children(x.children, y.children),
        (Element::Mapped(x), Element::Mapped(y)) => x.mapper == y.mapper && same_declaration(
            *x.wrapped,
            *y.wrapped,
        ),
        (Element::Dynamic(x), Element::Dynamic(y)) => same_declaration(*x.0, *y.0),
        _ => false,
    }
}

/// Whether `a` and `b` declare the same children, keys aside.
pub open spec fn same_declaration_children<E, F>(a: Children<E, F>, b: Children<E, F>) -> bool
    decreases a,
{
    match (a, b) {
        (Children::Empty, Children::Empty) => true,
        (Children::Single(x), Children::Single(y)) => same_declaration(*x, *y),
        (Children::Pair(xa, xb), Children::Pair(ya, yb)) => same_declaration_children(*xa, *ya)
            && same_declaration_children(*xb, *yb),
        (Children::List(v), Children::List(w)) => v.len() == w.len() && forall|i: int|
            0 <= i < v.len() ==> same_declaration(#[trigger] v[i], w[i]),
        (Children::Optional(x), Children::Optional(y)) => match (x, y) {
            (Some(p), Some(q)) => same_declaration(*p, *q),
            (None, None) => true,
            _ => false,
        },
        _ => false,
    }
}


impl<E: CustomElement, F> ElementWrapper<E, F> {
    /// The declaration of a leaf of type `type_tag` with the parameters
    /// `custom_element`: no children, no identity, no key yet.
    pub fn with_type_tag(custom_element: E, type_tag: u64) -> (wrapper: Self)
        ensures
            wrapper == (ElementWrapper::<E, F> {
                custom_element: Some(custom_element),
                children: Children::Empty,
                stable_id: None,
                inner_key: None,
                type_tag,
            }),
    {
        ElementWrapper {
            custom_element: Some(custom_element),
            children: Children::Empty,
            stable_id: None,
            inner_key: None,
            type_tag,
        }
    }

    /// The declaration of a leaf with the parameters `custom_element`, under
    /// the type tag that the leaf names: no children, no identity, no key
    /// yet.
    pub fn new(custom_element: E) -> (wrapper: Self)
        ensures
            wrapper.custom_element == Some(custom_element),
            wrapper.children == Children::<E, F>::Empty,
            wrapper.stable_id == None::<u64>,
            wrapper.inner_key == None::<u64>,
            call_ensures(E::type_tag, (&custom_element,), wrapper.type_tag),
    {
        let type_tag = custom_element.type_tag();
        ElementWrapper::with_type_tag(custom_element, type_tag)
    }
}

impl<E, F> ElementWrapper<E, F> {
    /// The same declaration with `group` as one more group of children,
    /// behind those it has.
    pub fn group(self, group: Children<E, F>) -> (wrapper: Self)
        ensures
            wrapper == (ElementWrapper::<E, F> {
                children: Children::Pair(Box::new(self.children), Box::new(group)),
                ..self
            }),
    {
        ElementWrapper {
            custom_element: self.custom_element,
            children: Children::Pair(Box::new(self.children), Box::new(group)),
            stable_id: self.stable_id,
            inner_key: self.inner_key,
            type_tag: self.type_tag,
        }
    }

    /// The same declaration with one more child, behind the children it has.
    pub fn child(self, child: Element<E, F>) -> (wrapper: Self)
        ensures
            wrapper == (ElementWrapper::<E, F> {
                children: Children::Pair(
                    Box::new(self.children),
                    Box::new(Children::Single(Box::new(child))),
                ),
                ..self
            }),
    {
        self.group(Children::Single(Box::new(child)))
    }

    /// The same declaration with a list of children more, behind the
    /// children it has.
    pub fn children(self, children: Vec<Element<E, F>>) -> (wrapper: Self)
        ensures
            wrapper == (ElementWrapper::<E, F> {
                children: Children::Pair(
                    Box::new(self.children),
                    Box::new(Children::List(children)),
                ),
                ..self
            }),
    {
        self.group(Children::List(children))
    }

    /// The same declaration with one more child that may be absent, behind
    /// the children it has.
    pub fn maybe_child(self, child: Option<Element<E, F>>) -> (wrapper: Self)
        ensures
            wrapper == (ElementWrapper::<E, F> {
                children: Children::Pair(
                    Box::new(self.children),
                    Box::new(
                        Children::Optional(
                            match child {
                                Some(e) => Some(Box::new(e)),
                                None => None,
                            },
                        ),
                    ),
                ),
                ..self
            }),
    {
        let boxed = match child {
            Some(e) => Some(Box::new(e)),
            None => None,
        };
        self.group(Children::Optional(boxed))
    }

    /// The same declaration, identified by `stable_id` in place of its
    /// position.
    pub fn with_stable_id(self, stable_id: u64) -> (wrapper: Self)
        ensures
            wrapper == (ElementWrapper::<E, F> { stable_id: Some(stable_id), ..self }),
    {
        ElementWrapper {
            custom_element: self.custom_element,
            children: self.children,
            stable_id: Some(stable_id),
            inner_key: self.inner_key,
            type_tag: self.type_tag,
        }
    }

    /// This declaration as an element.
    pub fn element(self) -> (e: Element<E, F>)
        ensures
            e == Element::Wrapper(self),
    {
        Element::Wrapper(self)
    }
}

impl<E, F> From<ElementWrapper<E, F>> for Element<E, F> {
    fn from(wrapper: ElementWrapper<E, F>) -> (e: Self) {
        Element::Wrapper(wrapper)
    }
}

impl<E, F> vstd::std_specs::convert::FromSpecImpl<ElementWrapper<E, F>> for Element<E, F> {
    open spec fn obeys_from_spec() -> bool {
        true
    }

    open spec fn from_spec(wrapper: ElementWrapper<E, F>) -> Self {
        Element::Wrapper(wrapper)
    }
}

impl<E, F> From<Mapped<E, F>> for Element<E, F> {
    fn from(mapped: Mapped<E, F>) -> (e: Self) {
        Element::Mapped(mapped)
    }
}

impl<E, F> vstd::std_specs::convert::FromSpecImpl<Mapped<E, F>> for Element<E, F> {
    open spec fn obeys_from_spec() -> bool {
        true
    }

    open spec fn from_spec(mapped: Mapped<E, F>) -> Self {
        Element::Mapped(mapped)
    }
}

impl<E, F> From<DynamicElement<E, F>> for Element<E, F> {
    fn from(dynamic: DynamicElement<E, F>) -> (e: Self) {
        Element::Dynamic(dynamic)
    }
}

impl<E, F> vstd::std_specs::convert::FromSpecImpl<DynamicElement<E, F>> for Element<E, F> {
    open spec fn obeys_from_spec() -> bool {
        true
    }

    open spec fn from_spec(dynamic: DynamicElement<E, F>) -> Self {
        Element::Dynamic(dynamic)
    }
}

impl<E, F> Identifiable for ElementWrapper<E, F> {
    /// The same declaration, identified by the digest of `h` in place of its
    /// position.
    fn identify<H: Hash>(self, h: &H) -> (wrapper: Self)
        ensures
            wrapper.stable_id is Some,
            wrapper == (ElementWrapper::<E, F> { stable_id: wrapper.stable_id, ..self }),
    {
        let stable_id = generate_stable_id(h);
        self.with_stable_id(stable_id)
    }
}

impl<E, F> Mapped<E, F> {
    /// The subtree `wrapped`, seen through the projection `mapper`.
    pub fn new(wrapped: Element<E, F>, mapper: F) -> (mapped: Self)
        ensures
            mapped == (Mapped { wrapped: Box::new(wrapped), mapper: Some(mapper) }),
    {
        Mapped { wrapped: Box::new(wrapped), mapper: Some(mapper) }
    }

    /// The same subtree behind the same projection, identified by
    /// `stable_id`.
    pub fn with_stable_id(self, stable_id: u64) -> (mapped: Self)
        ensures
            mapped.mapper == self.mapper,
            *mapped.wrapped == set_stable_id(*self.wrapped, stable_id),
        decreases self,
    {
        let Mapped { wrapped, mapper } = self;
        Mapped { wrapped: Box::new((*wrapped).with_stable_id(stable_id)), mapper }
    }
}

impl<E, F> Identifiable for Mapped<E, F> {
    /// The same subtree behind the same projection, identified by the digest
    /// of `h`.
    fn identify<H: Hash>(self, h: &H) -> (mapped: Self)
        ensures
            mapped.mapper == self.mapper,
            stable_id_of(*mapped.wrapped) is Some,
            *mapped.wrapped == set_stable_id(
                *self.wrapped,
                stable_id_of(*mapped.wrapped)->0,
            ),
    {
        let stable_id = generate_stable_id(h);
        let mapped = self.with_stable_id(stable_id);
        proof {
            lemma_set_stable_id(*self.wrapped, stable_id);
        }
        mapped
    }
}

impl<E, F> DynamicElement<E, F> {
    /// The subtree `element`, with its type left open.
    pub fn new(element: Element<E, F>) -> (dynamic: Self)
        ensures
            dynamic == DynamicElement(Box::new(element)),
    {
        DynamicElement(Box::new(element))
    }
}

/// The element `e`, identified by `stable_id`: the identity goes to the
/// declaration that `e` stands for, through projections and dynamic
/// elements.
pub open spec fn set_stable_id<E, F>(e: Element<E, F>, stable_id: u64) -> Element<E, F>
    decreases e,
{
    match e {
        Element::Wrapper(w) => Element::Wrapper(
            ElementWrapper { stable_id: Some(stable_id), ..w },
        ),
        Element::Mapped(m) => Element::Mapped(
            Mapped { wrapped: Box::new(set_stable_id(*m.wrapped, stable_id)), mapper: m.mapper },
        ),
        Element::Dynamic(d) => Element::Dynamic(
            DynamicElement(Box::new(set_stable_id(*d.0, stable_id))),
        ),
    }
}

/// An element that was given an identity has it.
pub proof fn lemma_set_stable_id<E, F>(e: Element<E, F>, stable_id: u64)
    ensures
        stable_id_of(set_stable_id(e, stable_id)) == Some(stable_id),
        declared_tag(set_stable_id(e, stable_id)) == declared_tag(e),
    decreases e,
{
    match e {
        Element::Wrapper(w) => {},
        Element::Mapped(m) => {
            lemma_set_stable_id(*m.wrapped, stable_id);
        },
        Element::Dynamic(d) => {
            lemma_set_stable_id(*d.0, stable_id);
        },
    }
}

impl<E, F> Element<E, F> {
    /// This element, seen through the projection `mapper`: its per-tick
    /// callbacks get the part of the state that `mapper` selects, and none
    /// while it selects nothing.
    pub fn map(self, mapper: F) -> (e: Self)
        ensures
            e == Element::Mapped(Mapped { wrapped: Box::new(self), mapper: Some(mapper) }),
    {
        Element::Mapped(Mapped::new(self, mapper))
    }

    /// This element with its type left open, for a place where the type may
    /// change from tick to tick.
    pub fn dynamic(self) -> (e: Self)
        ensures
            e == Element::Dynamic(DynamicElement(Box::new(self))),
    {
        Element::Dynamic(DynamicElement::new(self))
    }

    /// This element, identified by `stable_id` in place of its position.
    pub fn with_stable_id(self, stable_id: u64) -> (e: Self)
        ensures
            e == set_stable_id(self, stable_id),
        decreases self,
    {
        match self {
            Element::Wrapper(w) => Element::Wrapper(w.with_stable_id(stable_id)),
            Element::Mapped(m) => Element::Mapped(m.with_stable_id(stable_id)),
            Element::Dynamic(d) => Element::Dynamic(
                DynamicElement(Box::new((*d.0).with_stable_id(stable_id))),
            ),
        }
    }

    /// The tag under which this element takes its slot.
    pub fn declared_tag(&self) -> (tag: u64)
        ensures
            tag == declared_tag(*self),
        decreases self,
    {
        match self {
            Element::Wrapper(w) => w.type_tag,
            Element::Mapped(m) => m.wrapped.declared_tag(),
            Element::Dynamic(_) => DYNAMIC_TYPE_TAG,
        }
    }

    /// The identity that this element was given, if any.
    pub fn stable_id(&self) -> (id: Option<u64>)
        ensures
            id == stable_id_of(*self),
        decreases self,
    {
        match self {
            Element::Wrapper(w) => w.stable_id,
            Element::Mapped(m) => m.wrapped.stable_id(),
            Element::Dynamic(d) => d.0.stable_id(),
        }
    }

    /// The key that this element has been stamped with, if any.
    pub fn inner_key(&self) -> (key: Option<u64>)
        ensures
            key == key_of(*self),
        decreases self,
    {
        match self {
            Element::Wrapper(w) => w.inner_key,
            Element::Mapped(m) => m.wrapped.inner_key(),
            Element::Dynamic(d) => d.0.inner_key(),
        }
    }
}

/// Two elements that declare the same take their slots under the same tag
/// and the same identity.
pub proof fn lemma_same_declaration_slot<E, F>(a: Element<E, F>, b: Element<E, F>)
    requires
        same_declaration(a, b),
    ensures
        declared_tag(a) == declared_tag(b),
        stable_id_of(a) == stable_id_of(b),
        forall|scope: u64, position: usize|
            slot_key(scope, position, a) == slot_key(scope, position, b),
    decreases a,
{
    match (a, b) {
        (Element::Mapped(x), Element::Mapped(y)) => {
            lemma_same_declaration_slot(*x.wrapped, *y.wrapped);
        },
        (Element::Dynamic(x), Element::Dynamic(y)) => {
            lemma_same_declaration_slot(*x.0, *y.0);
        },
        _ => {},
    }
}

impl<E, F> Identifiable for Element<E, F> {
    /// This element, identified by the digest of `h` in place of its
    /// position.
    fn identify<H: Hash>(self, h: &H) -> (e: Self)
        ensures
            stable_id_of(e) is Some,
            e == set_stable_id(self, stable_id_of(e)->0),
    {
        let stable_id = generate_stable_id(h);
        proof {
            lemma_set_stable_id(self, stable_id);
        }
        self.with_stable_id(stable_id)
    }
}

/// Whether two keys are the same, where an element without a key has the key
/// `None`.
pub fn same_key(a: Option<u64>, b: Option<u64>) -> (same: bool)
    ensures
        same == (a == b),
{
    match (a, b) {
        (Some(x), Some(y)) => x == y,
        (None, None) => true,
        _ => false,
    }
}

impl<E, F> PartialEq for Element<E, F> {
    /// Two elements are equal, for the purposes of comparison, exactly if
    /// they carry the same key.
    fn eq(&self, other: &Self) -> (equal: bool) {
        same_key(self.inner_key(), other.inner_key())
    }
}

impl<E, F> vstd::std_specs::cmp::PartialEqSpecImpl for Element<E, F> {
    open spec fn obeys_eq_spec() -> bool {
        true
    }

    open spec fn eq_spec(&self, other: &Self) -> bool {
        key_of(*self) == key_of(*other)
    }
}

impl<E, F> Eq for Element<E, F> {

}

impl<E, F> Hash for Element<E, F> {
    /// An element is hashed by its key, so that equal elements hash alike.
    fn hash<S: Hasher>(&self, state: &mut S) {
        let key = self.inner_key();
        feed(&key, state);
    }
}

impl<E, F> Element<E, F> {
    /// Whether this element and `other` are the same node: two elements are
    /// one node exactly if they carry the same key.
    pub fn same_node(&self, other: &Self) -> (same: bool)
        ensures
            same == (key_of(*self) == key_of(*other)),
    {
        same_key(self.inner_key(), other.inner_key())
    }
}

/// Derives the key of the element `e` that stands at `position` in `scope`.
pub fn generate_slot_key<E, F>(scope: u64, position: usize, e: &Element<E, F>) -> (key: u64)
    ensures
        key == slot_key(scope, position, *e),
{
    let tag = e.declared_tag();
    match e.stable_id() {
        Some(id) => generate_keyed_inner_key(scope, id, tag),
        None => generate_positional_inner_key(scope, position, tag),
    }
}

/// Stamps `element` and everything below it with keys, `element` itself with
/// `key`. Nothing but the keys changes.
pub fn apply_element_keys<E, F>(element: &mut Element<E, F>, key: u64)
    ensures
        keyed(*final(element), key),
        same_declaration(*old(element), *final(element)),
    decreases *old(element),
{
    match element {
        Element::Wrapper(w) => {
            w.inner_key = Some(key);
            apply_children_keys(&mut w.children, key);
        },
        Element::Mapped(m) => {
            apply_element_keys(&mut *m.wrapped, key);
        },
        Element::Dynamic(d) => {
            apply_element_keys(&mut *d.0, key);
        },
    }
}

/// Stamps every declaration in `children` with the key that derives from its
/// place in the scope `scope`.
pub fn apply_children_keys<E, F>(children: &mut Children<E, F>, scope: u64)
    ensures
        keyed_children(*final(children), scope),
        same_declaration_children(*old(children), *final(children)),
    decreases *old(children),
{
    match children {
        Children::Empty => {},
        Children::Single(e) => {
            let key = generate_slot_key(scope, 0, &**e);
            let ghost unstamped = **e;
            apply_element_keys(&mut **e, key);
            proof {
                lemma_same_declaration_slot(unstamped, **e);
            }
        },
        Children::Pair(a, b) => {
            let scope_a = generate_positional_inner_key(scope, 0, GROUP_TYPE_TAG);
            apply_children_keys(&mut **a, scope_a);
            let scope_b = generate_positional_inner_key(scope, 1, GROUP_TYPE_TAG);
            apply_children_keys(&mut **b, scope_b);
        },
        Children::List(v) => {
            let ghost before = v@;
            let mut i: usize = 0;
            while i < v.len()
                invariant
                    i <= v.len(),
                    v.len() == before.len(),
                    before == (*old(children))->List_0@,
                    *old(children) is List,
                    forall|j: int|
                        0 <= j < i ==> keyed(#[trigger] v[j], slot_key(scope, j as usize, v[j]))
                            && same_declaration(before[j], v[j]),
                    forall|j: int| i <= j < v.len() ==> #[trigger] v[j] == before[j],
                decreases v.len() - i,
            {
                let key = generate_slot_key(scope, i, &v[i]);
                let ghost unstamped = v[i as int];
                apply_element_keys(&mut v[i], key);
                proof {
                    lemma_same_declaration_slot(unstamped, v[i as int]);
                }
                i += 1;
            }
        },
        Children::Optional(o) => {
            match o {
                Some(e) => {
                    let key = generate_slot_key(scope, 0, &**e);
                    let ghost unstamped = **e;
                    apply_element_keys(&mut **e, key);
                    proof {
                        lemma_same_declaration_slot(unstamped, **e);
                    }
                },
                None => {},
            }
        },
    }
}

} // verus!
