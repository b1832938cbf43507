//! A declarative reconciliation engine.
//!
//! Every tick the application describes its scene afresh as a tree of typed
//! elements. The engine stamps each element with a stable key, compares the
//! stamped tree with the one of the previous tick, and creates, updates or
//! destroys the native resources behind the elements so that they follow the
//! description, keeping the identity of long-lived resources across ticks.
//!
//! - [`custom`]: what the engine asks of a leaf, of a projection and of the
//!   application state.
//! - [`element`]: the description and the combinators that build it; the
//!   assignment of keys.
//! - [`key`]: how a key is derived.
//! - [`inner`] and [`resource`]: the two stores, native resources by key and
//!   shared resources by type. The first also keeps the record, and holds
//!   the only functions that write it.
//! - [`journal`]: the record of what the engine asks of the leaves, and what
//!   the record of each pass must look like.
//! - [`differ`]: creating, destroying and the per-tick callback.
//! - [`reconcile`]: the comparison of two descriptions; [`index`] finds the
//!   elements of a list by key.
//! - [`tree`] and [`projector`]: the engine as its driver sees it.
//! - [`laws`]: what holds of every pass; [`stability`]: the facts on growing
//!   records that the passes rest on.
//! - [`place`]: the scene node under which a subtree goes.
//! - [`path`]: element paths; [`elements`]: what some leaves declare.

pub mod custom;
pub mod differ;
pub mod element;
pub mod elements;
mod fxmap;
pub mod index;
pub mod inner;
pub mod journal;
pub mod key;
pub mod laws;
pub mod path;
pub mod place;
pub mod projector;
pub mod reconcile;
pub mod resource;
pub mod stability;
pub mod tree;

pub use crate::custom::{Build, CreateInnerInfo, CustomElement, FnWrapper, Mapper, ValidState};
pub use crate::element::{
    apply_element_keys, Children, DynamicElement, Element, ElementWrapper, Identifiable, Mapped,
};
pub use crate::inner::ElementInnerMap;
pub use crate::key::{generate_keyed_inner_key, generate_positional_inner_key};
pub use crate::projector::{Projector, Reify};
pub use crate::resource::ResourceRegistry;
pub use crate::tree::Trees;
