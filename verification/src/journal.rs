//! The record of what the engine asks of the leaves, and what the record of
//! each pass must look like.
//!
//! Creating a native resource may fail and a projection may come up empty:
//! neither is the engine's to decide. So a pass is not described by the one
//! record it must produce, but by a reading of the record it did produce. A
//! [`Cursor`] walks the record; each `*_run` function moves it over what one
//! element must have caused, taking the outcomes from the record itself, and
//! keeps account of which native resources are live and which shared
//! resources exist. A pass did its work if the reading ends well at the end
//! of the record.

use crate::element::{key_of, Children, Element, ElementWrapper};
use vstd::prelude::*;

verus! {

/// One thing that was done to a native resource, or asked of a projection.
/// No pass of the engine stores or lends out a handle by hand: a record that
/// holds such a call in the stretch of a pass is the record of no pass.
pub enum Call {
    /// A leaf was asked to make its native resource, to go under the scene
    /// node of the live resource `parent` (or under the root's, if `None`).
    /// `created` tells whether it did; if so the resource was stored.
    Create { key: u64, type_tag: u64, parent: Option<u64>, created: bool },
    /// A leaf was asked to bring its native resource up to date.
    Update { key: u64, type_tag: u64 },
    /// A leaf got its per-tick callback.
    Frame { key: u64, type_tag: u64 },
    /// The native resource of the key, if any, was removed.
    Destroy { key: u64 },
    /// A projection was applied; `present` tells whether it selected
    /// anything.
    Project { present: bool },
    /// A handle was put into the store by hand, past the engine.
    Store { key: u64, type_tag: u64 },
    /// A handle was lent out of the store for changing by hand, past the
    /// engine.
    Touch { key: u64 },
}

/// A reading position in a record, with the state of the stores there.
pub struct Cursor {
    /// Whether the record agreed with the reading so far.
    pub ok: bool,
    /// How many calls have been read.
    pub at: int,
    /// The keys that hold a native resource, each with the tag of its type.
    pub live: Map<u64, u64>,
    /// The types whose shared resource exists.
    pub shared: Set<u64>,
}

/// The cursor `c`, stopped because the record disagreed.
pub open spec fn stopped(c: Cursor) -> Cursor {
    Cursor { ok: false, at: c.at, live: c.live, shared: c.shared }
}

/// Reads one attempt to create the resource of `key`.
pub open spec fn step_create(
    t: Seq<Call>,
    c: Cursor,
    key: u64,
    type_tag: u64,
    parent: Option<u64>,
) -> Cursor {
    if c.ok && 0 <= c.at < t.len() && t[c.at] == (Call::Create {
        key,
        type_tag,
        parent,
        created: true,
    }) {
        Cursor {
            ok: true,
            at: c.at + 1,
            live: c.live.insert(key, type_tag),
            shared: c.shared.insert(type_tag),
        }
    } else if c.ok && 0 <= c.at < t.len() && t[c.at] == (Call::Create {
        key,
        type_tag,
        parent,
        created: false,
    }) {
        Cursor { ok: true, at: c.at + 1, live: c.live, shared: c.shared.insert(type_tag) }
    } else {
        stopped(c)
    }
}

/// Reads one update of the resource of `key`.
pub open spec fn step_update(t: Seq<Call>, c: Cursor, key: u64, type_tag: u64) -> Cursor {
    if c.ok && 0 <= c.at < t.len() && t[c.at] == (Call::Update { key, type_tag }) {
        Cursor { ok: true, at: c.at + 1, live: c.live, shared: c.shared.insert(type_tag) }
    } else {
        stopped(c)
    }
}

/// Reads one per-tick callback on the resource of `key`.
pub open spec fn step_frame(t: Seq<Call>, c: Cursor, key: u64, type_tag: u64) -> Cursor {
    if c.ok && 0 <= c.at < t.len() && t[c.at] == (Call::Frame { key, type_tag }) {
        Cursor { ok: true, at: c.at + 1, live: c.live, shared: c.shared }
    } else {
        stopped(c)
    }
}

/// Reads one removal of the resource of `key`.
pub open spec fn step_destroy(t: Seq<Call>, c: Cursor, key: u64) -> Cursor {
    if c.ok && 0 <= c.at < t.len() && t[c.at] == (Call::Destroy { key }) {
        Cursor { ok: true, at: c.at + 1, live: c.live.remove(key), shared: c.shared }
    } else {
        stopped(c)
    }
}

/// Reads one application of a projection that selected something
/// (`present`) or nothing.
pub open spec fn step_project(t: Seq<Call>, c: Cursor, present: bool) -> Cursor {
    if c.ok && 0 <= c.at < t.len() && t[c.at] == (Call::Project { present }) {
        Cursor { ok: true, at: c.at + 1, live: c.live, shared: c.shared }
    } else {
        stopped(c)
    }
}

/// Whether the record `later` is the record `earlier` with more calls after
/// it.
pub open spec fn extends(earlier: Seq<Call>, later: Seq<Call>) -> bool {
    earlier.len() <= later.len() && forall|i: int|
        0 <= i < earlier.len() ==> #[trigger] later[i] == earlier[i]
}

/// Whether `key` holds a live resource of type `type_tag`.
pub open spec fn is_live(live: Map<u64, u64>, key: u64, type_tag: u64) -> bool {
    live.contains_key(key) && live[key] == type_tag
}

/// Whether the declaration `w` stands for a native resource: it has
/// parameters and a key.
pub open spec fn has_resource<E, F>(w: ElementWrapper<E, F>) -> bool {
    w.custom_element is Some && w.inner_key is Some
}

/// Whether the resource of the declaration `w` is live.
pub open spec fn wrapper_live<E, F>(w: ElementWrapper<E, F>, live: Map<u64, u64>) -> bool {
    has_resource(w) && is_live(live, w.inner_key->0, w.type_tag)
}

/// The resource under whose scene node the children of `w` go: that of `w`
/// if it is live, else the one `w` itself goes under.
pub open spec fn child_parent<E, F>(
    w: ElementWrapper<E, F>,
    live: Map<u64, u64>,
    under: Option<u64>,
) -> Option<u64> {
    if wrapper_live(w, live) {
        w.inner_key
    } else {
        under
    }
}

// ----------------------------------------------------------------------
// creating a subtree: the element first, then what is below it
// ----------------------------------------------------------------------
/// Reads the creation of `e` and everything below it.
pub open spec fn create_run<E, F>(
    e: Element<E, F>,
    under: Option<u64>,
    t: Seq<Call>,
    c: Cursor,
) -> Cursor
    decreases e,
{
    if !c.ok {
        c
    } else {
        match e {
            Element::Wrapper(w) => {
                let c1 = if has_resource(w) {
                    step_create(t, c, w.inner_key->0, w.type_tag, under)
                } else {
                    c
                };
                create_children_run(w.children, child_parent(w, c1.live, under), t, c1)
            },
            Element::Mapped(m) => create_run(*m.wrapped, under, t, c),
            Element::Dynamic(d) => create_run(*d.0, under, t, c),
        }
    }
}

/// Reads the creation of the children `ch`, in the order of declaration.
pub open spec fn create_children_run<E, F>(
    ch: Children<E, F>,
    under: Option<u64>,
    t: Seq<Call>,
    c: Cursor,
) -> Cursor
    decreases ch,
{
    if !c.ok {
        c
    } else {
        match ch {
            Children::Empty => c,
            Children::Single(e) => create_run(*e, under, t, c),
            Children::Pair(a, b) => create_children_run(
                *b,
                under,
                t,
                create_children_run(*a, under, t, c),
            ),
            Children::List(v) => create_list_run(v@, under, t, c),
            Children::Optional(o) => match o {
                Some(e) => create_run(*e, under, t, c),
                None => c,
            },
        }
    }
}

/// Reads the creation of the elements of `v`, first to last.
pub open spec fn create_list_run<E, F>(
    v: Seq<Element<E, F>>,
    under: Option<u64>,
    t: Seq<Call>,
    c: Cursor,
) -> Cursor
    decreases v,
{
    if !c.ok {
        c
    } else {
        if v.len() == 0 {
            c
        } else {
            create_run(v.last(), under, t, create_list_run(v.drop_last(), under, t, c))
        }
    }
}

// ----------------------------------------------------------------------
// destroying a subtree: what is below the element first, then the element
// ----------------------------------------------------------------------
/// Reads the destruction of `e` and everything below it.
pub open spec fn destroy_run<E, F>(e: Element<E, F>, t: Seq<Call>, c: Cursor) -> Cursor
    decreases e,
{
    if !c.ok {
        c
    } else {
        match e {
            Element::Wrapper(w) => {
                let c1 = destroy_children_run(w.children, t, c);
                match w.inner_key {
                    Some(key) => step_destroy(t, c1, key),
                    None => c1,
                }
            },
            Element::Mapped(m) => destroy_run(*m.wrapped, t, c),
            Element::Dynamic(d) => destroy_run(*d.0, t, c),
        }
    }
}

/// Reads the destruction of the children `ch`, in the order of declaration.
pub open spec fn destroy_children_run<E, F>(ch: Children<E, F>, t: Seq<Call>, c: Cursor) -> Cursor
    decreases ch,
{
    if !c.ok {
        c
    } else {
        match ch {
            Children::Empty => c,
            Children::Single(e) => destroy_run(*e, t, c),
            Children::Pair(a, b) => destroy_children_run(*b, t, destroy_children_run(*a, t, c)),
            Children::List(v) => destroy_list_run(v@, t, c),
            Children::Optional(o) => match o {
                Some(e) => destroy_run(*e, t, c),
                None => c,
            },
        }
    }
}

/// Reads the destruction of the elements of `v`, first to last.
pub open spec fn destroy_list_run<E, F>(v: Seq<Element<E, F>>, t: Seq<Call>, c: Cursor) -> Cursor
    decreases v,
{
    if !c.ok {
        c
    } else {
        if v.len() == 0 {
            c
        } else {
            destroy_run(v.last(), t, destroy_list_run(v.drop_last(), t, c))
        }
    }
}

// ----------------------------------------------------------------------
// the per-tick pass
// ----------------------------------------------------------------------
/// Reads the per-tick pass over `e`: a callback for each live resource, the
/// element before what is below it; nothing below a projection that selects
/// nothing.
pub open spec fn frame_run<E, F>(e: Element<E, F>, t: Seq<Call>, c: Cursor) -> Cursor
    decreases e,
{
    if !c.ok {
        c
    } else {
        match e {
            Element::Wrapper(w) => {
                let c1 = if wrapper_live(w, c.live) {
                    step_frame(t, c, w.inner_key->0, w.type_tag)
                } else {
                    c
                };
                frame_children_run(w.children, t, c1)
            },
            Element::Mapped(m) => match m.mapper {
                Some(_) => {
                    let present = step_project(t, c, true);
                    if present.ok {
                        frame_run(*m.wrapped, t, present)
                    } else {
                        step_project(t, c, false)
                    }
                },
                None => c,
            },
            Element::Dynamic(d) => frame_run(*d.0, t, c),
        }
    }
}

/// Reads the per-tick pass over the children `ch`.
pub open spec fn frame_children_run<E, F>(ch: Children<E, F>, t: Seq<Call>, c: Cursor) -> Cursor
    decreases ch,
{
    if !c.ok {
        c
    } else {
        match ch {
            Children::Empty => c,
            Children::Single(e) => frame_run(*e, t, c),
            Children::Pair(a, b) => frame_children_run(*b, t, frame_children_run(*a, t, c)),
            Children::List(v) => frame_list_run(v@, t, c),
            Children::Optional(o) => match o {
                Some(e) => frame_run(*e, t, c),
                None => c,
            },
        }
    }
}

/// Reads the per-tick pass over the elements of `v`, first to last.
pub open spec fn frame_list_run<E, F>(v: Seq<Element<E, F>>, t: Seq<Call>, c: Cursor) -> Cursor
    decreases v,
{
    if !c.ok {
        c
    } else {
        if v.len() == 0 {
            c
        } else {
            frame_run(v.last(), t, frame_list_run(v.drop_last(), t, c))
        }
    }
}

// ----------------------------------------------------------------------
// type identity
// ----------------------------------------------------------------------
/// Whether `a` and `b` have the same type all the way down: the same kinds
/// of node with the same type tags in the same structure. What a list or an
/// optional child holds, and what stands behind a dynamic element, is no part
/// of the type.
pub open spec fn same_type<E, F>(a: Element<E, F>, b: Element<E, F>) -> bool
    decreases a,
{
    match (a, b) {
        (Element::Wrapper(x), Element::Wrapper(y)) => x.type_tag == y.type_tag
            && same_type_children(x.children, y.children),
        (Element::Mapped(x), Element::Mapped(y)) => same_type(*x.wrapped, *y.wrapped),
        (Element::Dynamic(_), Element::Dynamic(_)) => true,
        _ => false,
    }
}

/// Whether the children `a` and `b` have the same type all the way down.
pub open spec fn same_type_children<E, F>(a: Children<E, F>, b: Children<E, F>) -> bool
    decreases a,
{
    match (a, b) {
        (Children::Empty, Children::Empty) => true,
        (Children::Single(x), Children::Single(y)) => same_type(*x, *y),
        (Children::Pair(xa, xb), Children::Pair(ya, yb)) => same_type_children(*xa, *ya)
            && same_type_children(*xb, *yb),
        (Children::List(_), Children::List(_)) => true,
        (Children::Optional(_), Children::Optional(_)) => true,
        _ => false,
    }
}

// ----------------------------------------------------------------------
// comparing the new description with the old one
// ----------------------------------------------------------------------
/// Whether the declarations `n` and `o` are the same node on two ticks: the
/// same key, the same type, and both or neither with parameters.
pub open spec fn wrappers_match<E, F>(n: ElementWrapper<E, F>, o: ElementWrapper<E, F>) -> bool {
    n.inner_key == o.inner_key && n.type_tag == o.type_tag && (n.custom_element is Some) == (
    o.custom_element is Some)
}

/// Whether an element of `v` carries the key `key`.
pub open spec fn has_key<E, F>(v: Seq<Element<E, F>>, key: Option<u64>) -> bool {
    exists|j: int| 0 <= j < v.len() && key_of(#[trigger] v[j]) == key
}

/// Whether `v[j]` is the first element of `v` that carries the key `key`.
pub open spec fn is_first_with_key<E, F>(v: Seq<Element<E, F>>, key: Option<u64>, j: int) -> bool {
    &&& 0 <= j < v.len()
    &&& key_of(v[j]) == key
    &&& forall|k: int| 0 <= k < j ==> key_of(#[trigger] v[k]) != key
}

/// The index of the first element of `v` that carries the key `key`.
pub open spec fn first_with_key<E, F>(v: Seq<Element<E, F>>, key: Option<u64>) -> int {
    choose|j: int| is_first_with_key(v, key, j)
}

/// Reads the replacement of `old_e` by `new_e`: the old subtree is destroyed,
/// then the new one is created.
pub open spec fn replace_run<E, F>(
    new_e: Element<E, F>,
    old_e: Element<E, F>,
    under: Option<u64>,
    t: Seq<Call>,
    c: Cursor,
) -> Cursor {
    create_run(new_e, under, t, destroy_run(old_e, t, c))
}

/// Reads the replacement of the children `old_ch` by `new_ch`.
pub open spec fn replace_children_run<E, F>(
    new_ch: Children<E, F>,
    old_ch: Children<E, F>,
    under: Option<u64>,
    t: Seq<Call>,
    c: Cursor,
) -> Cursor {
    create_children_run(new_ch, under, t, destroy_children_run(old_ch, t, c))
}

/// Reads the comparison of `new_e` with `old_e`, which stood in its place on
/// the previous tick.
///
/// Two declarations that match are one node: its resource, if live, is
/// updated, and the children are compared. Two that do not match are
/// replaced. Behind a projection the comparison goes on only if the
/// projection selects something now. What stands behind a dynamic
/// element is compared only if its type is the same all the way down, and
/// replaced otherwise. Different kinds of node are replaced.
pub open spec fn diff_run<E, F>(
    new_e: Element<E, F>,
    old_e: Element<E, F>,
    under: Option<u64>,
    t: Seq<Call>,
    c: Cursor,
) -> Cursor
    decreases new_e,
{
    if !c.ok {
        c
    } else {
        match (new_e, old_e) {
            (Element::Wrapper(n), Element::Wrapper(o)) => {
                if wrappers_match(n, o) {
                    let c1 = if wrapper_live(n, c.live) {
                        step_update(t, c, n.inner_key->0, n.type_tag)
                    } else {
                        c
                    };
                    diff_children_run(
                        n.children,
                        o.children,
                        child_parent(n, c1.live, under),
                        t,
                        c1,
                    )
                } else {
                    replace_run(new_e, old_e, under, t, c)
                }
            },
            (Element::Mapped(n), Element::Mapped(o)) => match n.mapper {
            Some(_) => {
                let present = step_project(t, c, true);
                if present.ok {
                    diff_run(*n.wrapped, *o.wrapped, under, t, present)
                } else {
                    step_project(t, c, false)
                }
            },
            None => c,
        },
            (Element::Dynamic(n), Element::Dynamic(o)) => {
                if same_type(*n.0, *o.0) {
                    diff_run(*n.0, *o.0, under, t, c)
                } else {
                    replace_run(*n.0, *o.0, under, t, c)
                }
            },
            _ => replace_run(new_e, old_e, under, t, c),
        }
    }
}

/// Reads the comparison of the children `new_ch` with `old_ch`. Children of
/// the same structure are compared part by part; a list is compared by key;
/// children of different structure are replaced.
pub open spec fn diff_children_run<E, F>(
    new_ch: Children<E, F>,
    old_ch: Children<E, F>,
    under: Option<u64>,
    t: Seq<Call>,
    c: Cursor,
) -> Cursor
    decreases new_ch,
{
    if !c.ok {
        c
    } else {
        match (new_ch, old_ch) {
            (Children::Empty, Children::Empty) => c,
            (Children::Single(n), Children::Single(o)) => diff_run(*n, *o, under, t, c),
            (Children::Pair(na, nb), Children::Pair(oa, ob)) => diff_children_run(
                *nb,
                *ob,
                under,
                t,
                diff_children_run(*na, *oa, under, t, c),
            ),
            (Children::List(nv), Children::List(ov)) => added_run(
                nv@,
                ov@,
                under,
                t,
                removed_run(ov@, nv@, t, common_run(nv@, ov@, under, t, c)),
            ),
            (Children::Optional(n), Children::Optional(o)) => match (n, o) {
                (Some(p), Some(q)) => diff_run(*p, *q, under, t, c),
                (Some(p), None) => create_run(*p, under, t, c),
                (None, Some(q)) => destroy_run(*q, t, c),
                (None, None) => c,
            },
            _ => replace_children_run(new_ch, old_ch, under, t, c),
        }
    }
}

/// Reads the comparison of `new_e` with `old_e` where nothing is known of
/// their types: they are compared if their types are the same all the way
/// down, and `old_e` is replaced by `new_e` otherwise.
pub open spec fn diff_dynamic_run<E, F>(
    new_e: Element<E, F>,
    old_e: Element<E, F>,
    under: Option<u64>,
    t: Seq<Call>,
    c: Cursor,
) -> Cursor {
    if same_type(new_e, old_e) {
        diff_run(new_e, old_e, under, t, c)
    } else {
        replace_run(new_e, old_e, under, t, c)
    }
}

/// The cursor `c` with `shared` for the types whose shared resource exists.
pub open spec fn with_shared(c: Cursor, shared: Set<u64>) -> Cursor {
    Cursor { ok: c.ok, at: c.at, live: c.live, shared }
}

/// Reads the first part of the comparison of two lists: each element of
/// `nv` whose key also occurs in `ov`, in the order of `nv`, is compared
/// with the first element of `ov` that carries the key.
pub open spec fn common_run<E, F>(
    nv: Seq<Element<E, F>>,
    ov: Seq<Element<E, F>>,
    under: Option<u64>,
    t: Seq<Call>,
    c: Cursor,
) -> Cursor
    decreases nv,
{
    if !c.ok {
        c
    } else {
        if nv.len() == 0 {
            c
        } else {
            let c0 = common_run(nv.drop_last(), ov, under, t, c);
            let key = key_of(nv.last());
            if has_key(ov, key) {
                diff_run(nv.last(), ov[first_with_key(ov, key)], under, t, c0)
            } else {
                c0
            }
        }
    }
}

/// Reads the second part of the comparison of two lists: each element of
/// `ov` whose key does not occur in `nv`, in the order of `ov`, is
/// destroyed.
pub open spec fn removed_run<E, F>(
    ov: Seq<Element<E, F>>,
    nv: Seq<Element<E, F>>,
    t: Seq<Call>,
    c: Cursor,
) -> Cursor
    decreases ov,
{
    if !c.ok {
        c
    } else {
        if ov.len() == 0 {
            c
        } else {
            let c0 = removed_run(ov.drop_last(), nv, t, c);
            if has_key(nv, key_of(ov.last())) {
                c0
            } else {
                destroy_run(ov.last(), t, c0)
            }
        }
    }
}

/// Reads the last part of the comparison of two lists: each element of `nv`
/// whose key does not occur in `ov`, in the order of `nv`, is created.
pub open spec fn added_run<E, F>(
    nv: Seq<Element<E, F>>,
    ov: Seq<Element<E, F>>,
    under: Option<u64>,
    t: Seq<Call>,
    c: Cursor,
) -> Cursor
    decreases nv,
{
    if !c.ok {
        c
    } else {
        if nv.len() == 0 {
            c
        } else {
            let c0 = added_run(nv.drop_last(), ov, under, t, c);
            if has_key(ov, key_of(nv.last())) {
                c0
            } else {
                create_run(nv.last(), under, t, c0)
            }
        }
    }
}

} // verus!
