//! A reading that ended well stays what it is when the record grows: it
//! looked only at calls that were already there.

use crate::element::{Children, Element};
use crate::journal::{
    added_run, common_run, create_children_run, create_list_run, create_run,
    destroy_children_run, destroy_list_run, destroy_run, diff_children_run, diff_run, extends,
    first_with_key, frame_children_run, frame_list_run, frame_run, has_key, is_first_with_key,
    removed_run, replace_children_run, replace_run, same_type, step_update, with_shared,
    wrapper_live, wrappers_match, Call, Cursor,
};
use crate::element::key_of;
use vstd::prelude::*;

verus! {

/// A record that extends an extension of a record extends that record.
pub proof fn lemma_extends_transitive(a: Seq<Call>, b: Seq<Call>, c: Seq<Call>)
    requires
        extends(a, b),
        extends(b, c),
    ensures
        extends(a, c),
{
    assert forall|i: int| 0 <= i < a.len() implies #[trigger] c[i] == a[i] by {
        assert(b[i] == a[i]);
    }
}

// ----------------------------------------------------------------------
// once a cursor has stopped, it stays where it is
// ----------------------------------------------------------------------
/// A reading of a creation that ended well began well.
pub proof fn lemma_create_ok<E, F>(e: Element<E, F>, under: Option<u64>, t: Seq<Call>, c: Cursor)
    ensures
        create_run(e, under, t, c).ok ==> c.ok,
{
}

/// A reading of the creation of children that ended well began well.
pub proof fn lemma_create_children_ok<E, F>(
    ch: Children<E, F>,
    under: Option<u64>,
    t: Seq<Call>,
    c: Cursor,
)
    ensures
        create_children_run(ch, under, t, c).ok ==> c.ok,
{
}

/// A reading of a destruction that ended well began well.
pub proof fn lemma_destroy_ok<E, F>(e: Element<E, F>, t: Seq<Call>, c: Cursor)
    ensures
        destroy_run(e, t, c).ok ==> c.ok,
{
}

/// A reading of the destruction of children that ended well began well.
pub proof fn lemma_destroy_children_ok<E, F>(ch: Children<E, F>, t: Seq<Call>, c: Cursor)
    ensures
        destroy_children_run(ch, t, c).ok ==> c.ok,
{
}

/// A reading of a per-tick pass that ended well began well.
pub proof fn lemma_frame_ok<E, F>(e: Element<E, F>, t: Seq<Call>, c: Cursor)
    ensures
        frame_run(e, t, c).ok ==> c.ok,
{
}

/// A reading of a per-tick pass over children that ended well began well.
pub proof fn lemma_frame_children_ok<E, F>(ch: Children<E, F>, t: Seq<Call>, c: Cursor)
    ensures
        frame_children_run(ch, t, c).ok ==> c.ok,
{
}

/// A reading of a comparison that ended well began well.
pub proof fn lemma_diff_ok<E, F>(
    new_e: Element<E, F>,
    old_e: Element<E, F>,
    under: Option<u64>,
    t: Seq<Call>,
    c: Cursor,
)
    ensures
        diff_run(new_e, old_e, under, t, c).ok ==> c.ok,
{
}

/// A reading of a comparison of children that ended well began well.
pub proof fn lemma_diff_children_ok<E, F>(
    new_ch: Children<E, F>,
    old_ch: Children<E, F>,
    under: Option<u64>,
    t: Seq<Call>,
    c: Cursor,
)
    ensures
        diff_children_run(new_ch, old_ch, under, t, c).ok ==> c.ok,
{
}

/// A reading of the removals for a list that ended well began well.
pub proof fn lemma_removed_ok<E, F>(
    ov: Seq<Element<E, F>>,
    nv: Seq<Element<E, F>>,
    t: Seq<Call>,
    c: Cursor,
)
    ensures
        removed_run(ov, nv, t, c).ok ==> c.ok,
{
}

/// A reading of the creations for a list that ended well began well.
pub proof fn lemma_added_ok<E, F>(
    nv: Seq<Element<E, F>>,
    ov: Seq<Element<E, F>>,
    under: Option<u64>,
    t: Seq<Call>,
    c: Cursor,
)
    ensures
        added_run(nv, ov, under, t, c).ok ==> c.ok,
{
}

/// A reading of a creation that ended well is the same on a longer record.
pub proof fn lemma_create_stable<E, F>(
    e: Element<E, F>,
    under: Option<u64>,
    t1: Seq<Call>,
    t2: Seq<Call>,
    c: Cursor,
)
    requires
        extends(t1, t2),
        create_run(e, under, t1, c).ok,
    ensures
        create_run(e, under, t2, c) == create_run(e, under, t1, c),
    decreases e,
{
    match e {
        Element::Wrapper(w) => {
            let c1 = if crate::journal::has_resource(w) {
                crate::journal::step_create(t1, c, w.inner_key->0, w.type_tag, under)
            } else {
                c
            };
            lemma_create_children_stable(
                w.children,
                crate::journal::child_parent(w, c1.live, under),
                t1,
                t2,
                c1,
            );
        },
        Element::Mapped(m) => {
            lemma_create_stable(*m.wrapped, under, t1, t2, c);
        },
        Element::Dynamic(d) => {
            lemma_create_stable(*d.0, under, t1, t2, c);
        },
    }
}

/// A reading of the creation of children that ended well is the same on a
/// longer record.
pub proof fn lemma_create_children_stable<E, F>(
    ch: Children<E, F>,
    under: Option<u64>,
    t1: Seq<Call>,
    t2: Seq<Call>,
    c: Cursor,
)
    requires
        extends(t1, t2),
        create_children_run(ch, under, t1, c).ok,
    ensures
        create_children_run(ch, under, t2, c) == create_children_run(ch, under, t1, c),
    decreases ch,
{
    match ch {
        Children::Empty => {},
        Children::Single(e) => {
            lemma_create_stable(*e, under, t1, t2, c);
        },
        Children::Pair(a, b) => {
            let c1 = create_children_run(*a, under, t1, c);
            lemma_create_children_ok(*b, under, t1, c1);
            lemma_create_children_stable(*a, under, t1, t2, c);
            lemma_create_children_stable(*b, under, t1, t2, c1);
        },
        Children::List(v) => {
            lemma_create_list_stable(v@, under, t1, t2, c);
        },
        Children::Optional(o) => {
            match o {
                Some(e) => {
                    lemma_create_stable(*e, under, t1, t2, c);
                },
                None => {},
            }
        },
    }
}

/// A reading of the creation of a list that ended well is the same on a
/// longer record.
pub proof fn lemma_create_list_stable<E, F>(
    v: Seq<Element<E, F>>,
    under: Option<u64>,
    t1: Seq<Call>,
    t2: Seq<Call>,
    c: Cursor,
)
    requires
        extends(t1, t2),
        create_list_run(v, under, t1, c).ok,
    ensures
        create_list_run(v, under, t2, c) == create_list_run(v, under, t1, c),
    decreases v,
{
    if v.len() > 0 {
        let c0 = create_list_run(v.drop_last(), under, t1, c);
        lemma_create_ok(v.last(), under, t1, c0);
        lemma_create_list_stable(v.drop_last(), under, t1, t2, c);
        lemma_create_stable(v.last(), under, t1, t2, c0);
    }
}

/// A reading of a destruction that ended well is the same on a longer
/// record.
pub proof fn lemma_destroy_stable<E, F>(e: Element<E, F>, t1: Seq<Call>, t2: Seq<Call>, c: Cursor)
    requires
        extends(t1, t2),
        destroy_run(e, t1, c).ok,
    ensures
        destroy_run(e, t2, c) == destroy_run(e, t1, c),
    decreases e,
{
    match e {
        Element::Wrapper(w) => {
            lemma_destroy_children_stable(w.children, t1, t2, c);
        },
        Element::Mapped(m) => {
            lemma_destroy_stable(*m.wrapped, t1, t2, c);
        },
        Element::Dynamic(d) => {
            lemma_destroy_stable(*d.0, t1, t2, c);
        },
    }
}

/// A reading of the destruction of children that ended well is the same on a
/// longer record.
pub proof fn lemma_destroy_children_stable<E, F>(
    ch: Children<E, F>,
    t1: Seq<Call>,
    t2: Seq<Call>,
    c: Cursor,
)
    requires
        extends(t1, t2),
        destroy_children_run(ch, t1, c).ok,
    ensures
        destroy_children_run(ch, t2, c) == destroy_children_run(ch, t1, c),
    decreases ch,
{
    match ch {
        Children::Empty => {},
        Children::Single(e) => {
            lemma_destroy_stable(*e, t1, t2, c);
        },
        Children::Pair(a, b) => {
            let c1 = destroy_children_run(*a, t1, c);
            lemma_destroy_children_ok(*b, t1, c1);
            lemma_destroy_children_stable(*a, t1, t2, c);
            lemma_destroy_children_stable(*b, t1, t2, c1);
        },
        Children::List(v) => {
            lemma_destroy_list_stable(v@, t1, t2, c);
        },
        Children::Optional(o) => {
            match o {
                Some(e) => {
                    lemma_destroy_stable(*e, t1, t2, c);
                },
                None => {},
            }
        },
    }
}

/// A reading of the destruction of a list that ended well is the same on a
/// longer record.
pub proof fn lemma_destroy_list_stable<E, F>(
    v: Seq<Element<E, F>>,
    t1: Seq<Call>,
    t2: Seq<Call>,
    c: Cursor,
)
    requires
        extends(t1, t2),
        destroy_list_run(v, t1, c).ok,
    ensures
        destroy_list_run(v, t2, c) == destroy_list_run(v, t1, c),
    decreases v,
{
    if v.len() > 0 {
        let c0 = destroy_list_run(v.drop_last(), t1, c);
        lemma_destroy_ok(v.last(), t1, c0);
        lemma_destroy_list_stable(v.drop_last(), t1, t2, c);
        lemma_destroy_stable(v.last(), t1, t2, c0);
    }
}

/// A reading of a per-tick pass that ended well is the same on a longer
/// record.
pub proof fn lemma_frame_stable<E, F>(e: Element<E, F>, t1: Seq<Call>, t2: Seq<Call>, c: Cursor)
    requires
        extends(t1, t2),
        frame_run(e, t1, c).ok,
    ensures
        frame_run(e, t2, c) == frame_run(e, t1, c),
    decreases e,
{
    match e {
        Element::Wrapper(w) => {
            let c1 = if crate::journal::wrapper_live(w, c.live) {
                crate::journal::step_frame(t1, c, w.inner_key->0, w.type_tag)
            } else {
                c
            };
            lemma_frame_children_stable(w.children, t1, t2, c1);
        },
        Element::Mapped(m) => {
            if m.mapper is Some && c.ok {
                let present = crate::journal::step_project(t1, c, true);
                if present.ok {
                    lemma_frame_stable(*m.wrapped, t1, t2, present);
                }
            }
        },
        Element::Dynamic(d) => {
            lemma_frame_stable(*d.0, t1, t2, c);
        },
    }
}

/// A reading of a per-tick pass over children that ended well is the same on
/// a longer record.
pub proof fn lemma_frame_children_stable<E, F>(
    ch: Children<E, F>,
    t1: Seq<Call>,
    t2: Seq<Call>,
    c: Cursor,
)
    requires
        extends(t1, t2),
        frame_children_run(ch, t1, c).ok,
    ensures
        frame_children_run(ch, t2, c) == frame_children_run(ch, t1, c),
    decreases ch,
{
    match ch {
        Children::Empty => {},
        Children::Single(e) => {
            lemma_frame_stable(*e, t1, t2, c);
        },
        Children::Pair(a, b) => {
            let c1 = frame_children_run(*a, t1, c);
            lemma_frame_children_ok(*b, t1, c1);
            lemma_frame_children_stable(*a, t1, t2, c);
            lemma_frame_children_stable(*b, t1, t2, c1);
        },
        Children::List(v) => {
            lemma_frame_list_stable(v@, t1, t2, c);
        },
        Children::Optional(o) => {
            match o {
                Some(e) => {
                    lemma_frame_stable(*e, t1, t2, c);
                },
                None => {},
            }
        },
    }
}

/// A reading of a per-tick pass over a list that ended well is the same on a
/// longer record.
pub proof fn lemma_frame_list_stable<E, F>(
    v: Seq<Element<E, F>>,
    t1: Seq<Call>,
    t2: Seq<Call>,
    c: Cursor,
)
    requires
        extends(t1, t2),
        frame_list_run(v, t1, c).ok,
    ensures
        frame_list_run(v, t2, c) == frame_list_run(v, t1, c),
    decreases v,
{
    if v.len() > 0 {
        let c0 = frame_list_run(v.drop_last(), t1, c);
        lemma_frame_ok(v.last(), t1, c0);
        lemma_frame_list_stable(v.drop_last(), t1, t2, c);
        lemma_frame_stable(v.last(), t1, t2, c0);
    }
}


/// A reading of a replacement that ended well is the same on a longer
/// record.
pub proof fn lemma_replace_stable<E, F>(
    new_e: Element<E, F>,
    old_e: Element<E, F>,
    under: Option<u64>,
    t1: Seq<Call>,
    t2: Seq<Call>,
    c: Cursor,
)
    requires
        extends(t1, t2),
        replace_run(new_e, old_e, under, t1, c).ok,
    ensures
        replace_run(new_e, old_e, under, t2, c) == replace_run(new_e, old_e, under, t1, c),
{
    let c1 = destroy_run(old_e, t1, c);
    lemma_create_ok(new_e, under, t1, c1);
    lemma_destroy_stable(old_e, t1, t2, c);
    lemma_create_stable(new_e, under, t1, t2, c1);
}

/// A reading of a replacement of children that ended well is the same on a
/// longer record.
pub proof fn lemma_replace_children_stable<E, F>(
    new_ch: Children<E, F>,
    old_ch: Children<E, F>,
    under: Option<u64>,
    t1: Seq<Call>,
    t2: Seq<Call>,
    c: Cursor,
)
    requires
        extends(t1, t2),
        replace_children_run(new_ch, old_ch, under, t1, c).ok,
    ensures
        replace_children_run(new_ch, old_ch, under, t2, c) == replace_children_run(
            new_ch,
            old_ch,
            under,
            t1,
            c,
        ),
{
    let c1 = destroy_children_run(old_ch, t1, c);
    lemma_create_children_ok(new_ch, under, t1, c1);
    lemma_destroy_children_stable(old_ch, t1, t2, c);
    lemma_create_children_stable(new_ch, under, t1, t2, c1);
}

/// A reading of a comparison that ended well is the same on a longer record.
pub proof fn lemma_diff_stable<E, F>(
    new_e: Element<E, F>,
    old_e: Element<E, F>,
    under: Option<u64>,
    t1: Seq<Call>,
    t2: Seq<Call>,
    c: Cursor,
)
    requires
        extends(t1, t2),
        diff_run(new_e, old_e, under, t1, c).ok,
    ensures
        diff_run(new_e, old_e, under, t2, c) == diff_run(new_e, old_e, under, t1, c),
    decreases new_e,
{
    match (new_e, old_e) {
        (Element::Wrapper(n), Element::Wrapper(o)) => {
            if wrappers_match(n, o) {
                let c1 = if wrapper_live(n, c.live) {
                    step_update(t1, c, n.inner_key->0, n.type_tag)
                } else {
                    c
                };
                lemma_diff_children_stable(
                    n.children,
                    o.children,
                    crate::journal::child_parent(n, c1.live, under),
                    t1,
                    t2,
                    c1,
                );
            } else {
                lemma_replace_stable(new_e, old_e, under, t1, t2, c);
            }
        },
        (Element::Mapped(n), Element::Mapped(o)) => {
            if n.mapper is Some && c.ok {
                let present = crate::journal::step_project(t1, c, true);
                if present.ok {
                    lemma_diff_stable(*n.wrapped, *o.wrapped, under, t1, t2, present);
                }
            }
        },
        (Element::Dynamic(n), Element::Dynamic(o)) => {
            if same_type(*n.0, *o.0) {
                lemma_diff_stable(*n.0, *o.0, under, t1, t2, c);
            } else {
                lemma_replace_stable(*n.0, *o.0, under, t1, t2, c);
            }
        },
        _ => {
            lemma_replace_stable(new_e, old_e, under, t1, t2, c);
        },
    }
}

/// A reading of a comparison of children that ended well is the same on a
/// longer record.
pub proof fn lemma_diff_children_stable<E, F>(
    new_ch: Children<E, F>,
    old_ch: Children<E, F>,
    under: Option<u64>,
    t1: Seq<Call>,
    t2: Seq<Call>,
    c: Cursor,
)
    requires
        extends(t1, t2),
        diff_children_run(new_ch, old_ch, under, t1, c).ok,
    ensures
        diff_children_run(new_ch, old_ch, under, t2, c) == diff_children_run(
            new_ch,
            old_ch,
            under,
            t1,
            c,
        ),
    decreases new_ch,
{
    match (new_ch, old_ch) {
        (Children::Empty, Children::Empty) => {},
        (Children::Single(n), Children::Single(o)) => {
            lemma_diff_stable(*n, *o, under, t1, t2, c);
        },
        (Children::Pair(na, nb), Children::Pair(oa, ob)) => {
            let c1 = diff_children_run(*na, *oa, under, t1, c);
            lemma_diff_children_ok(*nb, *ob, under, t1, c1);
            lemma_diff_children_stable(*na, *oa, under, t1, t2, c);
            lemma_diff_children_stable(*nb, *ob, under, t1, t2, c1);
        },
        (Children::List(nv), Children::List(ov)) => {
            let c1 = common_run(nv@, ov@, under, t1, c);
            let c2 = removed_run(ov@, nv@, t1, c1);
            lemma_added_ok(nv@, ov@, under, t1, c2);
            lemma_removed_ok(ov@, nv@, t1, c1);
            lemma_common_stable(nv@, ov@, under, t1, t2, c);
            lemma_removed_stable(ov@, nv@, t1, t2, c1);
            lemma_added_stable(nv@, ov@, under, t1, t2, c2);
        },
        (Children::Optional(n), Children::Optional(o)) => {
            match (n, o) {
                (Some(p), Some(q)) => {
                    lemma_diff_stable(*p, *q, under, t1, t2, c);
                },
                (Some(p), None) => {
                    lemma_create_stable(*p, under, t1, t2, c);
                },
                (None, Some(q)) => {
                    lemma_destroy_stable(*q, t1, t2, c);
                },
                (None, None) => {},
            }
        },
        _ => {
            lemma_replace_children_stable(new_ch, old_ch, under, t1, t2, c);
        },
    }
}

/// A reading of the comparison of the elements that stay in a list, if it
/// ended well, is the same on a longer record.
pub proof fn lemma_common_stable<E, F>(
    nv: Seq<Element<E, F>>,
    ov: Seq<Element<E, F>>,
    under: Option<u64>,
    t1: Seq<Call>,
    t2: Seq<Call>,
    c: Cursor,
)
    requires
        extends(t1, t2),
        common_run(nv, ov, under, t1, c).ok,
    ensures
        common_run(nv, ov, under, t2, c) == common_run(nv, ov, under, t1, c),
    decreases nv,
{
    if nv.len() > 0 {
        let c0 = common_run(nv.drop_last(), ov, under, t1, c);
        let key = key_of(nv.last());
        if has_key(ov, key) {
            lemma_diff_ok(nv.last(), ov[first_with_key(ov, key)], under, t1, c0);
            lemma_common_stable(nv.drop_last(), ov, under, t1, t2, c);
            lemma_diff_stable(nv.last(), ov[first_with_key(ov, key)], under, t1, t2, c0);
        } else {
            lemma_common_stable(nv.drop_last(), ov, under, t1, t2, c);
        }
    }
}

/// A reading of the removals for a list that ended well is the same on a
/// longer record.
pub proof fn lemma_removed_stable<E, F>(
    ov: Seq<Element<E, F>>,
    nv: Seq<Element<E, F>>,
    t1: Seq<Call>,
    t2: Seq<Call>,
    c: Cursor,
)
    requires
        extends(t1, t2),
        removed_run(ov, nv, t1, c).ok,
    ensures
        removed_run(ov, nv, t2, c) == removed_run(ov, nv, t1, c),
    decreases ov,
{
    if ov.len() > 0 {
        let c0 = removed_run(ov.drop_last(), nv, t1, c);
        if has_key(nv, key_of(ov.last())) {
            lemma_removed_stable(ov.drop_last(), nv, t1, t2, c);
        } else {
            lemma_destroy_ok(ov.last(), t1, c0);
            lemma_removed_stable(ov.drop_last(), nv, t1, t2, c);
            lemma_destroy_stable(ov.last(), t1, t2, c0);
        }
    }
}

/// A reading of the creations for a list that ended well is the same on a
/// longer record.
pub proof fn lemma_added_stable<E, F>(
    nv: Seq<Element<E, F>>,
    ov: Seq<Element<E, F>>,
    under: Option<u64>,
    t1: Seq<Call>,
    t2: Seq<Call>,
    c: Cursor,
)
    requires
        extends(t1, t2),
        added_run(nv, ov, under, t1, c).ok,
    ensures
        added_run(nv, ov, under, t2, c) == added_run(nv, ov, under, t1, c),
    decreases nv,
{
    if nv.len() > 0 {
        let c0 = added_run(nv.drop_last(), ov, under, t1, c);
        if has_key(ov, key_of(nv.last())) {
            lemma_added_stable(nv.drop_last(), ov, under, t1, t2, c);
        } else {
            lemma_create_ok(nv.last(), under, t1, c0);
            lemma_added_stable(nv.drop_last(), ov, under, t1, t2, c);
            lemma_create_stable(nv.last(), under, t1, t2, c0);
        }
    }
}

// ----------------------------------------------------------------------
// destroying leaves the shared resources alone
// ----------------------------------------------------------------------
/// Destroying a subtree carries the shared resources through unchanged.
pub proof fn lemma_destroy_shared<E, F>(
    e: Element<E, F>,
    t: Seq<Call>,
    c: Cursor,
    shared: Set<u64>,
)
    ensures
        destroy_run(e, t, with_shared(c, shared)) == with_shared(destroy_run(e, t, c), shared),
    decreases e,
{
    match e {
        Element::Wrapper(w) => {
            lemma_destroy_children_shared(w.children, t, c, shared);
        },
        Element::Mapped(m) => {
            lemma_destroy_shared(*m.wrapped, t, c, shared);
        },
        Element::Dynamic(d) => {
            lemma_destroy_shared(*d.0, t, c, shared);
        },
    }
}

/// Destroying children carries the shared resources through unchanged.
pub proof fn lemma_destroy_children_shared<E, F>(
    ch: Children<E, F>,
    t: Seq<Call>,
    c: Cursor,
    shared: Set<u64>,
)
    ensures
        destroy_children_run(ch, t, with_shared(c, shared)) == with_shared(
            destroy_children_run(ch, t, c),
            shared,
        ),
    decreases ch,
{
    match ch {
        Children::Empty => {},
        Children::Single(e) => {
            lemma_destroy_shared(*e, t, c, shared);
        },
        Children::Pair(a, b) => {
            lemma_destroy_children_shared(*a, t, c, shared);
            lemma_destroy_children_shared(*b, t, destroy_children_run(*a, t, c), shared);
        },
        Children::List(v) => {
            lemma_destroy_list_shared(v@, t, c, shared);
        },
        Children::Optional(o) => {
            match o {
                Some(e) => {
                    lemma_destroy_shared(*e, t, c, shared);
                },
                None => {},
            }
        },
    }
}

/// Destroying a list carries the shared resources through unchanged.
pub proof fn lemma_destroy_list_shared<E, F>(
    v: Seq<Element<E, F>>,
    t: Seq<Call>,
    c: Cursor,
    shared: Set<u64>,
)
    ensures
        destroy_list_run(v, t, with_shared(c, shared)) == with_shared(
            destroy_list_run(v, t, c),
            shared,
        ),
    decreases v,
{
    if v.len() > 0 {
        lemma_destroy_list_shared(v.drop_last(), t, c, shared);
        lemma_destroy_shared(v.last(), t, destroy_list_run(v.drop_last(), t, c), shared);
    }
}

/// The first element with a key is the one that a search from the front
/// finds.
pub proof fn lemma_first_with_key<E, F>(v: Seq<Element<E, F>>, key: Option<u64>, j: int)
    requires
        is_first_with_key(v, key, j),
    ensures
        has_key(v, key),
        first_with_key(v, key) == j,
{
    let f = first_with_key(v, key);
    assert(is_first_with_key(v, key, f));
    if f < j {
        assert(key_of(v[f]) != key);
    }
    if j < f {
        assert(key_of(v[j]) != key);
    }
}

} // verus!
