//! What holds of every pass, whatever the description: which calls a pass
//! makes, in which order, and what it leaves alone.

use crate::element::{
    declared_tag, key_of, keyed, keyed_children, slot_key, stable_id_of, Children, Element,
    ElementWrapper, Mapped,
};
use crate::journal::{replace_children_run, replace_run, wrappers_match};
use crate::key::{keyed_inner_key, positional_inner_key};
use crate::journal::{
    added_run, common_run, create_children_run, create_list_run, create_run,
    destroy_children_run, destroy_list_run, destroy_run, diff_children_run, diff_run,
    frame_children_run, frame_list_run, frame_run, has_key, has_resource, is_first_with_key,
    removed_run, same_type, same_type_children, step_project, step_update, wrapper_live, Call,
    Cursor,
};
use crate::stability::{
    lemma_added_ok, lemma_create_children_ok, lemma_create_ok, lemma_destroy_children_ok,
    lemma_destroy_ok, lemma_diff_children_ok, lemma_diff_ok, lemma_first_with_key,
    lemma_frame_children_ok, lemma_frame_ok, lemma_removed_ok,
};
use vstd::prelude::*;

verus! {

// ----------------------------------------------------------------------
// destroying
// ----------------------------------------------------------------------
/// The calls that destroying `e` makes: one removal for each declaration
/// with a key, what is below a declaration before the declaration.
pub open spec fn destroy_calls<E, F>(e: Element<E, F>) -> Seq<Call>
    decreases e,
{
    match e {
        Element::Wrapper(w) => destroy_children_calls(w.children) + (match w.inner_key {
            Some(key) => seq![Call::Destroy { key }],
            None => Seq::empty(),
        }),
        Element::Mapped(m) => destroy_calls(*m.wrapped),
        Element::Dynamic(d) => destroy_calls(*d.0),
    }
}

/// The calls that destroying the children `ch` makes.
pub open spec fn destroy_children_calls<E, F>(ch: Children<E, F>) -> Seq<Call>
    decreases ch,
{
    match ch {
        Children::Empty => Seq::empty(),
        Children::Single(e) => destroy_calls(*e),
        Children::Pair(a, b) => destroy_children_calls(*a) + destroy_children_calls(*b),
        Children::List(v) => destroy_list_calls(v@),
        Children::Optional(o) => match o {
            Some(e) => destroy_calls(*e),
            None => Seq::empty(),
        },
    }
}

/// The calls that destroying the elements of `v` makes, first to last.
pub open spec fn destroy_list_calls<E, F>(v: Seq<Element<E, F>>) -> Seq<Call>
    decreases v,
{
    if v.len() == 0 {
        Seq::empty()
    } else {
        destroy_list_calls(v.drop_last()) + destroy_calls(v.last())
    }
}

/// The keys of the declarations in `e`.
pub open spec fn keys_of<E, F>(e: Element<E, F>) -> Set<u64>
    decreases e,
{
    match e {
        Element::Wrapper(w) => children_keys(w.children).union(
            match w.inner_key {
                Some(key) => set![key],
                None => Set::empty(),
            },
        ),
        Element::Mapped(m) => keys_of(*m.wrapped),
        Element::Dynamic(d) => keys_of(*d.0),
    }
}

/// The keys of the declarations in the children `ch`.
pub open spec fn children_keys<E, F>(ch: Children<E, F>) -> Set<u64>
    decreases ch,
{
    match ch {
        Children::Empty => Set::empty(),
        Children::Single(e) => keys_of(*e),
        Children::Pair(a, b) => children_keys(*a).union(children_keys(*b)),
        Children::List(v) => list_keys(v@),
        Children::Optional(o) => match o {
            Some(e) => keys_of(*e),
            None => Set::empty(),
        },
    }
}

/// The keys of the declarations in the elements of `v`.
pub open spec fn list_keys<E, F>(v: Seq<Element<E, F>>) -> Set<u64>
    decreases v,
{
    if v.len() == 0 {
        Set::empty()
    } else {
        list_keys(v.drop_last()).union(keys_of(v.last()))
    }
}

/// What a record must hold from `c` on for the destruction of something
/// that makes the calls `calls` and holds the keys `keys` to end in `d`:
/// exactly those calls, after which the keys are gone from the map, every
/// other key is as before, and the shared resources are untouched.
pub open spec fn destroyed(
    t: Seq<Call>,
    c: Cursor,
    d: Cursor,
    calls: Seq<Call>,
    keys: Set<u64>,
) -> bool {
    &&& d.at == c.at + calls.len()
    &&& d.at <= t.len()
    &&& t.subrange(c.at, d.at) == calls
    &&& d.live == c.live.remove_keys(keys)
    &&& d.shared == c.shared
}

/// Destroying a subtree makes removals and nothing else: one for each
/// declaration with a key, children before their parent. Afterwards none of
/// its keys is live, and every other key is as it was.
pub proof fn lemma_destroy_reads<E, F>(e: Element<E, F>, t: Seq<Call>, c: Cursor)
    requires
        c.ok,
        0 <= c.at <= t.len(),
        destroy_run(e, t, c).ok,
    ensures
        destroyed(t, c, destroy_run(e, t, c), destroy_calls(e), keys_of(e)),
    decreases e,
{
    let d = destroy_run(e, t, c);
    match e {
        Element::Wrapper(w) => {
            let c1 = destroy_children_run(w.children, t, c);
            lemma_destroy_children_reads(w.children, t, c);
            assert(t.subrange(c.at, d.at) =~= t.subrange(c.at, c1.at) + t.subrange(c1.at, d.at));
            match w.inner_key {
                Some(key) => {
                    assert(t.subrange(c1.at, d.at) =~= seq![Call::Destroy { key }]);
                    assert(d.live =~= c.live.remove_keys(keys_of(e)));
                },
                None => {
                    assert(t.subrange(c1.at, d.at) =~= Seq::<Call>::empty());
                    assert(d.live =~= c.live.remove_keys(keys_of(e)));
                },
            }
        },
        Element::Mapped(m) => {
            lemma_destroy_reads(*m.wrapped, t, c);
        },
        Element::Dynamic(x) => {
            lemma_destroy_reads(*x.0, t, c);
        },
    }
}

/// Destroying children makes removals and nothing else.
pub proof fn lemma_destroy_children_reads<E, F>(ch: Children<E, F>, t: Seq<Call>, c: Cursor)
    requires
        c.ok,
        0 <= c.at <= t.len(),
        destroy_children_run(ch, t, c).ok,
    ensures
        destroyed(
            t,
            c,
            destroy_children_run(ch, t, c),
            destroy_children_calls(ch),
            children_keys(ch),
        ),
    decreases ch,
{
    let d = destroy_children_run(ch, t, c);
    match ch {
        Children::Empty => {
            assert(t.subrange(c.at, d.at) =~= Seq::<Call>::empty());
            assert(d.live =~= c.live.remove_keys(children_keys(ch)));
        },
        Children::Single(e) => {
            lemma_destroy_reads(*e, t, c);
        },
        Children::Pair(a, b) => {
            let c1 = destroy_children_run(*a, t, c);
            lemma_destroy_children_ok(*b, t, c1);
            lemma_destroy_children_reads(*a, t, c);
            lemma_destroy_children_reads(*b, t, c1);
            assert(t.subrange(c.at, d.at) =~= t.subrange(c.at, c1.at) + t.subrange(c1.at, d.at));
            assert(d.live =~= c.live.remove_keys(children_keys(ch)));
        },
        Children::List(v) => {
            lemma_destroy_list_reads(v@, t, c);
        },
        Children::Optional(o) => {
            match o {
                Some(e) => {
                    lemma_destroy_reads(*e, t, c);
                },
                None => {
                    assert(t.subrange(c.at, d.at) =~= Seq::<Call>::empty());
                    assert(d.live =~= c.live.remove_keys(children_keys(ch)));
                },
            }
        },
    }
}

/// Destroying the elements of a list makes removals and nothing else.
pub proof fn lemma_destroy_list_reads<E, F>(v: Seq<Element<E, F>>, t: Seq<Call>, c: Cursor)
    requires
        c.ok,
        0 <= c.at <= t.len(),
        destroy_list_run(v, t, c).ok,
    ensures
        destroyed(t, c, destroy_list_run(v, t, c), destroy_list_calls(v), list_keys(v)),
    decreases v,
{
    let d = destroy_list_run(v, t, c);
    if v.len() == 0 {
        assert(t.subrange(c.at, d.at) =~= Seq::<Call>::empty());
        assert(d.live =~= c.live.remove_keys(list_keys(v)));
    } else {
        let c1 = destroy_list_run(v.drop_last(), t, c);
        lemma_destroy_ok(v.last(), t, c1);
        lemma_destroy_list_reads(v.drop_last(), t, c);
        lemma_destroy_reads(v.last(), t, c1);
        assert(t.subrange(c.at, d.at) =~= t.subrange(c.at, c1.at) + t.subrange(c1.at, d.at));
        assert(d.live =~= c.live.remove_keys(list_keys(v)));
    }
}

// ----------------------------------------------------------------------
// creating
// ----------------------------------------------------------------------
/// The resources that creating `e` asks for, each by key and type tag: one
/// for each declaration that stands for a resource, a declaration before
/// what is below it.
pub open spec fn create_targets<E, F>(e: Element<E, F>) -> Seq<(u64, u64)>
    decreases e,
{
    match e {
        Element::Wrapper(w) => (if has_resource(w) {
            seq![(w.inner_key->0, w.type_tag)]
        } else {
            Seq::empty()
        }) + create_children_targets(w.children),
        Element::Mapped(m) => create_targets(*m.wrapped),
        Element::Dynamic(d) => create_targets(*d.0),
    }
}

/// The resources that creating the children `ch` asks for.
pub open spec fn create_children_targets<E, F>(ch: Children<E, F>) -> Seq<(u64, u64)>
    decreases ch,
{
    match ch {
        Children::Empty => Seq::empty(),
        Children::Single(e) => create_targets(*e),
        Children::Pair(a, b) => create_children_targets(*a) + create_children_targets(*b),
        Children::List(v) => create_list_targets(v@),
        Children::Optional(o) => match o {
            Some(e) => create_targets(*e),
            None => Seq::empty(),
        },
    }
}

/// The resources that creating the elements of `v` asks for, first to last.
pub open spec fn create_list_targets<E, F>(v: Seq<Element<E, F>>) -> Seq<(u64, u64)>
    decreases v,
{
    if v.len() == 0 {
        Seq::empty()
    } else {
        create_list_targets(v.drop_last()) + create_targets(v.last())
    }
}

/// The keys among `targets`.
pub open spec fn keys_among(targets: Seq<(u64, u64)>) -> Set<u64> {
    Set::new(|key: u64| exists|i: int| 0 <= i < targets.len() && (#[trigger] targets[i]).0 == key)
}

/// The type tags among `targets`.
pub open spec fn types_of(targets: Seq<(u64, u64)>) -> Set<u64> {
    Set::new(|tag: u64| exists|i: int| 0 <= i < targets.len() && (#[trigger] targets[i]).1 == tag)
}

/// Whether `call` is an attempt to create the resource `target`, given by
/// key and type tag.
pub open spec fn is_create_of(call: Call, target: (u64, u64)) -> bool {
    call matches Call::Create { key, type_tag, .. } && key == target.0 && type_tag == target.1
}

/// Whether the record `t` holds, from `from` on, one attempt to create each
/// of `targets`, in their order.
pub open spec fn creates(t: Seq<Call>, from: int, targets: Seq<(u64, u64)>) -> bool {
    forall|i: int| 0 <= i < targets.len() ==> is_create_of(t[from + i], #[trigger] targets[i])
}

/// The live resources after the attempts to create `targets` that the
/// record `t` holds from `from` on, if `live` were the live resources
/// before: each target that was made has come to life under its key, in the
/// order of the attempts.
pub open spec fn live_after(
    t: Seq<Call>,
    from: int,
    targets: Seq<(u64, u64)>,
    live: Map<u64, u64>,
) -> Map<u64, u64>
    decreases targets.len(),
{
    if targets.len() == 0 {
        live
    } else {
        let before = live_after(t, from, targets.drop_last(), live);
        let last = targets.last();
        if t[from + targets.len() - 1] matches Call::Create { created, .. } && created {
            before.insert(last.0, last.1)
        } else {
            before
        }
    }
}

/// Bringing one list of targets to life and then another is bringing the
/// two to life as one.
pub proof fn lemma_live_after_append(
    t: Seq<Call>,
    from: int,
    a: Seq<(u64, u64)>,
    b: Seq<(u64, u64)>,
    live: Map<u64, u64>,
)
    ensures
        live_after(t, from, a + b, live) == live_after(
            t,
            from + a.len(),
            b,
            live_after(t, from, a, live),
        ),
    decreases b.len(),
{
    if b.len() == 0 {
        assert(a + b =~= a);
    } else {
        let ab = a + b;
        assert(ab.drop_last() =~= a + b.drop_last());
        assert(ab.last() == b.last());
        lemma_live_after_append(t, from, a, b.drop_last(), live);
    }
}

/// What a record must hold from `c` on for the creation of `targets` to end
/// in `d`: one attempt for each target and nothing else. Afterwards each
/// type among the targets has its shared resource, one whatever the number
/// of targets of the type, and the types that had one keep it; the live
/// resources are those from before and the targets that were made, so no
/// key that was live has been lost, and no key has come to life but those
/// of the targets.
pub open spec fn created(t: Seq<Call>, c: Cursor, d: Cursor, targets: Seq<(u64, u64)>) -> bool {
    &&& 0 <= c.at
    &&& d.at == c.at + targets.len()
    &&& d.at <= t.len()
    &&& creates(t, c.at, targets)
    &&& d.shared == c.shared.union(types_of(targets))
    &&& d.live == live_after(t, c.at, targets, c.live)
    &&& forall|k: u64| c.live.contains_key(k) ==> #[trigger] d.live.contains_key(k)
    &&& forall|k: u64| #[trigger]
        d.live.contains_key(k) ==> c.live.contains_key(k) || keys_among(targets).contains(k)
}

/// Reading one list of targets and then another is reading the two as one.
pub proof fn lemma_created_append(
    t: Seq<Call>,
    c: Cursor,
    c1: Cursor,
    d: Cursor,
    a: Seq<(u64, u64)>,
    b: Seq<(u64, u64)>,
)
    requires
        created(t, c, c1, a),
        created(t, c1, d, b),
    ensures
        created(t, c, d, a + b),
{
    let ab = a + b;
    lemma_live_after_append(t, c.at, a, b, c.live);
    assert forall|i: int| 0 <= i < ab.len() implies is_create_of(
        t[c.at + i],
        #[trigger] ab[i],
    ) by {
        if i < a.len() {
            assert(ab[i] == a[i]);
        } else {
            assert(ab[i] == b[i - a.len()]);
            assert(c.at + i == c1.at + (i - a.len()));
        }
    }
    assert forall|tag: u64| types_of(ab).contains(tag) <==> (types_of(a).contains(tag)
        || types_of(b).contains(tag)) by {
        if types_of(ab).contains(tag) {
            let i = choose|i: int| 0 <= i < ab.len() && (#[trigger] ab[i]).1 == tag;
            if i < a.len() {
                assert(a[i].1 == tag);
            } else {
                assert(b[i - a.len()].1 == tag);
            }
        }
        if types_of(a).contains(tag) {
            let i = choose|i: int| 0 <= i < a.len() && (#[trigger] a[i]).1 == tag;
            assert(ab[i].1 == tag);
        }
        if types_of(b).contains(tag) {
            let i = choose|i: int| 0 <= i < b.len() && (#[trigger] b[i]).1 == tag;
            assert(ab[a.len() + i].1 == tag);
        }
    }
    assert(d.shared =~= c.shared.union(types_of(ab)));
    assert forall|k: u64| c.live.contains_key(k) implies #[trigger] d.live.contains_key(k) by {
        assert(c1.live.contains_key(k));
    }
    assert forall|k: u64| #[trigger] d.live.contains_key(k) implies c.live.contains_key(k)
        || keys_among(ab).contains(k) by {
        if keys_among(b).contains(k) {
            let i = choose|i: int| 0 <= i < b.len() && (#[trigger] b[i]).0 == k;
            assert(ab[a.len() + i].0 == k);
        } else {
            assert(c1.live.contains_key(k));
            if keys_among(a).contains(k) {
                let i = choose|i: int| 0 <= i < a.len() && (#[trigger] a[i]).0 == k;
                assert(ab[i].0 == k);
            }
        }
    }
}

/// Reading nothing is reading no targets.
pub proof fn lemma_created_nothing(t: Seq<Call>, c: Cursor)
    requires
        0 <= c.at <= t.len(),
    ensures
        created(t, c, c, Seq::empty()),
{
    assert(c.shared =~= c.shared.union(types_of(Seq::empty())));
}

/// Creating a subtree makes attempts to create and nothing else: one for
/// each declaration that stands for a resource, parents before their
/// children. However many declarations of one type there are, the type has
/// one shared resource afterwards.
pub proof fn lemma_create_reads<E, F>(
    e: Element<E, F>,
    under: Option<u64>,
    t: Seq<Call>,
    c: Cursor,
)
    requires
        c.ok,
        0 <= c.at <= t.len(),
        create_run(e, under, t, c).ok,
    ensures
        created(t, c, create_run(e, under, t, c), create_targets(e)),
    decreases e,
{
    match e {
        Element::Wrapper(w) => {
            let c1 = if has_resource(w) {
                crate::journal::step_create(t, c, w.inner_key->0, w.type_tag, under)
            } else {
                c
            };
            let below = crate::journal::child_parent(w, c1.live, under);
            lemma_create_children_ok(w.children, below, t, c1);
            lemma_create_children_reads(w.children, below, t, c1);
            if has_resource(w) {
                let own = seq![(w.inner_key->0, w.type_tag)];
                assert(own[0].1 == w.type_tag);
                assert(own[0].0 == w.inner_key->0);
                assert(own.drop_last() =~= Seq::<(u64, u64)>::empty());
                assert(live_after(t, c.at, own.drop_last(), c.live) == c.live);
                assert(c1.live == live_after(t, c.at, own, c.live));
                assert(c1.shared =~= c.shared.union(types_of(own)));
                assert(created(t, c, c1, own));
            } else {
                lemma_created_nothing(t, c);
            }
            lemma_created_append(
                t,
                c,
                c1,
                create_run(e, under, t, c),
                if has_resource(w) {
                    seq![(w.inner_key->0, w.type_tag)]
                } else {
                    Seq::empty()
                },
                create_children_targets(w.children),
            );
        },
        Element::Mapped(m) => {
            lemma_create_reads(*m.wrapped, under, t, c);
        },
        Element::Dynamic(x) => {
            lemma_create_reads(*x.0, under, t, c);
        },
    }
}

/// Creating children makes attempts to create and nothing else.
pub proof fn lemma_create_children_reads<E, F>(
    ch: Children<E, F>,
    under: Option<u64>,
    t: Seq<Call>,
    c: Cursor,
)
    requires
        c.ok,
        0 <= c.at <= t.len(),
        create_children_run(ch, under, t, c).ok,
    ensures
        created(t, c, create_children_run(ch, under, t, c), create_children_targets(ch)),
    decreases ch,
{
    match ch {
        Children::Empty => {
            lemma_created_nothing(t, c);
        },
        Children::Single(e) => {
            lemma_create_reads(*e, under, t, c);
        },
        Children::Pair(a, b) => {
            let c1 = create_children_run(*a, under, t, c);
            lemma_create_children_ok(*b, under, t, c1);
            lemma_create_children_reads(*a, under, t, c);
            lemma_create_children_reads(*b, under, t, c1);
            lemma_created_append(
                t,
                c,
                c1,
                create_children_run(ch, under, t, c),
                create_children_targets(*a),
                create_children_targets(*b),
            );
        },
        Children::List(v) => {
            lemma_create_list_reads(v@, under, t, c);
        },
        Children::Optional(o) => {
            match o {
                Some(e) => {
                    lemma_create_reads(*e, under, t, c);
                },
                None => {
                    lemma_created_nothing(t, c);
                },
            }
        },
    }
}

/// Creating the elements of a list makes attempts to create and nothing
/// else.
pub proof fn lemma_create_list_reads<E, F>(
    v: Seq<Element<E, F>>,
    under: Option<u64>,
    t: Seq<Call>,
    c: Cursor,
)
    requires
        c.ok,
        0 <= c.at <= t.len(),
        create_list_run(v, under, t, c).ok,
    ensures
        created(t, c, create_list_run(v, under, t, c), create_list_targets(v)),
    decreases v,
{
    if v.len() == 0 {
        lemma_created_nothing(t, c);
    } else {
        let c1 = create_list_run(v.drop_last(), under, t, c);
        lemma_create_ok(v.last(), under, t, c1);
        lemma_create_list_reads(v.drop_last(), under, t, c);
        lemma_create_reads(v.last(), under, t, c1);
        lemma_created_append(
            t,
            c,
            c1,
            create_list_run(v, under, t, c),
            create_list_targets(v.drop_last()),
            create_targets(v.last()),
        );
    }
}

/// The resources that creating a subtree asks for are resources of
/// declarations of the subtree: every key among them is a key of the
/// subtree.
pub proof fn lemma_targets_are_keys<E, F>(e: Element<E, F>)
    ensures
        forall|k: u64| #[trigger]
            keys_among(create_targets(e)).contains(k) ==> keys_of(e).contains(k),
    decreases e,
{
    match e {
        Element::Wrapper(w) => {
            lemma_children_targets_are_keys(w.children);
            let own: Seq<(u64, u64)> = if has_resource(w) {
                seq![(w.inner_key->0, w.type_tag)]
            } else {
                Seq::empty()
            };
            let below = create_children_targets(w.children);
            assert(create_targets(e) == own + below);
            assert forall|k: u64| #[trigger] keys_among(own + below).contains(k) implies keys_of(
                e,
            ).contains(k) by {
                let i = choose|i: int|
                    0 <= i < (own + below).len() && (#[trigger] (own + below)[i]).0 == k;
                if i < own.len() {
                    assert(own[i].0 == k);
                } else {
                    assert(below[i - own.len()].0 == k);
                    assert(keys_among(below).contains(k));
                }
            }
        },
        Element::Mapped(m) => {
            lemma_targets_are_keys(*m.wrapped);
            assert(create_targets(e) == create_targets(*m.wrapped));
            assert(keys_of(e) == keys_of(*m.wrapped));
        },
        Element::Dynamic(d) => {
            lemma_targets_are_keys(*d.0);
            assert(create_targets(e) == create_targets(*d.0));
            assert(keys_of(e) == keys_of(*d.0));
        },
    }
}

/// The resources that creating children asks for are resources of
/// declarations among the children.
pub proof fn lemma_children_targets_are_keys<E, F>(ch: Children<E, F>)
    ensures
        forall|k: u64| #[trigger]
            keys_among(create_children_targets(ch)).contains(k) ==> children_keys(ch).contains(k),
    decreases ch,
{
    match ch {
        Children::Empty => {
            assert(create_children_targets(ch) == Seq::<(u64, u64)>::empty());
        },
        Children::Single(e) => {
            lemma_targets_are_keys(*e);
            assert(create_children_targets(ch) == create_targets(*e));
            assert(children_keys(ch) == keys_of(*e));
        },
        Children::Pair(a, b) => {
            lemma_children_targets_are_keys(*a);
            lemma_children_targets_are_keys(*b);
            let ta = create_children_targets(*a);
            let tb = create_children_targets(*b);
            assert(create_children_targets(ch) == ta + tb);
            assert forall|k: u64| #[trigger] keys_among(ta + tb).contains(k) implies children_keys(
                ch,
            ).contains(k) by {
                let i = choose|i: int|
                    0 <= i < (ta + tb).len() && (#[trigger] (ta + tb)[i]).0 == k;
                if i < ta.len() {
                    assert(ta[i].0 == k);
                    assert(keys_among(ta).contains(k));
                } else {
                    assert(tb[i - ta.len()].0 == k);
                    assert(keys_among(tb).contains(k));
                }
            }
        },
        Children::List(v) => {
            lemma_list_targets_are_keys(v@);
            assert(create_children_targets(ch) == create_list_targets(v@));
            assert(children_keys(ch) == list_keys(v@));
        },
        Children::Optional(o) => {
            match o {
                Some(e) => {
                    lemma_targets_are_keys(*e);
                    assert(create_children_targets(ch) == create_targets(*e));
                    assert(children_keys(ch) == keys_of(*e));
                },
                None => {
                    assert(create_children_targets(ch) == Seq::<(u64, u64)>::empty());
                },
            }
        },
    }
}

/// The resources that creating a list asks for are resources of
/// declarations of the list.
pub proof fn lemma_list_targets_are_keys<E, F>(v: Seq<Element<E, F>>)
    ensures
        forall|k: u64| #[trigger]
            keys_among(create_list_targets(v)).contains(k) ==> list_keys(v).contains(k),
    decreases v,
{
    if v.len() > 0 {
        lemma_list_targets_are_keys(v.drop_last());
        lemma_targets_are_keys(v.last());
        let ta = create_list_targets(v.drop_last());
        let tb = create_targets(v.last());
        assert(create_list_targets(v) == ta + tb);
        assert forall|k: u64| #[trigger] keys_among(ta + tb).contains(k) implies list_keys(
            v,
        ).contains(k) by {
            let i = choose|i: int| 0 <= i < (ta + tb).len() && (#[trigger] (ta + tb)[i]).0 == k;
            if i < ta.len() {
                assert(ta[i].0 == k);
                assert(keys_among(ta).contains(k));
            } else {
                assert(tb[i - ta.len()].0 == k);
                assert(keys_among(tb).contains(k));
            }
        }
    }
}

// ----------------------------------------------------------------------
// the per-tick pass and the lens
// ----------------------------------------------------------------------
/// Whether the record `t` holds nothing but per-tick callbacks and
/// applications of projections from `from` up to `to`.
pub open spec fn only_frames(t: Seq<Call>, from: int, to: int) -> bool {
    forall|i: int| from <= i < to ==> (#[trigger] t[i] is Frame || t[i] is Project)
}

/// What a record must hold from `c` on for a per-tick pass to end in `d`:
/// callbacks and projections only, with both stores as they were.
pub open spec fn framed(t: Seq<Call>, c: Cursor, d: Cursor) -> bool {
    &&& c.at <= d.at <= t.len()
    &&& only_frames(t, c.at, d.at)
    &&& d.live == c.live
    &&& d.shared == c.shared
}

/// The per-tick pass creates nothing and destroys nothing: it makes
/// callbacks and applies projections, and both stores come out of it as they
/// went in.
pub proof fn lemma_frame_reads<E, F>(e: Element<E, F>, t: Seq<Call>, c: Cursor)
    requires
        c.ok,
        0 <= c.at <= t.len(),
        frame_run(e, t, c).ok,
    ensures
        framed(t, c, frame_run(e, t, c)),
    decreases e,
{
    match e {
        Element::Wrapper(w) => {
            let c1 = if crate::journal::wrapper_live(w, c.live) {
                crate::journal::step_frame(t, c, w.inner_key->0, w.type_tag)
            } else {
                c
            };
            lemma_frame_children_ok(w.children, t, c1);
            lemma_frame_children_reads(w.children, t, c1);
        },
        Element::Mapped(m) => {
            if m.mapper is Some {
                let present = step_project(t, c, true);
                if present.ok {
                    lemma_frame_reads(*m.wrapped, t, present);
                }
            }
        },
        Element::Dynamic(x) => {
            lemma_frame_reads(*x.0, t, c);
        },
    }
}

/// The per-tick pass over children creates nothing and destroys nothing.
pub proof fn lemma_frame_children_reads<E, F>(ch: Children<E, F>, t: Seq<Call>, c: Cursor)
    requires
        c.ok,
        0 <= c.at <= t.len(),
        frame_children_run(ch, t, c).ok,
    ensures
        framed(t, c, frame_children_run(ch, t, c)),
    decreases ch,
{
    match ch {
        Children::Empty => {},
        Children::Single(e) => {
            lemma_frame_reads(*e, t, c);
        },
        Children::Pair(a, b) => {
            let c1 = frame_children_run(*a, t, c);
            lemma_frame_children_ok(*b, t, c1);
            lemma_frame_children_reads(*a, t, c);
            lemma_frame_children_reads(*b, t, c1);
        },
        Children::List(v) => {
            lemma_frame_list_reads(v@, t, c);
        },
        Children::Optional(o) => {
            match o {
                Some(e) => {
                    lemma_frame_reads(*e, t, c);
                },
                None => {},
            }
        },
    }
}

/// The per-tick pass over a list creates nothing and destroys nothing.
pub proof fn lemma_frame_list_reads<E, F>(v: Seq<Element<E, F>>, t: Seq<Call>, c: Cursor)
    requires
        c.ok,
        0 <= c.at <= t.len(),
        frame_list_run(v, t, c).ok,
    ensures
        framed(t, c, frame_list_run(v, t, c)),
    decreases v,
{
    if v.len() > 0 {
        let c1 = frame_list_run(v.drop_last(), t, c);
        lemma_frame_ok(v.last(), t, c1);
        lemma_frame_list_reads(v.drop_last(), t, c);
        lemma_frame_reads(v.last(), t, c1);
    }
}

/// A subtree behind a projection that selects nothing gets no per-tick
/// callback: the pass over it reads the one application of the projection
/// and nothing more, and both stores stay as they are. So nothing is
/// destroyed while a projection comes up empty, for however many ticks.
pub proof fn lemma_absent_lens_is_silent<E, F>(m: Mapped<E, F>, t: Seq<Call>, c: Cursor)
    requires
        c.ok,
        m.mapper is Some,
        0 <= c.at < t.len(),
        t[c.at] == (Call::Project { present: false }),
    ensures
        frame_run(Element::Mapped(m), t, c) == (Cursor {
            ok: true,
            at: c.at + 1,
            live: c.live,
            shared: c.shared,
        }),
{
}

/// A subtree behind a projection that selects something gets its per-tick
/// callbacks as if it stood there without the projection.
pub proof fn lemma_present_lens_is_transparent<E, F>(m: Mapped<E, F>, t: Seq<Call>, c: Cursor)
    requires
        c.ok,
        m.mapper is Some,
        0 <= c.at < t.len(),
        t[c.at] == (Call::Project { present: true }),
    ensures
        frame_run(Element::Mapped(m), t, c) == frame_run(
            *m.wrapped,
            t,
            Cursor { ok: true, at: c.at + 1, live: c.live, shared: c.shared },
        ),
{
}

/// While a projection selects nothing, the comparison pass leaves the
/// subtree behind it alone: it reads the one application of the projection
/// and nothing more, so nothing behind the projection is updated, created
/// or destroyed, and both stores stay as they are.
pub proof fn lemma_absent_lens_is_kept<E, F>(
    n: Mapped<E, F>,
    o: Mapped<E, F>,
    under: Option<u64>,
    t: Seq<Call>,
    c: Cursor,
)
    requires
        c.ok,
        n.mapper is Some,
        0 <= c.at < t.len(),
        t[c.at] == (Call::Project { present: false }),
    ensures
        diff_run(Element::Mapped(n), Element::Mapped(o), under, t, c) == (Cursor {
            ok: true,
            at: c.at + 1,
            live: c.live,
            shared: c.shared,
        }),
{
}

/// While a projection selects something, the subtree behind it is compared
/// as if it stood there without the projection.
pub proof fn lemma_present_lens_is_compared<E, F>(
    n: Mapped<E, F>,
    o: Mapped<E, F>,
    under: Option<u64>,
    t: Seq<Call>,
    c: Cursor,
)
    requires
        c.ok,
        n.mapper is Some,
        0 <= c.at < t.len(),
        t[c.at] == (Call::Project { present: true }),
    ensures
        diff_run(Element::Mapped(n), Element::Mapped(o), under, t, c) == diff_run(
            *n.wrapped,
            *o.wrapped,
            under,
            t,
            Cursor { ok: true, at: c.at + 1, live: c.live, shared: c.shared },
        ),
{
}

// ----------------------------------------------------------------------
// comparing a description with a copy of itself
// ----------------------------------------------------------------------
/// The calls that comparing `e` with a copy of itself makes while `live`
/// are the live resources and every projection selects something: one
/// update for each declaration whose resource is live, a declaration before
/// what is below it, and one application of each projection on the way.
pub open spec fn update_calls<E, F>(e: Element<E, F>, live: Map<u64, u64>) -> Seq<Call>
    decreases e,
{
    match e {
        Element::Wrapper(w) => (if wrapper_live(w, live) {
            seq![Call::Update { key: w.inner_key->0, type_tag: w.type_tag }]
        } else {
            Seq::empty()
        }) + children_update_calls(w.children, live),
        Element::Mapped(m) => match m.mapper {
            Some(_) => seq![Call::Project { present: true }] + update_calls(*m.wrapped, live),
            None => Seq::empty(),
        },
        Element::Dynamic(d) => update_calls(*d.0, live),
    }
}

/// The updates that comparing the children `ch` with a copy of themselves
/// makes.
pub open spec fn children_update_calls<E, F>(ch: Children<E, F>, live: Map<u64, u64>) -> Seq<
    Call,
>
    decreases ch,
{
    match ch {
        Children::Empty => Seq::empty(),
        Children::Single(e) => update_calls(*e, live),
        Children::Pair(a, b) => children_update_calls(*a, live) + children_update_calls(*b, live),
        Children::List(v) => list_update_calls(v@, live),
        Children::Optional(o) => match o {
            Some(e) => update_calls(*e, live),
            None => Seq::empty(),
        },
    }
}

/// The updates that comparing the elements of `v` with copies of themselves
/// makes, first to last.
pub open spec fn list_update_calls<E, F>(v: Seq<Element<E, F>>, live: Map<u64, u64>) -> Seq<Call>
    decreases v,
{
    if v.len() == 0 {
        Seq::empty()
    } else {
        list_update_calls(v.drop_last(), live) + update_calls(v.last(), live)
    }
}

/// Whether no two elements of one list in `e` carry the same key.
pub open spec fn distinct_keys<E, F>(e: Element<E, F>) -> bool
    decreases e,
{
    match e {
        Element::Wrapper(w) => children_distinct(w.children),
        Element::Mapped(m) => distinct_keys(*m.wrapped),
        Element::Dynamic(d) => distinct_keys(*d.0),
    }
}

/// Whether no two elements of one list in `ch` carry the same key.
pub open spec fn children_distinct<E, F>(ch: Children<E, F>) -> bool
    decreases ch,
{
    match ch {
        Children::Empty => true,
        Children::Single(e) => distinct_keys(*e),
        Children::Pair(a, b) => children_distinct(*a) && children_distinct(*b),
        Children::List(v) => {
            &&& forall|i: int, j: int|
                0 <= i < j < v.len() ==> key_of(#[trigger] v[i]) != key_of(#[trigger] v[j])
            &&& forall|i: int| 0 <= i < v.len() ==> distinct_keys(#[trigger] v[i])
        },
        Children::Optional(o) => match o {
            Some(e) => distinct_keys(*e),
            None => true,
        },
    }
}

/// Whether every projection that the record `t` holds from `from` on
/// selected something.
pub open spec fn every_lens_present(t: Seq<Call>, from: int) -> bool {
    forall|i: int| from <= i < t.len() ==> #[trigger] t[i] != (Call::Project { present: false })
}

/// What a record must hold from `c` on for a comparison that only updates
/// to end in `d`: exactly the calls `calls`, and the same live resources as
/// before.
pub open spec fn updated(t: Seq<Call>, c: Cursor, d: Cursor, calls: Seq<Call>) -> bool {
    &&& d.at == c.at + calls.len()
    &&& d.at <= t.len()
    &&& t.subrange(c.at, d.at) == calls
    &&& d.live == c.live
}

/// An element has the same type as itself.
pub proof fn lemma_same_type_reflexive<E, F>(e: Element<E, F>)
    ensures
        same_type(e, e),
    decreases e,
{
    match e {
        Element::Wrapper(w) => {
            lemma_same_type_children_reflexive(w.children);
        },
        Element::Mapped(m) => {
            lemma_same_type_reflexive(*m.wrapped);
        },
        Element::Dynamic(_) => {},
    }
}

/// Children have the same type as themselves.
pub proof fn lemma_same_type_children_reflexive<E, F>(ch: Children<E, F>)
    ensures
        same_type_children(ch, ch),
    decreases ch,
{
    match ch {
        Children::Single(e) => {
            lemma_same_type_reflexive(*e);
        },
        Children::Pair(a, b) => {
            lemma_same_type_children_reflexive(*a);
            lemma_same_type_children_reflexive(*b);
        },
        _ => {},
    }
}

/// Comparing a description with an exact copy of itself makes exactly one
/// update for each live resource, parents before children, and nothing
/// else but to apply the projections on the way. This holds where no two
/// elements of one list carry the same key (two that do are taken for one
/// node) and where every projection selects something (behind one that does
/// not, nothing is updated).
pub proof fn lemma_diff_against_copy<E, F>(
    e: Element<E, F>,
    under: Option<u64>,
    t: Seq<Call>,
    c: Cursor,
)
    requires
        c.ok,
        0 <= c.at <= t.len(),
        distinct_keys(e),
        every_lens_present(t, c.at),
        diff_run(e, e, under, t, c).ok,
    ensures
        updated(t, c, diff_run(e, e, under, t, c), update_calls(e, c.live)),
    decreases e,
{
    let d = diff_run(e, e, under, t, c);
    match e {
        Element::Wrapper(w) => {
            let c1 = if wrapper_live(w, c.live) {
                step_update(t, c, w.inner_key->0, w.type_tag)
            } else {
                c
            };
            let below = crate::journal::child_parent(w, c1.live, under);
            lemma_diff_children_ok(w.children, w.children, below, t, c1);
            lemma_diff_children_against_copy(w.children, below, t, c1);
            assert(t.subrange(c.at, d.at) =~= t.subrange(c.at, c1.at) + t.subrange(c1.at, d.at));
            if wrapper_live(w, c.live) {
                assert(t.subrange(c.at, c1.at) =~= seq![
                    Call::Update { key: w.inner_key->0, type_tag: w.type_tag },
                ]);
            } else {
                assert(t.subrange(c.at, c1.at) =~= Seq::<Call>::empty());
            }
        },
        Element::Mapped(m) => {
            match m.mapper {
                Some(_) => {
                    let c1 = step_project(t, c, true);
                    assert(c1.ok);
                    lemma_diff_against_copy(*m.wrapped, under, t, c1);
                    assert(t.subrange(c.at, d.at) =~= t.subrange(c.at, c1.at) + t.subrange(
                        c1.at,
                        d.at,
                    ));
                    assert(t.subrange(c.at, c1.at) =~= seq![Call::Project { present: true }]);
                },
                None => {
                    assert(t.subrange(c.at, d.at) =~= Seq::<Call>::empty());
                },
            }
        },
        Element::Dynamic(x) => {
            lemma_same_type_reflexive(*x.0);
            lemma_diff_against_copy(*x.0, under, t, c);
        },
    }
}

/// Comparing children with an exact copy of themselves only updates.
pub proof fn lemma_diff_children_against_copy<E, F>(
    ch: Children<E, F>,
    under: Option<u64>,
    t: Seq<Call>,
    c: Cursor,
)
    requires
        c.ok,
        0 <= c.at <= t.len(),
        children_distinct(ch),
        every_lens_present(t, c.at),
        diff_children_run(ch, ch, under, t, c).ok,
    ensures
        updated(t, c, diff_children_run(ch, ch, under, t, c), children_update_calls(ch, c.live)),
    decreases ch,
{
    let d = diff_children_run(ch, ch, under, t, c);
    match ch {
        Children::Empty => {
            assert(t.subrange(c.at, d.at) =~= Seq::<Call>::empty());
        },
        Children::Single(e) => {
            lemma_diff_against_copy(*e, under, t, c);
        },
        Children::Pair(a, b) => {
            let c1 = diff_children_run(*a, *a, under, t, c);
            lemma_diff_children_ok(*b, *b, under, t, c1);
            lemma_diff_children_against_copy(*a, under, t, c);
            lemma_diff_children_against_copy(*b, under, t, c1);
            assert(t.subrange(c.at, d.at) =~= t.subrange(c.at, c1.at) + t.subrange(c1.at, d.at));
        },
        Children::List(v) => {
            let c1 = common_run(v@, v@, under, t, c);
            let c2 = removed_run(v@, v@, t, c1);
            lemma_added_ok(v@, v@, under, t, c2);
            lemma_removed_ok(v@, v@, t, c1);
            assert(v@.take(v@.len() as int) =~= v@);
            lemma_common_against_copy(v@, v@.len() as int, under, t, c);
            lemma_removed_against_copy(v@, v@.len() as int, t, c1);
            lemma_added_against_copy(v@, v@.len() as int, under, t, c2);
        },
        Children::Optional(o) => {
            match o {
                Some(e) => {
                    lemma_diff_against_copy(*e, under, t, c);
                },
                None => {
                    assert(t.subrange(c.at, d.at) =~= Seq::<Call>::empty());
                },
            }
        },
    }
}

/// Comparing the first `k` elements of a list with the list itself only
/// updates.
pub proof fn lemma_common_against_copy<E, F>(
    v: Seq<Element<E, F>>,
    k: int,
    under: Option<u64>,
    t: Seq<Call>,
    c: Cursor,
)
    requires
        c.ok,
        0 <= c.at <= t.len(),
        0 <= k <= v.len(),
        forall|i: int, j: int|
            0 <= i < j < v.len() ==> key_of(#[trigger] v[i]) != key_of(#[trigger] v[j]),
        forall|i: int| 0 <= i < v.len() ==> distinct_keys(#[trigger] v[i]),
        every_lens_present(t, c.at),
        common_run(v.take(k), v, under, t, c).ok,
    ensures
        updated(
            t,
            c,
            common_run(v.take(k), v, under, t, c),
            list_update_calls(v.take(k), c.live),
        ),
    decreases v, k,
{
    let p = v.take(k);
    let d = common_run(p, v, under, t, c);
    if k == 0 {
        assert(t.subrange(c.at, d.at) =~= Seq::<Call>::empty());
    } else {
        assert(p.drop_last() =~= v.take(k - 1));
        assert(p.last() == v[k - 1]);
        let key = key_of(v[k - 1]);
        assert(is_first_with_key(v, key, k - 1));
        lemma_first_with_key(v, key, k - 1);
        let c0 = common_run(v.take(k - 1), v, under, t, c);
        lemma_diff_ok(v[k - 1], v[k - 1], under, t, c0);
        lemma_common_against_copy(v, k - 1, under, t, c);
        lemma_diff_against_copy(v[k - 1], under, t, c0);
        assert(t.subrange(c.at, d.at) =~= t.subrange(c.at, c0.at) + t.subrange(c0.at, d.at));
    }
}

/// No element of a list is missing from the list itself: nothing is
/// destroyed.
pub proof fn lemma_removed_against_copy<E, F>(
    v: Seq<Element<E, F>>,
    k: int,
    t: Seq<Call>,
    c: Cursor,
)
    requires
        0 <= k <= v.len(),
    ensures
        removed_run(v.take(k), v, t, c) == c,
    decreases k,
{
    if k > 0 {
        let p = v.take(k);
        assert(p.drop_last() =~= v.take(k - 1));
        assert(p.last() == v[k - 1]);
        assert(has_key(v, key_of(v[k - 1])));
        lemma_removed_against_copy(v, k - 1, t, c);
    }
}

/// No element of a list is new to the list itself: nothing is created.
pub proof fn lemma_added_against_copy<E, F>(
    v: Seq<Element<E, F>>,
    k: int,
    under: Option<u64>,
    t: Seq<Call>,
    c: Cursor,
)
    requires
        0 <= k <= v.len(),
    ensures
        added_run(v.take(k), v, under, t, c) == c,
    decreases k,
{
    if k > 0 {
        let p = v.take(k);
        assert(p.drop_last() =~= v.take(k - 1));
        assert(p.last() == v[k - 1]);
        assert(has_key(v, key_of(v[k - 1])));
        lemma_added_against_copy(v, k - 1, under, t, c);
    }
}


/// Whether the record `t` holds nothing but updates and applications of
/// projections from `from` up to `to`.
pub open spec fn only_updates(t: Seq<Call>, from: int, to: int) -> bool {
    forall|i: int| from <= i < to ==> (#[trigger] t[i] is Update || t[i] is Project)
}

/// What a record must hold from `c` on for a comparison that creates
/// nothing and destroys nothing to end in `d`: updates and projections
/// only, and the same live resources as before.
pub open spec fn kept(t: Seq<Call>, c: Cursor, d: Cursor) -> bool {
    &&& c.at <= d.at <= t.len()
    &&& only_updates(t, c.at, d.at)
    &&& d.live == c.live
}

/// Comparing a description with an exact copy of itself creates nothing
/// and destroys nothing, whatever the projections select: the record holds
/// updates and applications of projections only, and the live resources are
/// the same afterwards. This holds where no two elements of one list carry
/// the same key.
pub proof fn lemma_copy_keeps_resources<E, F>(
    e: Element<E, F>,
    under: Option<u64>,
    t: Seq<Call>,
    c: Cursor,
)
    requires
        c.ok,
        0 <= c.at <= t.len(),
        distinct_keys(e),
        diff_run(e, e, under, t, c).ok,
    ensures
        kept(t, c, diff_run(e, e, under, t, c)),
    decreases e,
{
    match e {
        Element::Wrapper(w) => {
            let c1 = if wrapper_live(w, c.live) {
                step_update(t, c, w.inner_key->0, w.type_tag)
            } else {
                c
            };
            let below = crate::journal::child_parent(w, c1.live, under);
            lemma_diff_children_ok(w.children, w.children, below, t, c1);
            lemma_copy_keeps_children(w.children, below, t, c1);
        },
        Element::Mapped(m) => {
            if m.mapper is Some {
                let present = step_project(t, c, true);
                if present.ok {
                    lemma_copy_keeps_resources(*m.wrapped, under, t, present);
                }
            }
        },
        Element::Dynamic(x) => {
            lemma_same_type_reflexive(*x.0);
            lemma_copy_keeps_resources(*x.0, under, t, c);
        },
    }
}

/// Comparing children with an exact copy of themselves creates nothing and
/// destroys nothing.
pub proof fn lemma_copy_keeps_children<E, F>(
    ch: Children<E, F>,
    under: Option<u64>,
    t: Seq<Call>,
    c: Cursor,
)
    requires
        c.ok,
        0 <= c.at <= t.len(),
        children_distinct(ch),
        diff_children_run(ch, ch, under, t, c).ok,
    ensures
        kept(t, c, diff_children_run(ch, ch, under, t, c)),
    decreases ch,
{
    match ch {
        Children::Empty => {},
        Children::Single(e) => {
            lemma_copy_keeps_resources(*e, under, t, c);
        },
        Children::Pair(a, b) => {
            let c1 = diff_children_run(*a, *a, under, t, c);
            lemma_diff_children_ok(*b, *b, under, t, c1);
            lemma_copy_keeps_children(*a, under, t, c);
            lemma_copy_keeps_children(*b, under, t, c1);
        },
        Children::List(v) => {
            let c1 = common_run(v@, v@, under, t, c);
            let c2 = removed_run(v@, v@, t, c1);
            lemma_added_ok(v@, v@, under, t, c2);
            lemma_removed_ok(v@, v@, t, c1);
            assert(v@.take(v@.len() as int) =~= v@);
            lemma_copy_keeps_list(v@, v@.len() as int, under, t, c);
            lemma_removed_against_copy(v@, v@.len() as int, t, c1);
            lemma_added_against_copy(v@, v@.len() as int, under, t, c2);
        },
        Children::Optional(o) => {
            match o {
                Some(e) => {
                    lemma_copy_keeps_resources(*e, under, t, c);
                },
                None => {},
            }
        },
    }
}

/// Comparing the first `k` elements of a list with the list itself creates
/// nothing and destroys nothing.
pub proof fn lemma_copy_keeps_list<E, F>(
    v: Seq<Element<E, F>>,
    k: int,
    under: Option<u64>,
    t: Seq<Call>,
    c: Cursor,
)
    requires
        c.ok,
        0 <= c.at <= t.len(),
        0 <= k <= v.len(),
        forall|i: int, j: int|
            0 <= i < j < v.len() ==> key_of(#[trigger] v[i]) != key_of(#[trigger] v[j]),
        forall|i: int| 0 <= i < v.len() ==> distinct_keys(#[trigger] v[i]),
        common_run(v.take(k), v, under, t, c).ok,
    ensures
        kept(t, c, common_run(v.take(k), v, under, t, c)),
    decreases v, k,
{
    if k > 0 {
        let p = v.take(k);
        assert(p.drop_last() =~= v.take(k - 1));
        assert(p.last() == v[k - 1]);
        let key = key_of(v[k - 1]);
        assert(is_first_with_key(v, key, k - 1));
        lemma_first_with_key(v, key, k - 1);
        let c0 = common_run(v.take(k - 1), v, under, t, c);
        lemma_diff_ok(v[k - 1], v[k - 1], under, t, c0);
        lemma_copy_keeps_list(v, k - 1, under, t, c);
        lemma_copy_keeps_resources(v[k - 1], under, t, c0);
    }
}

// ----------------------------------------------------------------------
// replacing
// ----------------------------------------------------------------------
/// Replacing one subtree by another destroys the old one, then creates the
/// new one, and does nothing else: the record holds the removals of the old
/// subtree, children before parents, and behind them the attempts to create
/// the new one, parents before children. No leaf is asked to update.
pub proof fn lemma_replace_reads<E, F>(
    new_e: Element<E, F>,
    old_e: Element<E, F>,
    under: Option<u64>,
    t: Seq<Call>,
    c: Cursor,
)
    requires
        c.ok,
        0 <= c.at <= t.len(),
        replace_run(new_e, old_e, under, t, c).ok,
    ensures
        destroyed(t, c, destroy_run(old_e, t, c), destroy_calls(old_e), keys_of(old_e)),
        created(
            t,
            destroy_run(old_e, t, c),
            replace_run(new_e, old_e, under, t, c),
            create_targets(new_e),
        ),
{
    let m = destroy_run(old_e, t, c);
    lemma_create_ok(new_e, under, t, m);
    lemma_destroy_reads(old_e, t, c);
    lemma_create_reads(new_e, under, t, m);
}

/// Replacing children by others destroys the old ones, then creates the
/// new ones, and does nothing else.
pub proof fn lemma_replace_children_reads<E, F>(
    new_ch: Children<E, F>,
    old_ch: Children<E, F>,
    under: Option<u64>,
    t: Seq<Call>,
    c: Cursor,
)
    requires
        c.ok,
        0 <= c.at <= t.len(),
        replace_children_run(new_ch, old_ch, under, t, c).ok,
    ensures
        destroyed(
            t,
            c,
            destroy_children_run(old_ch, t, c),
            destroy_children_calls(old_ch),
            children_keys(old_ch),
        ),
        created(
            t,
            destroy_children_run(old_ch, t, c),
            replace_children_run(new_ch, old_ch, under, t, c),
            create_children_targets(new_ch),
        ),
{
    let m = destroy_children_run(old_ch, t, c);
    lemma_create_children_ok(new_ch, under, t, m);
    lemma_destroy_children_reads(old_ch, t, c);
    lemma_create_children_reads(new_ch, under, t, m);
}

/// A node that is declared on both ticks with the same key and the same
/// type is never destroyed and created again: the comparison asks its leaf
/// to update the resource, if it is live, and goes on to the children.
pub proof fn lemma_matched_node_is_updated<E, F>(
    n: ElementWrapper<E, F>,
    o: ElementWrapper<E, F>,
    under: Option<u64>,
    t: Seq<Call>,
    c: Cursor,
)
    requires
        c.ok,
        wrappers_match(n, o),
    ensures
        wrapper_live(n, c.live) ==> diff_run(
            Element::Wrapper(n),
            Element::Wrapper(o),
            under,
            t,
            c,
        ) == diff_children_run(
            n.children,
            o.children,
            n.inner_key,
            t,
            step_update(t, c, n.inner_key->0, n.type_tag),
        ),
        !wrapper_live(n, c.live) ==> diff_run(
            Element::Wrapper(n),
            Element::Wrapper(o),
            under,
            t,
            c,
        ) == diff_children_run(n.children, o.children, under, t, c),
{
    if wrapper_live(n, c.live) {
        let c1 = step_update(t, c, n.inner_key->0, n.type_tag);
        lemma_diff_children_ok(n.children, o.children, n.inner_key, t, c1);
        lemma_diff_children_ok(
            n.children,
            o.children,
            crate::journal::child_parent(n, c1.live, under),
            t,
            c1,
        );
    }
}

/// A node whose declared type has changed since the previous tick is
/// replaced, also where its key is the same: the old subtree is destroyed,
/// then the new one is created, and no leaf is asked to update from
/// parameters of another type.
pub proof fn lemma_type_swap<E, F>(
    n: ElementWrapper<E, F>,
    o: ElementWrapper<E, F>,
    under: Option<u64>,
    t: Seq<Call>,
    c: Cursor,
)
    requires
        c.ok,
        0 <= c.at <= t.len(),
        n.type_tag != o.type_tag,
        diff_run(Element::Wrapper(n), Element::Wrapper(o), under, t, c).ok,
    ensures
        diff_run(Element::Wrapper(n), Element::Wrapper(o), under, t, c) == replace_run(
            Element::Wrapper(n),
            Element::Wrapper(o),
            under,
            t,
            c,
        ),
        destroyed(
            t,
            c,
            destroy_run(Element::Wrapper(o), t, c),
            destroy_calls(Element::Wrapper(o)),
            keys_of(Element::Wrapper(o)),
        ),
        created(
            t,
            destroy_run(Element::Wrapper(o), t, c),
            diff_run(Element::Wrapper(n), Element::Wrapper(o), under, t, c),
            create_targets(Element::Wrapper(n)),
        ),
{
    assert(!wrappers_match(n, o));
    lemma_replace_reads(Element::Wrapper(n), Element::Wrapper(o), under, t, c);
}

/// What stands behind a dynamic element is replaced as a whole where its
/// type differs anywhere from what stood there on the previous tick.
pub proof fn lemma_dynamic_swap<E, F>(
    n: Element<E, F>,
    o: Element<E, F>,
    under: Option<u64>,
    t: Seq<Call>,
    c: Cursor,
)
    requires
        c.ok,
        0 <= c.at <= t.len(),
        !same_type(n, o),
        crate::journal::diff_dynamic_run(n, o, under, t, c).ok,
    ensures
        crate::journal::diff_dynamic_run(n, o, under, t, c) == replace_run(n, o, under, t, c),
        destroyed(t, c, destroy_run(o, t, c), destroy_calls(o), keys_of(o)),
        created(
            t,
            destroy_run(o, t, c),
            crate::journal::diff_dynamic_run(n, o, under, t, c),
            create_targets(n),
        ),
{
    lemma_replace_reads(n, o, under, t, c);
}

// ----------------------------------------------------------------------
// the comparison stays within the record
// ----------------------------------------------------------------------
/// A comparison that ended well read a stretch of the record that lies
/// within it.
pub proof fn lemma_diff_within<E, F>(
    new_e: Element<E, F>,
    old_e: Element<E, F>,
    under: Option<u64>,
    t: Seq<Call>,
    c: Cursor,
)
    requires
        c.ok,
        0 <= c.at <= t.len(),
        diff_run(new_e, old_e, under, t, c).ok,
    ensures
        c.at <= diff_run(new_e, old_e, under, t, c).at <= t.len(),
    decreases new_e,
{
    match (new_e, old_e) {
        (Element::Wrapper(n), Element::Wrapper(o)) => {
            if wrappers_match(n, o) {
                let c1 = if wrapper_live(n, c.live) {
                    step_update(t, c, n.inner_key->0, n.type_tag)
                } else {
                    c
                };
                let below = crate::journal::child_parent(n, c1.live, under);
                lemma_diff_children_ok(n.children, o.children, below, t, c1);
                lemma_diff_children_within(n.children, o.children, below, t, c1);
            } else {
                lemma_replace_reads(new_e, old_e, under, t, c);
            }
        },
        (Element::Mapped(n), Element::Mapped(o)) => {
            if n.mapper is Some {
                let present = step_project(t, c, true);
                if present.ok {
                    lemma_diff_within(*n.wrapped, *o.wrapped, under, t, present);
                }
            }
        },
        (Element::Dynamic(n), Element::Dynamic(o)) => {
            if same_type(*n.0, *o.0) {
                lemma_diff_within(*n.0, *o.0, under, t, c);
            } else {
                lemma_replace_reads(*n.0, *o.0, under, t, c);
            }
        },
        _ => {
            lemma_replace_reads(new_e, old_e, under, t, c);
        },
    }
}

/// A comparison of children that ended well read a stretch of the record
/// that lies within it.
pub proof fn lemma_diff_children_within<E, F>(
    new_ch: Children<E, F>,
    old_ch: Children<E, F>,
    under: Option<u64>,
    t: Seq<Call>,
    c: Cursor,
)
    requires
        c.ok,
        0 <= c.at <= t.len(),
        diff_children_run(new_ch, old_ch, under, t, c).ok,
    ensures
        c.at <= diff_children_run(new_ch, old_ch, under, t, c).at <= t.len(),
    decreases new_ch,
{
    match (new_ch, old_ch) {
        (Children::Empty, Children::Empty) => {},
        (Children::Single(n), Children::Single(o)) => {
            lemma_diff_within(*n, *o, under, t, c);
        },
        (Children::Pair(na, nb), Children::Pair(oa, ob)) => {
            let c1 = diff_children_run(*na, *oa, under, t, c);
            lemma_diff_children_ok(*nb, *ob, under, t, c1);
            lemma_diff_children_within(*na, *oa, under, t, c);
            lemma_diff_children_within(*nb, *ob, under, t, c1);
        },
        (Children::List(nv), Children::List(ov)) => {
            let c1 = common_run(nv@, ov@, under, t, c);
            let c2 = removed_run(ov@, nv@, t, c1);
            lemma_added_ok(nv@, ov@, under, t, c2);
            lemma_removed_ok(ov@, nv@, t, c1);
            lemma_common_within(nv@, ov@, under, t, c);
            lemma_removed_reads(ov@, nv@, t, c1);
            lemma_added_reads(nv@, ov@, under, t, c2);
        },
        (Children::Optional(n), Children::Optional(o)) => {
            match (n, o) {
                (Some(p), Some(q)) => {
                    lemma_diff_within(*p, *q, under, t, c);
                },
                (Some(p), None) => {
                    lemma_create_reads(*p, under, t, c);
                },
                (None, Some(q)) => {
                    lemma_destroy_reads(*q, t, c);
                },
                (None, None) => {},
            }
        },
        _ => {
            lemma_replace_children_reads(new_ch, old_ch, under, t, c);
        },
    }
}

/// The first part of a comparison of lists, if it ended well, read a
/// stretch of the record that lies within it.
pub proof fn lemma_common_within<E, F>(
    nv: Seq<Element<E, F>>,
    ov: Seq<Element<E, F>>,
    under: Option<u64>,
    t: Seq<Call>,
    c: Cursor,
)
    requires
        c.ok,
        0 <= c.at <= t.len(),
        common_run(nv, ov, under, t, c).ok,
    ensures
        c.at <= common_run(nv, ov, under, t, c).at <= t.len(),
    decreases nv,
{
    if nv.len() > 0 {
        let c0 = common_run(nv.drop_last(), ov, under, t, c);
        let key = key_of(nv.last());
        if has_key(ov, key) {
            let j = crate::journal::first_with_key(ov, key);
            lemma_diff_ok(nv.last(), ov[j], under, t, c0);
            lemma_common_within(nv.drop_last(), ov, under, t, c);
            lemma_diff_within(nv.last(), ov[j], under, t, c0);
        } else {
            lemma_common_within(nv.drop_last(), ov, under, t, c);
        }
    }
}

// ----------------------------------------------------------------------
// the order within one list: removals before creations
// ----------------------------------------------------------------------
/// The removals that the comparison of the list `nv` with `ov` makes for
/// the elements that are gone: those of each element of `ov` whose key does
/// not occur in `nv`, in the order of `ov`.
pub open spec fn removed_calls<E, F>(ov: Seq<Element<E, F>>, nv: Seq<Element<E, F>>) -> Seq<Call>
    decreases ov.len(),
{
    if ov.len() == 0 {
        Seq::empty()
    } else if has_key(nv, key_of(ov.last())) {
        removed_calls(ov.drop_last(), nv)
    } else {
        removed_calls(ov.drop_last(), nv) + destroy_calls(ov.last())
    }
}

/// The keys of the declarations in the elements of `ov` whose key does not
/// occur in `nv`.
pub open spec fn removed_keys<E, F>(ov: Seq<Element<E, F>>, nv: Seq<Element<E, F>>) -> Set<u64>
    decreases ov.len(),
{
    if ov.len() == 0 {
        Set::empty()
    } else if has_key(nv, key_of(ov.last())) {
        removed_keys(ov.drop_last(), nv)
    } else {
        removed_keys(ov.drop_last(), nv).union(keys_of(ov.last()))
    }
}

/// The resources that the comparison of the list `nv` with `ov` asks for:
/// those of each element of `nv` whose key does not occur in `ov`, in the
/// order of `nv`.
pub open spec fn added_targets<E, F>(nv: Seq<Element<E, F>>, ov: Seq<Element<E, F>>) -> Seq<
    (u64, u64),
>
    decreases nv.len(),
{
    if nv.len() == 0 {
        Seq::empty()
    } else if has_key(ov, key_of(nv.last())) {
        added_targets(nv.drop_last(), ov)
    } else {
        added_targets(nv.drop_last(), ov) + create_targets(nv.last())
    }
}

/// The second part of a comparison of lists makes removals and nothing
/// else: those of the elements that are gone, in the order in which they
/// were declared.
pub proof fn lemma_removed_reads<E, F>(
    ov: Seq<Element<E, F>>,
    nv: Seq<Element<E, F>>,
    t: Seq<Call>,
    c: Cursor,
)
    requires
        c.ok,
        0 <= c.at <= t.len(),
        removed_run(ov, nv, t, c).ok,
    ensures
        destroyed(t, c, removed_run(ov, nv, t, c), removed_calls(ov, nv), removed_keys(ov, nv)),
    decreases ov.len(),
{
    let d = removed_run(ov, nv, t, c);
    if ov.len() == 0 {
        assert(t.subrange(c.at, d.at) =~= Seq::<Call>::empty());
        assert(d.live =~= c.live.remove_keys(removed_keys(ov, nv)));
    } else {
        let c0 = removed_run(ov.drop_last(), nv, t, c);
        if has_key(nv, key_of(ov.last())) {
            lemma_removed_reads(ov.drop_last(), nv, t, c);
        } else {
            lemma_destroy_ok(ov.last(), t, c0);
            lemma_removed_reads(ov.drop_last(), nv, t, c);
            lemma_destroy_reads(ov.last(), t, c0);
            assert(t.subrange(c.at, d.at) =~= t.subrange(c.at, c0.at) + t.subrange(c0.at, d.at));
            assert(d.live =~= c.live.remove_keys(removed_keys(ov, nv)));
        }
    }
}

/// The last part of a comparison of lists makes attempts to create and
/// nothing else: those for the elements that are new, in the order in which
/// they are declared.
pub proof fn lemma_added_reads<E, F>(
    nv: Seq<Element<E, F>>,
    ov: Seq<Element<E, F>>,
    under: Option<u64>,
    t: Seq<Call>,
    c: Cursor,
)
    requires
        c.ok,
        0 <= c.at <= t.len(),
        added_run(nv, ov, under, t, c).ok,
    ensures
        created(t, c, added_run(nv, ov, under, t, c), added_targets(nv, ov)),
    decreases nv.len(),
{
    if nv.len() == 0 {
        lemma_created_nothing(t, c);
    } else {
        let c0 = added_run(nv.drop_last(), ov, under, t, c);
        if has_key(ov, key_of(nv.last())) {
            lemma_added_reads(nv.drop_last(), ov, under, t, c);
        } else {
            lemma_create_ok(nv.last(), under, t, c0);
            lemma_added_reads(nv.drop_last(), ov, under, t, c);
            lemma_create_reads(nv.last(), under, t, c0);
            lemma_created_append(
                t,
                c,
                c0,
                added_run(nv, ov, under, t, c),
                added_targets(nv.drop_last(), ov),
                create_targets(nv.last()),
            );
        }
    }
}

/// Within one parent every removal is done before any creation begins.
/// When the list `nv` is compared with the list `ov`, the record holds,
/// behind what the comparison of the elements that stay has caused, first
/// the removals of the elements that are gone and only then the attempts to
/// create those that are new, these in the order of declaration.
pub proof fn lemma_removals_precede_creations<E, F>(
    nv: Seq<Element<E, F>>,
    ov: Seq<Element<E, F>>,
    under: Option<u64>,
    t: Seq<Call>,
    c: Cursor,
)
    requires
        c.ok,
        0 <= c.at <= t.len(),
        added_run(nv, ov, under, t, removed_run(ov, nv, t, common_run(nv, ov, under, t, c))).ok,
    ensures
        ({
            let stay = common_run(nv, ov, under, t, c);
            let gone = removed_run(ov, nv, t, stay);
            let done = added_run(nv, ov, under, t, gone);
            &&& c.at <= stay.at <= gone.at <= done.at <= t.len()
            &&& destroyed(t, stay, gone, removed_calls(ov, nv), removed_keys(ov, nv))
            &&& created(t, gone, done, added_targets(nv, ov))
        }),
{
    let stay = common_run(nv, ov, under, t, c);
    let gone = removed_run(ov, nv, t, stay);
    lemma_added_ok(nv, ov, under, t, gone);
    lemma_removed_ok(ov, nv, t, stay);
    lemma_common_within(nv, ov, under, t, c);
    lemma_removed_reads(ov, nv, t, stay);
    lemma_added_reads(nv, ov, under, t, gone);
}

/// Where two lists hold the same keys, in whatever order, nothing is
/// destroyed and nothing is created for the list: its elements are only
/// compared with those that carried their keys.
pub proof fn lemma_same_keys_only_compare<E, F>(
    nv: Seq<Element<E, F>>,
    ov: Seq<Element<E, F>>,
    under: Option<u64>,
    t: Seq<Call>,
    c: Cursor,
)
    requires
        forall|i: int| 0 <= i < nv.len() ==> has_key(ov, key_of(#[trigger] nv[i])),
        forall|j: int| 0 <= j < ov.len() ==> has_key(nv, key_of(#[trigger] ov[j])),
    ensures
        removed_run(ov, nv, t, c) == c,
        added_run(nv, ov, under, t, c) == c,
{
    lemma_no_removal(ov, ov.len() as int, nv, t, c);
    lemma_no_addition(nv, nv.len() as int, ov, under, t, c);
    assert(ov.take(ov.len() as int) =~= ov);
    assert(nv.take(nv.len() as int) =~= nv);
}

/// Elements whose keys all occur in the new list are not destroyed.
pub proof fn lemma_no_removal<E, F>(
    ov: Seq<Element<E, F>>,
    k: int,
    nv: Seq<Element<E, F>>,
    t: Seq<Call>,
    c: Cursor,
)
    requires
        0 <= k <= ov.len(),
        forall|j: int| 0 <= j < k ==> has_key(nv, key_of(#[trigger] ov[j])),
    ensures
        removed_run(ov.take(k), nv, t, c) == c,
    decreases k,
{
    if k > 0 {
        let p = ov.take(k);
        assert(p.drop_last() =~= ov.take(k - 1));
        assert(p.last() == ov[k - 1]);
        lemma_no_removal(ov, k - 1, nv, t, c);
    }
}

/// Elements whose keys all occur in the old list are not created.
pub proof fn lemma_no_addition<E, F>(
    nv: Seq<Element<E, F>>,
    k: int,
    ov: Seq<Element<E, F>>,
    under: Option<u64>,
    t: Seq<Call>,
    c: Cursor,
)
    requires
        0 <= k <= nv.len(),
        forall|i: int| 0 <= i < k ==> has_key(ov, key_of(#[trigger] nv[i])),
    ensures
        added_run(nv.take(k), ov, under, t, c) == c,
    decreases k,
{
    if k > 0 {
        let p = nv.take(k);
        assert(p.drop_last() =~= nv.take(k - 1));
        assert(p.last() == nv[k - 1]);
        lemma_no_addition(nv, k - 1, ov, under, t, c);
    }
}

// ----------------------------------------------------------------------
// reordering a list, and appending to it
// ----------------------------------------------------------------------
/// Whether the element `e` stands somewhere in the list `v`.
pub open spec fn occurs_in<E, F>(v: Seq<Element<E, F>>, e: Element<E, F>) -> bool {
    exists|j: int| 0 <= j < v.len() && #[trigger] v[j] == e
}

/// Reordering a list destroys nothing and creates nothing. Where the new
/// list holds the elements of the old one in another order, each under the
/// key it had (as elements with identities of their own are, wherever they
/// stand), the comparison only updates: the record holds updates and
/// applications of projections, and the live resources are the same
/// afterwards. This holds where no two elements of the old list carry the
/// same key, nor two elements of any list below.
pub proof fn lemma_reordering_keeps_resources<E, F>(
    nv: Seq<Element<E, F>>,
    ov: Seq<Element<E, F>>,
    under: Option<u64>,
    t: Seq<Call>,
    c: Cursor,
)
    requires
        c.ok,
        0 <= c.at <= t.len(),
        forall|i: int, j: int|
            0 <= i < j < ov.len() ==> key_of(#[trigger] ov[i]) != key_of(#[trigger] ov[j]),
        forall|i: int| 0 <= i < nv.len() ==> occurs_in(ov, #[trigger] nv[i]),
        forall|j: int| 0 <= j < ov.len() ==> occurs_in(nv, #[trigger] ov[j]),
        forall|i: int| 0 <= i < nv.len() ==> distinct_keys(#[trigger] nv[i]),
        added_run(nv, ov, under, t, removed_run(ov, nv, t, common_run(nv, ov, under, t, c))).ok,
    ensures
        kept(
            t,
            c,
            added_run(nv, ov, under, t, removed_run(ov, nv, t, common_run(nv, ov, under, t, c))),
        ),
{
    let stay = common_run(nv, ov, under, t, c);
    let gone = removed_run(ov, nv, t, stay);
    lemma_added_ok(nv, ov, under, t, gone);
    lemma_removed_ok(ov, nv, t, stay);
    assert(nv.take(nv.len() as int) =~= nv);
    lemma_reordered_elements_are_compared(nv, nv.len() as int, ov, under, t, c);
    assert forall|i: int| 0 <= i < nv.len() implies has_key(ov, key_of(#[trigger] nv[i])) by {
        let j = choose|j: int| 0 <= j < ov.len() && #[trigger] ov[j] == nv[i];
        assert(key_of(ov[j]) == key_of(nv[i]));
    }
    assert forall|j: int| 0 <= j < ov.len() implies has_key(nv, key_of(#[trigger] ov[j])) by {
        let i = choose|i: int| 0 <= i < nv.len() && #[trigger] nv[i] == ov[j];
        assert(key_of(nv[i]) == key_of(ov[j]));
    }
    lemma_same_keys_only_compare(nv, ov, under, t, stay);
}

/// Comparing the first `k` elements of a reordered list with the old list
/// creates nothing and destroys nothing.
pub proof fn lemma_reordered_elements_are_compared<E, F>(
    nv: Seq<Element<E, F>>,
    k: int,
    ov: Seq<Element<E, F>>,
    under: Option<u64>,
    t: Seq<Call>,
    c: Cursor,
)
    requires
        c.ok,
        0 <= c.at <= t.len(),
        0 <= k <= nv.len(),
        forall|i: int, j: int|
            0 <= i < j < ov.len() ==> key_of(#[trigger] ov[i]) != key_of(#[trigger] ov[j]),
        forall|i: int| 0 <= i < nv.len() ==> occurs_in(ov, #[trigger] nv[i]),
        forall|i: int| 0 <= i < nv.len() ==> distinct_keys(#[trigger] nv[i]),
        common_run(nv.take(k), ov, under, t, c).ok,
    ensures
        kept(t, c, common_run(nv.take(k), ov, under, t, c)),
    decreases k,
{
    if k > 0 {
        let p = nv.take(k);
        assert(p.drop_last() =~= nv.take(k - 1));
        assert(p.last() == nv[k - 1]);
        let e = nv[k - 1];
        let key = key_of(e);
        assert(occurs_in(ov, e));
        let j = choose|j: int| 0 <= j < ov.len() && #[trigger] ov[j] == e;
        assert(is_first_with_key(ov, key, j));
        lemma_first_with_key(ov, key, j);
        let c0 = common_run(nv.take(k - 1), ov, under, t, c);
        lemma_diff_ok(e, e, under, t, c0);
        lemma_reordered_elements_are_compared(nv, k - 1, ov, under, t, c);
        lemma_copy_keeps_resources(e, under, t, c0);
    }
}

/// Appending to a list creates what was appended and nothing else. Where
/// the new list is the old one with one more element behind it, under a key
/// that the old list does not hold, the comparison creates the resources of
/// that element, and destroys none.
pub proof fn lemma_appending_creates_the_new_element<E, F>(
    ov: Seq<Element<E, F>>,
    e: Element<E, F>,
)
    requires
        !has_key(ov, key_of(e)),
    ensures
        added_targets(ov.push(e), ov) == create_targets(e),
        removed_calls(ov, ov.push(e)) == Seq::<Call>::empty(),
{
    let nv = ov.push(e);
    assert(nv.drop_last() =~= ov);
    assert(nv.last() == e);
    lemma_nothing_added_from(ov, ov.len() as int, ov);
    assert(ov.take(ov.len() as int) =~= ov);
    assert(added_targets(nv, ov) =~= create_targets(e));
    assert forall|j: int| 0 <= j < ov.len() implies has_key(nv, key_of(#[trigger] ov[j])) by {
        assert(nv[j] == ov[j]);
    }
    lemma_nothing_removed_from(ov, ov.len() as int, nv);
}

/// Of elements whose keys all occur in the old list, none is a target of
/// creation.
pub proof fn lemma_nothing_added_from<E, F>(
    nv: Seq<Element<E, F>>,
    k: int,
    ov: Seq<Element<E, F>>,
)
    requires
        0 <= k <= nv.len(),
        forall|i: int| 0 <= i < k ==> has_key(ov, key_of(#[trigger] nv[i])),
    ensures
        added_targets(nv.take(k), ov) == Seq::<(u64, u64)>::empty(),
    decreases k,
{
    if k > 0 {
        let p = nv.take(k);
        assert(p.drop_last() =~= nv.take(k - 1));
        assert(p.last() == nv[k - 1]);
        lemma_nothing_added_from(nv, k - 1, ov);
    }
}

/// Of elements whose keys all occur in the new list, none is removed.
pub proof fn lemma_nothing_removed_from<E, F>(
    ov: Seq<Element<E, F>>,
    k: int,
    nv: Seq<Element<E, F>>,
)
    requires
        0 <= k <= ov.len(),
        forall|j: int| 0 <= j < k ==> has_key(nv, key_of(#[trigger] ov[j])),
    ensures
        removed_calls(ov.take(k), nv) == Seq::<Call>::empty(),
    decreases k,
{
    if k > 0 {
        let p = ov.take(k);
        assert(p.drop_last() =~= ov.take(k - 1));
        assert(p.last() == ov[k - 1]);
        lemma_nothing_removed_from(ov, k - 1, nv);
    }
}

// ----------------------------------------------------------------------
// the native resources follow the description
// ----------------------------------------------------------------------
/// Whether every projection in `e` has its function.
pub open spec fn lenses_project<E, F>(e: Element<E, F>) -> bool
    decreases e,
{
    match e {
        Element::Wrapper(w) => children_lenses_project(w.children),
        Element::Mapped(m) => m.mapper is Some && lenses_project(*m.wrapped),
        Element::Dynamic(d) => lenses_project(*d.0),
    }
}

/// Whether every projection in `ch` has its function.
pub open spec fn children_lenses_project<E, F>(ch: Children<E, F>) -> bool
    decreases ch,
{
    match ch {
        Children::Empty => true,
        Children::Single(e) => lenses_project(*e),
        Children::Pair(a, b) => children_lenses_project(*a) && children_lenses_project(*b),
        Children::List(v) => forall|i: int| 0 <= i < v.len() ==> lenses_project(#[trigger] v[i]),
        Children::Optional(o) => match o {
            Some(e) => lenses_project(*e),
            None => true,
        },
    }
}

/// Whether every live key is one of `keys` or one of `outside`.
pub open spec fn within(live: Map<u64, u64>, keys: Set<u64>, outside: Set<u64>) -> bool {
    forall|k: u64| #[trigger] live.contains_key(k) ==> keys.contains(k) || outside.contains(k)
}

/// Replacing a subtree leaves no resource of the old subtree behind: where
/// every live key was a key of the old subtree or lay outside, every live
/// key is afterwards a key of the new subtree or lies outside.
pub proof fn lemma_replace_follows<E, F>(
    new_e: Element<E, F>,
    old_e: Element<E, F>,
    under: Option<u64>,
    t: Seq<Call>,
    c: Cursor,
    outside: Set<u64>,
)
    requires
        c.ok,
        0 <= c.at <= t.len(),
        replace_run(new_e, old_e, under, t, c).ok,
        within(c.live, keys_of(old_e), outside),
    ensures
        within(replace_run(new_e, old_e, under, t, c).live, keys_of(new_e), outside),
        c.at <= replace_run(new_e, old_e, under, t, c).at <= t.len(),
{
    lemma_replace_reads(new_e, old_e, under, t, c);
    lemma_targets_are_keys(new_e);
    let m = destroy_run(old_e, t, c);
    let d = replace_run(new_e, old_e, under, t, c);
    assert forall|k: u64| #[trigger] d.live.contains_key(k) implies keys_of(new_e).contains(k)
        || outside.contains(k) by {
        if !keys_among(create_targets(new_e)).contains(k) {
            assert(m.live.contains_key(k));
            assert(c.live.contains_key(k));
        }
    }
}

/// Replacing children leaves no resource of the old children behind.
pub proof fn lemma_replace_children_follows<E, F>(
    new_ch: Children<E, F>,
    old_ch: Children<E, F>,
    under: Option<u64>,
    t: Seq<Call>,
    c: Cursor,
    outside: Set<u64>,
)
    requires
        c.ok,
        0 <= c.at <= t.len(),
        replace_children_run(new_ch, old_ch, under, t, c).ok,
        within(c.live, children_keys(old_ch), outside),
    ensures
        within(
            replace_children_run(new_ch, old_ch, under, t, c).live,
            children_keys(new_ch),
            outside,
        ),
        c.at <= replace_children_run(new_ch, old_ch, under, t, c).at <= t.len(),
{
    lemma_replace_children_reads(new_ch, old_ch, under, t, c);
    lemma_children_targets_are_keys(new_ch);
    let m = destroy_children_run(old_ch, t, c);
    let d = replace_children_run(new_ch, old_ch, under, t, c);
    assert forall|k: u64| #[trigger] d.live.contains_key(k) implies children_keys(new_ch).contains(
        k,
    ) || outside.contains(k) by {
        if !keys_among(create_children_targets(new_ch)).contains(k) {
            assert(m.live.contains_key(k));
            assert(c.live.contains_key(k));
        }
    }
}

/// The comparison leaves no resource behind that the new description does
/// not declare. Where every live key was a key of the old subtree or lay
/// outside, every live key is afterwards a key of the new subtree or lies
/// outside. This holds where no two elements of one list of the old subtree
/// carry the same key, and every projection of the new subtree has its
/// function and selects something: behind a projection that selects nothing
/// the subtree is left as it was, whatever is declared now.
pub proof fn lemma_diff_follows<E, F>(
    new_e: Element<E, F>,
    old_e: Element<E, F>,
    under: Option<u64>,
    t: Seq<Call>,
    c: Cursor,
    outside: Set<u64>,
)
    requires
        c.ok,
        0 <= c.at <= t.len(),
        distinct_keys(old_e),
        lenses_project(new_e),
        every_lens_present(t, c.at),
        diff_run(new_e, old_e, under, t, c).ok,
        within(c.live, keys_of(old_e), outside),
    ensures
        within(diff_run(new_e, old_e, under, t, c).live, keys_of(new_e), outside),
        c.at <= diff_run(new_e, old_e, under, t, c).at <= t.len(),
    decreases new_e,
{
    let d = diff_run(new_e, old_e, under, t, c);
    match (new_e, old_e) {
        (Element::Wrapper(n), Element::Wrapper(o)) => {
            if wrappers_match(n, o) {
                let c1 = if wrapper_live(n, c.live) {
                    step_update(t, c, n.inner_key->0, n.type_tag)
                } else {
                    c
                };
                let below = crate::journal::child_parent(n, c1.live, under);
                lemma_diff_children_ok(n.children, o.children, below, t, c1);
                let own: Set<u64> = match n.inner_key {
                    Some(key) => set![key],
                    None => Set::empty(),
                };
                let wider = outside.union(own);
                assert(within(c1.live, children_keys(o.children), wider));
                lemma_diff_children_follows(n.children, o.children, below, t, c1, wider);
                assert forall|k: u64| #[trigger] d.live.contains_key(k) implies keys_of(
                    new_e,
                ).contains(k) || outside.contains(k) by {
                    assert(children_keys(n.children).contains(k) || wider.contains(k));
                }
            } else {
                lemma_replace_follows(new_e, old_e, under, t, c, outside);
            }
        },
        (Element::Mapped(n), Element::Mapped(o)) => {
            let present = step_project(t, c, true);
            assert(present.ok);
            lemma_diff_follows(*n.wrapped, *o.wrapped, under, t, present, outside);
        },
        (Element::Dynamic(n), Element::Dynamic(o)) => {
            if same_type(*n.0, *o.0) {
                lemma_diff_follows(*n.0, *o.0, under, t, c, outside);
            } else {
                lemma_replace_follows(*n.0, *o.0, under, t, c, outside);
            }
        },
        _ => {
            lemma_replace_follows(new_e, old_e, under, t, c, outside);
        },
    }
}

/// The comparison of children leaves no resource behind that the new
/// children do not declare.
pub proof fn lemma_diff_children_follows<E, F>(
    new_ch: Children<E, F>,
    old_ch: Children<E, F>,
    under: Option<u64>,
    t: Seq<Call>,
    c: Cursor,
    outside: Set<u64>,
)
    requires
        c.ok,
        0 <= c.at <= t.len(),
        children_distinct(old_ch),
        children_lenses_project(new_ch),
        every_lens_present(t, c.at),
        diff_children_run(new_ch, old_ch, under, t, c).ok,
        within(c.live, children_keys(old_ch), outside),
    ensures
        within(
            diff_children_run(new_ch, old_ch, under, t, c).live,
            children_keys(new_ch),
            outside,
        ),
        c.at <= diff_children_run(new_ch, old_ch, under, t, c).at <= t.len(),
    decreases new_ch,
{
    let d = diff_children_run(new_ch, old_ch, under, t, c);
    match (new_ch, old_ch) {
        (Children::Empty, Children::Empty) => {},
        (Children::Single(n), Children::Single(o)) => {
            lemma_diff_follows(*n, *o, under, t, c, outside);
        },
        (Children::Pair(na, nb), Children::Pair(oa, ob)) => {
            let c1 = diff_children_run(*na, *oa, under, t, c);
            lemma_diff_children_ok(*nb, *ob, under, t, c1);
            let first = outside.union(children_keys(*ob));
            assert(within(c.live, children_keys(*oa), first));
            lemma_diff_children_follows(*na, *oa, under, t, c, first);
            let second = outside.union(children_keys(*na));
            assert forall|k: u64| #[trigger] c1.live.contains_key(k) implies children_keys(
                *ob,
            ).contains(k) || second.contains(k) by {
                assert(children_keys(*na).contains(k) || first.contains(k));
            }
            lemma_diff_children_follows(*nb, *ob, under, t, c1, second);
            assert forall|k: u64| #[trigger] d.live.contains_key(k) implies children_keys(
                new_ch,
            ).contains(k) || outside.contains(k) by {
                assert(children_keys(*nb).contains(k) || second.contains(k));
            }
        },
        (Children::List(nv), Children::List(ov)) => {
            let stay = common_run(nv@, ov@, under, t, c);
            let gone = removed_run(ov@, nv@, t, stay);
            lemma_added_ok(nv@, ov@, under, t, gone);
            lemma_removed_ok(ov@, nv@, t, stay);
            assert(nv@.take(nv@.len() as int) =~= nv@);
            lemma_common_follows(nv@, nv@.len() as int, ov@, under, t, c, outside);
            lemma_removed_reads(ov@, nv@, t, stay);
            lemma_added_reads(nv@, ov@, under, t, gone);
            lemma_added_targets_are_keys(nv@, ov@);
            assert forall|k: u64| #[trigger] d.live.contains_key(k) implies list_keys(nv@).contains(
                k,
            ) || outside.contains(k) by {
                if !keys_among(added_targets(nv@, ov@)).contains(k) {
                    assert(gone.live.contains_key(k));
                    assert(stay.live.contains_key(k));
                    assert(!removed_keys(ov@, nv@).contains(k));
                    assert(list_keys(nv@).union(removed_keys(ov@, nv@)).contains(k)
                        || outside.contains(k));
                }
            }
        },
        (Children::Optional(n), Children::Optional(o)) => {
            match (n, o) {
                (Some(p), Some(q)) => {
                    lemma_diff_follows(*p, *q, under, t, c, outside);
                },
                (Some(p), None) => {
                    lemma_create_reads(*p, under, t, c);
                    lemma_targets_are_keys(*p);
                    assert forall|k: u64| #[trigger] d.live.contains_key(k) implies children_keys(
                        new_ch,
                    ).contains(k) || outside.contains(k) by {
                        if !keys_among(create_targets(*p)).contains(k) {
                            assert(c.live.contains_key(k));
                        }
                    }
                },
                (None, Some(q)) => {
                    lemma_destroy_reads(*q, t, c);
                    assert forall|k: u64| #[trigger] d.live.contains_key(k) implies children_keys(
                        new_ch,
                    ).contains(k) || outside.contains(k) by {
                        assert(c.live.contains_key(k));
                    }
                },
                (None, None) => {},
            }
        },
        _ => {
            lemma_replace_children_follows(new_ch, old_ch, under, t, c, outside);
        },
    }
}

/// Once the first `k` elements of the new list have been compared, every
/// live key is a key of one of them, or of an old element whose key none of
/// them carries, or lies outside.
pub proof fn lemma_common_follows<E, F>(
    nv: Seq<Element<E, F>>,
    k: int,
    ov: Seq<Element<E, F>>,
    under: Option<u64>,
    t: Seq<Call>,
    c: Cursor,
    outside: Set<u64>,
)
    requires
        c.ok,
        0 <= c.at <= t.len(),
        0 <= k <= nv.len(),
        forall|i: int, j: int|
            0 <= i < j < ov.len() ==> key_of(#[trigger] ov[i]) != key_of(#[trigger] ov[j]),
        forall|j: int| 0 <= j < ov.len() ==> distinct_keys(#[trigger] ov[j]),
        forall|i: int| 0 <= i < nv.len() ==> lenses_project(#[trigger] nv[i]),
        every_lens_present(t, c.at),
        common_run(nv.take(k), ov, under, t, c).ok,
        within(c.live, list_keys(ov), outside),
    ensures
        within(
            common_run(nv.take(k), ov, under, t, c).live,
            list_keys(nv.take(k)).union(removed_keys(ov, nv.take(k))),
            outside,
        ),
        c.at <= common_run(nv.take(k), ov, under, t, c).at <= t.len(),
    decreases nv, k,
{
    let p = nv.take(k);
    let d = common_run(p, ov, under, t, c);
    if k == 0 {
        lemma_nothing_matched(ov, ov.len() as int, p);
        assert(ov.take(ov.len() as int) =~= ov);
    } else {
        let q = nv.take(k - 1);
        assert(p.drop_last() =~= q);
        assert(p.last() == nv[k - 1]);
        let n = nv[k - 1];
        let key = key_of(n);
        let c0 = common_run(q, ov, under, t, c);
        if has_key(ov, key) {
            let j = choose|j: int| 0 <= j < ov.len() && key_of(#[trigger] ov[j]) == key;
            assert(is_first_with_key(ov, key, j)) by {
                assert forall|i: int| 0 <= i < j implies key_of(#[trigger] ov[i]) != key by {
                    assert(key_of(ov[i]) != key_of(ov[j]));
                }
            }
            lemma_first_with_key(ov, key, j);
            lemma_diff_ok(n, ov[j], under, t, c0);
            lemma_common_follows(nv, k - 1, ov, under, t, c, outside);
            assert forall|i: int| 0 <= i < ov.len() && key_of(ov[i]) == key implies i == j by {
                if i < j {
                    assert(key_of(ov[i]) != key_of(ov[j]));
                }
                if j < i {
                    assert(key_of(ov[j]) != key_of(ov[i]));
                }
            }
            lemma_matching_one_more(ov, ov.len() as int, q, n, keys_of(ov[j]));
            assert(ov.take(ov.len() as int) =~= ov);
            assert(q.push(n) =~= p);
            let wider = outside.union(list_keys(q)).union(removed_keys(ov, p));
            assert forall|x: u64| #[trigger] c0.live.contains_key(x) implies keys_of(
                ov[j],
            ).contains(x) || wider.contains(x) by {
                assert(list_keys(q).union(removed_keys(ov, q)).contains(x) || outside.contains(x));
            }
            lemma_diff_follows(n, ov[j], under, t, c0, wider);
            assert forall|x: u64| #[trigger] d.live.contains_key(x) implies list_keys(p).union(
                removed_keys(ov, p),
            ).contains(x) || outside.contains(x) by {
                assert(keys_of(n).contains(x) || wider.contains(x));
            }
        } else {
            lemma_common_follows(nv, k - 1, ov, under, t, c, outside);
            lemma_matching_one_more(ov, ov.len() as int, q, n, Set::empty());
            assert(ov.take(ov.len() as int) =~= ov);
            assert(q.push(n) =~= p);
            assert forall|x: u64| #[trigger] d.live.contains_key(x) implies list_keys(p).union(
                removed_keys(ov, p),
            ).contains(x) || outside.contains(x) by {
                assert(list_keys(q).union(removed_keys(ov, q)).contains(x) || outside.contains(x));
            }
        }
    }
}

/// Against an empty list every old element is gone: the keys to remove are
/// all the keys of the old list.
pub proof fn lemma_nothing_matched<E, F>(
    ov: Seq<Element<E, F>>,
    k: int,
    none: Seq<Element<E, F>>,
)
    requires
        0 <= k <= ov.len(),
        none.len() == 0,
    ensures
        removed_keys(ov.take(k), none) == list_keys(ov.take(k)),
    decreases k,
{
    if k > 0 {
        let p = ov.take(k);
        assert(p.drop_last() =~= ov.take(k - 1));
        assert(p.last() == ov[k - 1]);
        assert(!has_key(none, key_of(ov[k - 1])));
        lemma_nothing_matched(ov, k - 1, none);
    } else {
        assert(removed_keys(ov.take(0), none) =~= list_keys(ov.take(0)));
    }
}

/// One more element in the new list takes out of the keys to remove only
/// keys of old elements that carry its key: where those keys all lie in
/// `matched`, a key that was to be removed is still to be removed or lies in
/// `matched`.
pub proof fn lemma_matching_one_more<E, F>(
    ov: Seq<Element<E, F>>,
    k: int,
    p: Seq<Element<E, F>>,
    n: Element<E, F>,
    matched: Set<u64>,
)
    requires
        0 <= k <= ov.len(),
        forall|i: int, x: u64|
            0 <= i < ov.len() && key_of(#[trigger] ov[i]) == key_of(n) && #[trigger] keys_of(
                ov[i],
            ).contains(x) ==> matched.contains(x),
    ensures
        forall|x: u64| #[trigger]
            removed_keys(ov.take(k), p).contains(x) ==> removed_keys(ov.take(k), p.push(n)).contains(
                x,
            ) || matched.contains(x),
    decreases k,
{
    if k > 0 {
        let v = ov.take(k);
        assert(v.drop_last() =~= ov.take(k - 1));
        assert(v.last() == ov[k - 1]);
        let o = ov[k - 1];
        lemma_matching_one_more(ov, k - 1, p, n, matched);
        let more = p.push(n);
        assert forall|x: u64| #[trigger] removed_keys(v, p).contains(x) implies removed_keys(
            v,
            more,
        ).contains(x) || matched.contains(x) by {
            if has_key(p, key_of(o)) {
                assert(removed_keys(ov.take(k - 1), p).contains(x));
            } else if removed_keys(ov.take(k - 1), p).contains(x) {
            } else {
                assert(keys_of(o).contains(x));
                if has_key(more, key_of(o)) {
                    let i = choose|i: int| 0 <= i < more.len() && key_of(#[trigger] more[i]) == key_of(o);
                    if i < p.len() {
                        assert(more[i] == p[i]);
                        assert(has_key(p, key_of(o)));
                    }
                    assert(key_of(o) == key_of(n));
                }
            }
            if has_key(more, key_of(o)) {
            } else {
                assert(removed_keys(v, more) == removed_keys(ov.take(k - 1), more).union(
                    keys_of(o),
                ));
            }
            if has_key(p, key_of(o)) {
                let i = choose|i: int| 0 <= i < p.len() && key_of(#[trigger] p[i]) == key_of(o);
                assert(more[i] == p[i]);
                assert(has_key(more, key_of(o)));
            }
        }
    }
}

/// The resources that the comparison of two lists asks for are resources
/// of declarations of the new list.
pub proof fn lemma_added_targets_are_keys<E, F>(nv: Seq<Element<E, F>>, ov: Seq<Element<E, F>>)
    ensures
        forall|k: u64| #[trigger]
            keys_among(added_targets(nv, ov)).contains(k) ==> list_keys(nv).contains(k),
    decreases nv.len(),
{
    if nv.len() > 0 {
        lemma_added_targets_are_keys(nv.drop_last(), ov);
        lemma_targets_are_keys(nv.last());
        if !has_key(ov, key_of(nv.last())) {
            let ta = added_targets(nv.drop_last(), ov);
            let tb = create_targets(nv.last());
            assert(added_targets(nv, ov) == ta + tb);
            assert forall|k: u64| #[trigger] keys_among(ta + tb).contains(k) implies list_keys(
                nv,
            ).contains(k) by {
                let i = choose|i: int|
                    0 <= i < (ta + tb).len() && (#[trigger] (ta + tb)[i]).0 == k;
                if i < ta.len() {
                    assert(ta[i].0 == k);
                    assert(keys_among(ta).contains(k));
                } else {
                    assert(tb[i - ta.len()].0 == k);
                    assert(keys_among(tb).contains(k));
                }
            }
        } else {
            assert(added_targets(nv, ov) == added_targets(nv.drop_last(), ov));
        }
    } else {
        assert(added_targets(nv, ov) == Seq::<(u64, u64)>::empty());
    }
}

// ----------------------------------------------------------------------
// keys
// ----------------------------------------------------------------------
/// An element that is stamped with a key carries it.
pub proof fn lemma_keyed_carries_key<E, F>(e: Element<E, F>, key: u64)
    requires
        keyed(e, key),
    ensures
        key_of(e) == Some(key),
    decreases e,
{
    match e {
        Element::Wrapper(_) => {},
        Element::Mapped(m) => {
            lemma_keyed_carries_key(*m.wrapped, key);
        },
        Element::Dynamic(d) => {
            lemma_keyed_carries_key(*d.0, key);
        },
    }
}

/// The key of an element of a list depends on the list's scope, on the
/// element's own position or identity and on its type, and on nothing
/// else: what stands beside it, before it or behind it, has no say.
pub proof fn lemma_list_element_key<E, F>(v: Vec<Element<E, F>>, scope: u64, i: int)
    requires
        keyed_children(Children::List(v), scope),
        0 <= i < v.len(),
    ensures
        key_of(v[i]) == Some(slot_key(scope, i as usize, v[i])),
{
    let ch = Children::List(v);
    assert(ch->List_0 == v);
    assert(keyed(v[i], slot_key(scope, i as usize, v[i])));
    lemma_keyed_carries_key(v[i], slot_key(scope, i as usize, v[i]));
}

/// An element with an identity of its own has the same key at every
/// position: reordering its list, or adding and removing siblings, leaves
/// the key as it is.
pub proof fn lemma_identity_outlives_position<E, F>(
    e: Element<E, F>,
    scope: u64,
    here: usize,
    there: usize,
)
    requires
        stable_id_of(e) is Some,
    ensures
        slot_key(scope, here, e) == slot_key(scope, there, e),
        slot_key(scope, here, e) == keyed_inner_key(scope, stable_id_of(e)->0, declared_tag(e)),
{
}

/// An element without an identity of its own is keyed by its position.
pub proof fn lemma_position_is_the_default<E, F>(e: Element<E, F>, scope: u64, position: usize)
    requires
        stable_id_of(e) is None,
    ensures
        slot_key(scope, position, e) == positional_inner_key(scope, position, declared_tag(e)),
{
}

} // verus!
