use asteroids::element::{generate_slot_key, DYNAMIC_TYPE_TAG, GROUP_TYPE_TAG};
use asteroids::key::generate_stable_id;
use asteroids::tree::stamp;
use asteroids::{
    apply_element_keys, generate_keyed_inner_key, generate_positional_inner_key, Children,
    CreateInnerInfo, CustomElement, Element, ElementWrapper, Identifiable, Mapper,
};
use std::collections::hash_map::DefaultHasher;
use std::hash::{Hash, Hasher};

#[derive(Clone, Debug, PartialEq)]
struct Leaf(u64);

struct NoLens;

impl Mapper<()> for NoLens {
    fn project<'a>(&self, _state: &'a mut ()) -> Option<&'a mut ()> {
        None
    }
}

impl CustomElement for Leaf {
    type State = ();
    type Context = ();
    type FrameInfo = ();
    type Space = ();
    type Inner = ();
    type Resource = ();
    type Error = ();

    fn type_tag(&self) -> u64 {
        self.0
    }

    fn full_name(&self) -> String {
        "Leaf".to_string()
    }

    fn create_inner(&self, _: &(), _: CreateInnerInfo<'_, ()>, _: &mut ()) -> Result<(), ()> {
        Ok(())
    }

    fn diff(&self, _: &Self, _: &mut (), _: &mut ()) {}

    fn frame(&self, _: &(), _: &(), _: &mut (), _: &mut ()) {}

    fn spatial_aspect(&self, _: &()) {}
}

fn leaf(tag: u64) -> ElementWrapper<Leaf, NoLens> {
    ElementWrapper::new(Leaf(tag))
}

fn digest(words: [u64; 3]) -> u64 {
    let mut hasher = DefaultHasher::new();
    for word in words {
        hasher.write(&word.to_le_bytes());
    }
    hasher.finish()
}

#[test]
fn a_key_is_the_digest_of_scope_slot_and_type() {
    assert_eq!(generate_positional_inner_key(1, 2, 3), digest([1, 2, 3]));
    assert_eq!(generate_keyed_inner_key(1, 2, 3), digest([1, 2, 3]));
    assert_eq!(generate_positional_inner_key(0, 0, 0), 17942395924573474124);
    assert_eq!(generate_keyed_inner_key(u64::MAX, 77, 5), digest([u64::MAX, 77, 5]));
}

#[test]
fn a_key_is_what_hashing_the_three_values_in_turn_gives() {
    let mut hasher = DefaultHasher::new();
    9u64.hash(&mut hasher);
    4usize.hash(&mut hasher);
    21u64.hash(&mut hasher);
    assert_eq!(generate_positional_inner_key(9, 4, 21), hasher.finish());
}

#[test]
fn scope_slot_and_type_each_change_the_key() {
    let key = generate_positional_inner_key(1, 2, 3);
    assert_ne!(key, generate_positional_inner_key(2, 2, 3));
    assert_ne!(key, generate_positional_inner_key(1, 3, 3));
    assert_ne!(key, generate_positional_inner_key(1, 2, 4));
    assert_ne!(key, generate_positional_inner_key(3, 2, 1));
}

#[test]
fn an_identity_is_the_digest_of_the_value_given() {
    let mut hasher = DefaultHasher::new();
    "door".hash(&mut hasher);
    let expected = hasher.finish();
    assert_eq!(generate_stable_id(&"door"), expected);
    assert_eq!(generate_stable_id(&"door"), generate_stable_id(&"door"));
    assert_ne!(generate_stable_id(&"door"), generate_stable_id(&"window"));
    assert_ne!(generate_stable_id(&5u64), DefaultHasher::new().finish());
    assert_eq!(leaf(1).identify(&"door").stable_id, Some(expected));
    assert_eq!(leaf(1).element().identify(&"door").stable_id(), Some(expected));
}

#[test]
fn an_identified_element_keeps_its_key_at_every_position() {
    let door = leaf(8).with_stable_id(42).element();
    assert_eq!(generate_slot_key(5, 0, &door), generate_slot_key(5, 9, &door));
    assert_eq!(generate_slot_key(5, 0, &door), generate_keyed_inner_key(5, 42, 8));
    let plain = leaf(8).element();
    assert_ne!(generate_slot_key(5, 0, &plain), generate_slot_key(5, 9, &plain));
    assert_eq!(generate_slot_key(5, 9, &plain), generate_positional_inner_key(5, 9, 8));
}

#[test]
fn identity_and_type_are_seen_through_lens_and_dynamic() {
    let lensed = leaf(8).with_stable_id(42).element().map(NoLens);
    assert_eq!(lensed.declared_tag(), 8);
    assert_eq!(lensed.stable_id(), Some(42));
    let dynamic = leaf(8).with_stable_id(42).element().dynamic();
    assert_eq!(dynamic.declared_tag(), DYNAMIC_TYPE_TAG);
    assert_eq!(dynamic.stable_id(), Some(42));
    assert_eq!(leaf(8).element().map(NoLens).with_stable_id(3).stable_id(), Some(3));
    assert_eq!(leaf(8).element().dynamic().with_stable_id(3).stable_id(), Some(3));
}

#[test]
fn keys_are_assigned_from_the_root_down() {
    let mut root = leaf(1)
        .child(leaf(2).element())
        .children(vec![leaf(3).element(), leaf(3).with_stable_id(99).element(), leaf(4).element()])
        .maybe_child(Some(leaf(5).element().map(NoLens)))
        .element();
    apply_element_keys(&mut root, 1000);
    assert_eq!(root.inner_key(), Some(1000));
    let Element::Wrapper(root) = root else { unreachable!() };
    let Children::Pair(rest, optional) = root.children else { unreachable!() };
    let Children::Pair(rest, list) = *rest else { unreachable!() };
    let Children::Pair(empty, single) = *rest else { unreachable!() };
    assert_eq!(matches!(*empty, Children::Empty), true);
    let first = generate_positional_inner_key(1000, 0, GROUP_TYPE_TAG);
    let second = generate_positional_inner_key(1000, 1, GROUP_TYPE_TAG);
    let first_first = generate_positional_inner_key(first, 0, GROUP_TYPE_TAG);
    let first_second = generate_positional_inner_key(first, 1, GROUP_TYPE_TAG);
    let single_scope = generate_positional_inner_key(first_first, 1, GROUP_TYPE_TAG);
    let Children::Single(single) = *single else { unreachable!() };
    assert_eq!(single.inner_key(), Some(generate_positional_inner_key(single_scope, 0, 2)));
    let Children::List(list) = *list else { unreachable!() };
    assert_eq!(list[0].inner_key(), Some(generate_positional_inner_key(first_second, 0, 3)));
    assert_eq!(list[1].inner_key(), Some(generate_keyed_inner_key(first_second, 99, 3)));
    assert_eq!(list[2].inner_key(), Some(generate_positional_inner_key(first_second, 2, 4)));
    let Children::Optional(Some(optional)) = *optional else { unreachable!() };
    assert_eq!(optional.inner_key(), Some(generate_positional_inner_key(second, 0, 5)));
}

#[test]
fn assigning_keys_changes_nothing_else() {
    let build = || {
        leaf(1)
            .with_stable_id(7)
            .children(vec![leaf(3).element(), leaf(4).element().dynamic()])
            .element()
    };
    let stamped = stamp(build());
    let Element::Wrapper(stamped) = stamped else { unreachable!() };
    let Element::Wrapper(plain) = build() else { unreachable!() };
    assert_eq!(stamped.custom_element, plain.custom_element);
    assert_eq!(stamped.stable_id, Some(7));
    assert_eq!(stamped.type_tag, 1);
    assert_eq!(stamped.inner_key, Some(generate_keyed_inner_key(0, 7, 1)));
    assert_eq!(plain.inner_key, None);
    let Children::Pair(_, list) = stamped.children else { unreachable!() };
    let Children::List(list) = *list else { unreachable!() };
    assert_eq!(list.len(), 2);
    assert_eq!(list[0].declared_tag(), 3);
    assert_eq!(list[1].declared_tag(), DYNAMIC_TYPE_TAG);
}

#[test]
fn siblings_do_not_change_the_keys_of_a_list() {
    let keys = |tags: &[u64]| -> Vec<Option<u64>> {
        let children = tags.iter().map(|tag| leaf(*tag).element()).collect();
        let root = stamp(leaf(1).children(children).element());
        let Element::Wrapper(root) = root else { unreachable!() };
        let Children::Pair(_, list) = root.children else { unreachable!() };
        let Children::List(list) = *list else { unreachable!() };
        list.iter().map(|e| e.inner_key()).collect()
    };
    let short = keys(&[3, 4]);
    let long = keys(&[3, 4, 5]);
    assert_eq!(short[..], long[..2]);
    assert_eq!(long.len(), 3);
    assert_ne!(long[2], long[0]);
}
