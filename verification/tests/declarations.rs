use asteroids::elements::{watch_update, FileWatcher, GripChange, PlaySpace, Reparentable, WatchUpdate};
use asteroids::index::KeyIndex;
use asteroids::tree::stamp;
use asteroids::{
    Build, Children, CreateInnerInfo, CustomElement, DynamicElement, Element, ElementWrapper,
    FnWrapper, Mapped, Mapper,
};
use std::collections::HashSet;
use std::path::PathBuf;

#[derive(Clone, Debug, PartialEq)]
struct Leaf(u64);

#[derive(Debug, PartialEq)]
struct Lens(u8);

impl Mapper<()> for Lens {
    fn project<'a>(&self, state: &'a mut ()) -> Option<&'a mut ()> {
        Some(state)
    }
}

impl CustomElement for Leaf {
    type State = ();
    type Context = ();
    type FrameInfo = ();
    type Space = ();
    type Inner = ();
    type Resource = ();
    type Error = ();

    fn type_tag(&self) -> u64 {
        self.0
    }

    fn full_name(&self) -> String {
        "Leaf".to_string()
    }

    fn create_inner(&self, _: &(), _: CreateInnerInfo<'_, ()>, _: &mut ()) -> Result<(), ()> {
        Ok(())
    }

    fn diff(&self, _: &Self, _: &mut (), _: &mut ()) {}

    fn spatial_aspect(&self, _: &()) {}
}

fn leaf(tag: u64) -> ElementWrapper<Leaf, Lens> {
    Leaf(tag).build()
}

#[test]
fn a_built_leaf_has_its_parameters_and_its_type_and_nothing_else() {
    let wrapper = leaf(6);
    assert_eq!(wrapper.custom_element, Some(Leaf(6)));
    assert_eq!(wrapper.type_tag, 6);
    assert_eq!(wrapper.stable_id, None);
    assert_eq!(wrapper.inner_key, None);
    assert_eq!(matches!(wrapper.children, Children::Empty), true);
    let tagged: ElementWrapper<Leaf, Lens> = ElementWrapper::with_type_tag(Leaf(6), 9);
    assert_eq!(tagged.type_tag, 9);
    assert_eq!(tagged.custom_element, Some(Leaf(6)));
}

#[test]
fn each_group_of_children_goes_behind_those_before_it() {
    let wrapper = leaf(1)
        .child(leaf(2).element())
        .children(vec![leaf(3).element(), leaf(4).element()])
        .maybe_child(None);
    assert_eq!(wrapper.type_tag, 1);
    let Children::Pair(rest, last) = wrapper.children else { unreachable!() };
    assert_eq!(matches!(*last, Children::Optional(None)), true);
    let Children::Pair(rest, list) = *rest else { unreachable!() };
    let Children::List(list) = *list else { unreachable!() };
    assert_eq!(list.iter().map(|e| e.declared_tag()).collect::<Vec<_>>(), vec![3, 4]);
    let Children::Pair(first, single) = *rest else { unreachable!() };
    assert_eq!(matches!(*first, Children::Empty), true);
    let Children::Single(single) = *single else { unreachable!() };
    assert_eq!(single.declared_tag(), 2);
    let with = leaf(1).maybe_child(Some(leaf(7).element()));
    let Children::Pair(_, last) = with.children else { unreachable!() };
    let Children::Optional(Some(child)) = *last else { unreachable!() };
    assert_eq!(child.declared_tag(), 7);
}

#[test]
fn a_lens_and_a_dynamic_element_wrap_what_they_are_given() {
    let lensed = leaf(2).element().map(Lens(4));
    let Element::Mapped(mapped) = lensed else { unreachable!() };
    assert_eq!(mapped.mapper, Some(Lens(4)));
    assert_eq!(mapped.wrapped.declared_tag(), 2);
    let direct = Mapped::new(leaf(2).element(), Lens(5));
    assert_eq!(direct.mapper, Some(Lens(5)));
    let dynamic = leaf(3).element().dynamic();
    let Element::Dynamic(DynamicElement(inner)) = dynamic else { unreachable!() };
    let Element::Wrapper(inner) = *inner else { unreachable!() };
    assert_eq!(inner.type_tag, 3);
    assert_eq!(DynamicElement::new(leaf(3).element()).0.declared_tag(), 3);
}

#[test]
fn every_kind_of_node_converts_into_an_element() {
    let from_wrapper: Element<Leaf, Lens> = leaf(4).into();
    assert_eq!(matches!(from_wrapper, Element::Wrapper(_)), true);
    assert_eq!(from_wrapper.declared_tag(), 4);
    let from_mapped: Element<Leaf, Lens> = Mapped::new(leaf(5).element(), Lens(1)).into();
    assert_eq!(matches!(from_mapped, Element::Mapped(_)), true);
    assert_eq!(from_mapped.declared_tag(), 5);
    let from_dynamic: Element<Leaf, Lens> = DynamicElement::new(leaf(6).element()).into();
    assert_eq!(matches!(from_dynamic, Element::Dynamic(_)), true);
    let parent = leaf(1).child(leaf(2).into());
    let Children::Pair(_, single) = parent.children else { unreachable!() };
    assert_eq!(matches!(*single, Children::Single(_)), true);
}

#[test]
fn types_are_compared_all_the_way_down() {
    let shape = |inner: u64| leaf(1).child(leaf(inner).child(leaf(3).element()).element()).element();
    assert_eq!(shape(2).same_type(&shape(2)), true);
    assert_eq!(shape(2).same_type(&shape(9)), false);
    assert_eq!(leaf(1).element().same_type(&leaf(2).element()), false);
    assert_eq!(leaf(1).element().same_type(&leaf(1).element().map(Lens(0))), false);
    assert_eq!(leaf(1).element().map(Lens(0)).same_type(&leaf(1).element().map(Lens(1))), true);
    assert_eq!(leaf(1).element().map(Lens(0)).same_type(&leaf(2).element().map(Lens(0))), false);
    assert_eq!(leaf(1).child(leaf(2).element()).element().same_type(&leaf(1).element()), false);
    assert_eq!(
        leaf(1).child(leaf(2).element()).element().same_type(&leaf(1).children(vec![leaf(2).element()]).element()),
        false
    );
}

#[test]
fn lists_optional_children_and_dynamic_elements_leave_the_type_open() {
    assert_eq!(leaf(1).element().dynamic().same_type(&leaf(2).element().dynamic()), true);
    let list = |tags: &[u64]| leaf(1).children(tags.iter().map(|t| leaf(*t).element()).collect()).element();
    assert_eq!(list(&[2, 3]).same_type(&list(&[4])), true);
    let optional = |tag: Option<u64>| leaf(1).maybe_child(tag.map(|t| leaf(t).element())).element();
    assert_eq!(optional(Some(2)).same_type(&optional(None)), true);
    assert_eq!(optional(Some(2)).same_type(&optional(Some(3))), true);
}

#[test]
fn two_elements_are_one_node_if_their_keys_are_equal() {
    let a = stamp(leaf(1).element());
    let b = stamp(leaf(1).child(leaf(2).element()).element());
    let c = stamp(leaf(3).element());
    assert_eq!(a.same_node(&b), true);
    assert_eq!(a.same_node(&c), false);
    assert_eq!(leaf(1).element().same_node(&leaf(3).element()), true);
    assert_eq!(leaf(1).element().same_node(&a), false);
}

#[test]
fn the_first_element_with_a_key_is_found() {
    let list: Vec<Element<Leaf, Lens>> = vec![
        Element::Wrapper(ElementWrapper { inner_key: Some(5), ..leaf(1) }),
        Element::Wrapper(ElementWrapper { inner_key: None, ..leaf(2) }),
        Element::Wrapper(ElementWrapper { inner_key: Some(7), ..leaf(3) }),
        Element::Wrapper(ElementWrapper { inner_key: Some(5), ..leaf(4) }),
        Element::Wrapper(ElementWrapper { inner_key: None, ..leaf(5) }),
    ];
    let index = KeyIndex::build(&list);
    assert_eq!(index.find(Some(5)), Some(0));
    assert_eq!(index.find(Some(7)), Some(2));
    assert_eq!(index.find(None), Some(1));
    assert_eq!(index.find(Some(6)), None);
    let empty = KeyIndex::build(&Vec::<Element<Leaf, Lens>>::new());
    assert_eq!(empty.find(None), None);
    assert_eq!(empty.find(Some(5)), None);
}

#[test]
fn wrapped_functions_always_compare_equal() {
    let double = FnWrapper(Box::new(|x: u32| x * 2));
    assert_eq!(double == double, true);
    assert_eq!(double.label(), "Function");
    assert_eq!((double.0)(4), 8);
    let a: FnWrapper<dyn Fn(u32) -> u32 + Send + Sync> = FnWrapper(Box::new(|x| x + 1));
    let b: FnWrapper<dyn Fn(u32) -> u32 + Send + Sync> = FnWrapper(Box::new(|x| x + 2));
    assert_eq!(a == b, true);
    assert_eq!((a.0)(1), 2);
    assert_eq!((b.0)(1), 3);
}

#[test]
fn a_file_watcher_declares_path_and_callback() {
    let watcher = FileWatcher::new(PathBuf::from("/tmp/scene.ron"), |count: &mut u32| *count += 1);
    assert_eq!(watcher.file_path, PathBuf::from("/tmp/scene.ron"));
    let mut count = 0;
    (watcher.on_change.0)(&mut count);
    assert_eq!(count, 1);
}

#[test]
fn a_file_watcher_reports_a_modification_unless_its_path_changed() {
    assert_eq!(watch_update(false, false), WatchUpdate { restart: false, notify: false });
    assert_eq!(watch_update(false, true), WatchUpdate { restart: false, notify: true });
    assert_eq!(watch_update(true, false), WatchUpdate { restart: true, notify: false });
    assert_eq!(watch_update(true, true), WatchUpdate { restart: true, notify: false });
}

#[test]
fn a_reparentable_is_enabled_unless_it_says_otherwise() {
    assert_eq!(Reparentable::default(), Reparentable { enabled: true });
    assert_eq!(Reparentable::default().enabled(false), Reparentable { enabled: false });
    assert_eq!(Reparentable::default().enabled(false).enabled(true).enabled, true);
    assert_eq!(PlaySpace, PlaySpace);
}

#[test]
fn the_grip_follows_the_declaration() {
    let on = Reparentable { enabled: true };
    let off = Reparentable { enabled: false };
    assert_eq!(on.grip_change(false), GripChange::Attach);
    assert_eq!(on.grip_change(true), GripChange::Keep);
    assert_eq!(off.grip_change(true), GripChange::Detach);
    assert_eq!(off.grip_change(false), GripChange::Keep);
}

#[test]
fn elements_compare_and_hash_by_key() {
    let a = stamp(leaf(1).element());
    let b = stamp(leaf(1).child(leaf(2).element()).element());
    let c = stamp(leaf(3).element());
    assert_eq!(a == b, true);
    assert_eq!(a == c, false);
    assert_eq!(a != c, true);
    let mut seen = HashSet::new();
    assert_eq!(seen.insert(a), true);
    assert_eq!(seen.insert(b), false);
    assert_eq!(seen.insert(c), true);
    assert_eq!(seen.len(), 2);
}

#[test]
fn a_leaf_that_says_nothing_of_ticks_does_nothing_on_a_tick() {
    let root = stamp(leaf(1).child(leaf(2).element()).element());
    let mut inner_map = asteroids::ElementInnerMap::new();
    let mut registry = asteroids::ResourceRegistry::new();
    root.create_inner_recursive(&(), &(), "/", &mut inner_map, &mut registry);
    let mut state = ();
    root.frame_recursive(&(), &(), &mut state, &mut inner_map);
    assert_eq!(inner_map.get(root.inner_key().unwrap(), 1), Some(&()));
    assert_eq!(registry.contains(1), true);
    assert_eq!(registry.contains(2), true);
}
