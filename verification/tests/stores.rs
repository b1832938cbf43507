use asteroids::{ElementInnerMap, ResourceRegistry};
use std::cell::RefCell;
use std::rc::Rc;

struct Handle {
    name: &'static str,
    dropped: Rc<RefCell<Vec<&'static str>>>,
}

impl Drop for Handle {
    fn drop(&mut self) {
        self.dropped.borrow_mut().push(self.name);
    }
}

#[test]
fn the_map_gives_back_what_was_stored_under_key_and_type() {
    let mut map: ElementInnerMap<String> = ElementInnerMap::new();
    assert_eq!(map.get(1, 10), None);
    map.insert(1, 10, "one".to_string());
    map.insert(2, 20, "two".to_string());
    assert_eq!(map.get(1, 10), Some(&"one".to_string()));
    assert_eq!(map.get(2, 20), Some(&"two".to_string()));
    assert_eq!(map.get(3, 10), None);
}

#[test]
fn a_handle_is_not_handed_to_another_type() {
    let mut map: ElementInnerMap<u32> = ElementInnerMap::new();
    map.insert(1, 10, 5);
    assert_eq!(map.get(1, 11), None);
    assert_eq!(map.get_mut(1, 11), None);
    assert_eq!(map.get(1, 10), Some(&5));
}

#[test]
fn what_is_written_through_get_mut_stays() {
    let mut map: ElementInnerMap<u32> = ElementInnerMap::new();
    map.insert(1, 10, 5);
    map.insert(2, 10, 6);
    *map.get_mut(1, 10).unwrap() += 37;
    assert_eq!(map.get(1, 10), Some(&42));
    assert_eq!(map.get(2, 10), Some(&6));
    assert_eq!(map.get_mut(9, 10), None);
}

#[test]
fn removing_a_key_drops_its_handle_and_no_other() {
    let dropped = Rc::new(RefCell::new(Vec::new()));
    let mut map: ElementInnerMap<Handle> = ElementInnerMap::new();
    map.insert(1, 10, Handle { name: "one", dropped: dropped.clone() });
    map.insert(2, 10, Handle { name: "two", dropped: dropped.clone() });
    map.remove(7);
    assert_eq!(dropped.borrow().len(), 0);
    map.remove(1);
    assert_eq!(dropped.borrow().clone(), vec!["one"]);
    assert_eq!(map.get(1, 10).is_none(), true);
    assert_eq!(map.get(2, 10).map(|handle| handle.name), Some("two"));
    map.remove(1);
    assert_eq!(dropped.borrow().clone(), vec!["one"]);
}

#[test]
fn storing_under_a_live_key_replaces_the_handle() {
    let dropped = Rc::new(RefCell::new(Vec::new()));
    let mut map: ElementInnerMap<Handle> = ElementInnerMap::new();
    map.insert(1, 10, Handle { name: "old", dropped: dropped.clone() });
    map.insert(1, 11, Handle { name: "new", dropped: dropped.clone() });
    assert_eq!(dropped.borrow().clone(), vec!["old"]);
    assert_eq!(map.get(1, 10).is_none(), true);
    assert_eq!(map.get(1, 11).map(|handle| handle.name), Some("new"));
}

#[test]
fn the_registry_makes_an_entry_on_first_use_and_keeps_it() {
    let mut registry: ResourceRegistry<Vec<u32>> = ResourceRegistry::new();
    assert_eq!(registry.contains(10), false);
    assert_eq!(registry.get(10).len(), 0);
    assert_eq!(registry.contains(10), true);
    assert_eq!(registry.contains(11), false);
    registry.get(10).push(1);
    registry.get(10).push(2);
    assert_eq!(registry.get(10).clone(), vec![1, 2]);
    assert_eq!(registry.get(11).len(), 0);
    registry.get(11).push(3);
    assert_eq!(registry.get(10).clone(), vec![1, 2]);
    assert_eq!(registry.get(11).clone(), vec![3]);
}

#[test]
fn a_new_entry_holds_the_default_value() {
    #[derive(Debug, PartialEq)]
    struct Shared(u32);
    impl Default for Shared {
        fn default() -> Self {
            Shared(7)
        }
    }
    let mut registry: ResourceRegistry<Shared> = ResourceRegistry::new();
    assert_eq!(*registry.get(1), Shared(7));
    registry.get(1).0 = 8;
    assert_eq!(*registry.get(1), Shared(8));
    assert_eq!(*registry.get(2), Shared(7));
}

#[test]
fn the_default_stores_are_empty() {
    let mut map: ElementInnerMap<u32> = ElementInnerMap::default();
    assert_eq!(map.get(0, 0), None);
    assert_eq!(map.get_mut(0, 0), None);
    let registry: ResourceRegistry<u32> = ResourceRegistry::default();
    assert_eq!(registry.contains(0), false);
}
