use asteroids::element::generate_slot_key;
use asteroids::tree::{stamp, ROOT_SCOPE};
use asteroids::{
    Build, Children, CreateInnerInfo, CustomElement, Element, ElementInnerMap, ElementWrapper,
    Identifiable, Mapper, Projector, Reify, ResourceRegistry, Trees,
};
use std::cell::RefCell;
use std::rc::Rc;

const PANEL: u64 = 10;
const LABEL: u64 = 11;
const BROKEN: u64 = 12;

type Log = Rc<RefCell<Vec<String>>>;

#[derive(Clone, Debug, PartialEq)]
enum Leaf {
    Panel(&'static str),
    Label(&'static str, u32),
    Broken(&'static str),
}

impl Leaf {
    fn name(&self) -> &'static str {
        match self {
            Leaf::Panel(name) => name,
            Leaf::Label(name, _) => name,
            Leaf::Broken(name) => name,
        }
    }
}

struct Ctx {
    log: Log,
}

struct Handle {
    name: &'static str,
    log: Log,
}

impl Drop for Handle {
    fn drop(&mut self) {
        self.log.borrow_mut().push(format!("destroy {}", self.name));
    }
}

#[derive(Default)]
struct Shared {
    uses: u32,
}

struct App {
    ticks: u32,
    part: Option<Box<App>>,
}

struct Part;

impl Mapper<App> for Part {
    fn project<'a>(&self, state: &'a mut App) -> Option<&'a mut App> {
        state.part.as_deref_mut()
    }
}

impl CustomElement for Leaf {
    type State = App;
    type Context = Ctx;
    type FrameInfo = u32;
    type Space = String;
    type Inner = Handle;
    type Resource = Shared;
    type Error = String;

    fn type_tag(&self) -> u64 {
        match self {
            Leaf::Panel(_) => PANEL,
            Leaf::Label(_, _) => LABEL,
            Leaf::Broken(_) => BROKEN,
        }
    }

    fn full_name(&self) -> String {
        match self {
            Leaf::Panel(_) => "mock::leaves::Panel<App>".to_string(),
            Leaf::Label(_, _) => "mock::leaves::Label".to_string(),
            Leaf::Broken(_) => "Broken".to_string(),
        }
    }

    fn create_inner(
        &self,
        context: &Ctx,
        info: CreateInnerInfo<'_, String>,
        resource: &mut Shared,
    ) -> Result<Handle, String> {
        resource.uses += 1;
        if let Leaf::Broken(name) = self {
            context.log.borrow_mut().push(format!("fail {} under {}", name, info.parent_space));
            return Err("broken".to_string());
        }
        context.log.borrow_mut().push(format!("create {} under {}", self.name(), info.parent_space));
        Ok(Handle { name: self.name(), log: context.log.clone() })
    }

    fn diff(&self, old_self: &Self, inner: &mut Handle, resource: &mut Shared) {
        resource.uses += 1;
        inner.log.borrow_mut().push(format!("update {} from {:?} to {:?}", inner.name, old_self, self));
    }

    fn frame(&self, _context: &Ctx, info: &u32, state: &mut App, inner: &mut Handle) {
        state.ticks += 1;
        inner.log.borrow_mut().push(format!("frame {} at {}", inner.name, info));
    }

    fn spatial_aspect(&self, inner: &Handle) -> String {
        inner.name.to_string()
    }
}

impl Reify<Leaf, Part> for App {
    fn reify(&self) -> Element<Leaf, Part> {
        let mut labels = Vec::new();
        for i in 0..self.ticks {
            labels.push(node(Leaf::Label("tick", i)).element());
        }
        node(Leaf::Panel("root")).children(labels).element()
    }
}

fn node(leaf: Leaf) -> ElementWrapper<Leaf, Part> {
    leaf.build()
}

fn idle() -> App {
    App { ticks: 0, part: None }
}

fn ctx() -> Ctx {
    Ctx { log: Rc::new(RefCell::new(Vec::new())) }
}

fn take(context: &Ctx) -> Vec<String> {
    context.log.borrow_mut().drain(..).collect()
}

fn kinds(log: &[String]) -> Vec<String> {
    log.iter().map(|line| line.split(' ').take(2).collect::<Vec<_>>().join(" ")).collect()
}

fn project(root: Element<Leaf, Part>, context: &Ctx) -> Projector<Leaf, Part> {
    Projector::create_with(root, context, "scene".to_string(), "/".to_string())
}

fn keyed_list(names: &[(&'static str, u64)]) -> Element<Leaf, Part> {
    let children = names
        .iter()
        .map(|(name, id)| node(Leaf::Label(name, 0)).with_stable_id(*id).element())
        .collect();
    node(Leaf::Panel("root")).children(children).element()
}

fn plain_list(names: &[&'static str]) -> Element<Leaf, Part> {
    let children = names.iter().map(|name| node(Leaf::Label(name, 0)).element()).collect();
    node(Leaf::Panel("root")).children(children).element()
}

#[test]
fn creation_goes_parent_first_under_the_parents_scene_node() {
    let context = ctx();
    let root = node(Leaf::Panel("root"))
        .child(node(Leaf::Panel("left")).child(node(Leaf::Label("deep", 0)).element()).element())
        .child(node(Leaf::Label("right", 0)).element())
        .element();
    let projector = project(root, &context);
    assert_eq!(
        take(&context),
        vec![
            "create root under scene",
            "create left under root",
            "create deep under left",
            "create right under root",
        ]
    );
    assert_eq!(projector.trees.old.is_none(), true);
}

#[test]
fn diff_against_a_copy_only_updates() {
    let context = ctx();
    let build = || {
        node(Leaf::Panel("root"))
            .child(node(Leaf::Label("a", 1)).element())
            .children(vec![node(Leaf::Label("b", 2)).element(), node(Leaf::Label("c", 3)).element()])
            .maybe_child(Some(node(Leaf::Panel("d")).element()))
            .element()
    };
    let mut projector = project(build(), &context);
    assert_eq!(take(&context).len(), 5);
    projector.update_with(&context, &mut idle(), build());
    assert_eq!(
        kinds(&take(&context)),
        vec!["update root", "update a", "update b", "update c", "update d"]
    );
    projector.update_with(&context, &mut idle(), build());
    assert_eq!(
        kinds(&take(&context)),
        vec!["update root", "update a", "update b", "update c", "update d"]
    );
}

#[test]
fn update_hands_the_leaf_the_previous_parameters() {
    let context = ctx();
    let mut projector = project(node(Leaf::Label("a", 1)).element(), &context);
    take(&context);
    projector.update_with(&context, &mut idle(), node(Leaf::Label("a", 2)).element());
    assert_eq!(
        take(&context),
        vec!["update a from Label(\"a\", 1) to Label(\"a\", 2)"]
    );
}

#[test]
fn reordering_a_keyed_list_only_updates() {
    let context = ctx();
    let mut projector = project(keyed_list(&[("a", 1), ("b", 2), ("c", 3)]), &context);
    assert_eq!(
        kinds(&take(&context)),
        vec!["create root", "create a", "create b", "create c"]
    );
    projector.update_with(&context, &mut idle(), keyed_list(&[("c", 3), ("a", 1), ("b", 2)]));
    assert_eq!(
        kinds(&take(&context)),
        vec!["update root", "update c", "update a", "update b"]
    );
}

#[test]
fn identities_given_by_hashable_values_survive_reordering() {
    let context = ctx();
    let list = |order: &[(&'static str, &str)]| {
        let children = order
            .iter()
            .map(|(name, id)| node(Leaf::Label(name, 0)).identify(id).element())
            .collect();
        node(Leaf::Panel("root")).children(children).element()
    };
    let mut projector = project(list(&[("a", "one"), ("b", "two"), ("c", "three")]), &context);
    take(&context);
    projector.update_with(&context, &mut idle(), list(&[("c", "three"), ("a", "one"), ("b", "two")]));
    assert_eq!(
        kinds(&take(&context)),
        vec!["update root", "update c", "update a", "update b"]
    );
}

#[test]
fn appending_to_an_unkeyed_list_creates_one() {
    let context = ctx();
    let mut projector = project(plain_list(&["x", "y"]), &context);
    take(&context);
    projector.update_with(&context, &mut idle(), plain_list(&["x", "y", "z"]));
    assert_eq!(
        take(&context),
        vec![
            "update root from Panel(\"root\") to Panel(\"root\")",
            "update x from Label(\"x\", 0) to Label(\"x\", 0)",
            "update y from Label(\"y\", 0) to Label(\"y\", 0)",
            "create z under root",
        ]
    );
}

#[test]
fn removal_comes_before_addition() {
    let context = ctx();
    let mut projector = project(keyed_list(&[("a", 1), ("b", 2)]), &context);
    take(&context);
    projector.update_with(&context, &mut idle(), keyed_list(&[("b", 2), ("c", 3)]));
    assert_eq!(
        kinds(&take(&context)),
        vec!["update root", "update b", "destroy a", "create c"]
    );
}

#[test]
fn removing_a_node_destroys_its_children_first() {
    let context = ctx();
    let full = node(Leaf::Panel("root"))
        .maybe_child(Some(
            node(Leaf::Panel("branch"))
                .child(node(Leaf::Label("leaf", 0)).element())
                .child(node(Leaf::Label("other", 0)).element())
                .element(),
        ))
        .element();
    let bare = node(Leaf::Panel("root")).maybe_child(None).element();
    let mut projector = project(full, &context);
    take(&context);
    projector.update_with(&context, &mut idle(), bare);
    assert_eq!(
        kinds(&take(&context)),
        vec!["update root", "destroy leaf", "destroy other", "destroy branch"]
    );
}

#[test]
fn an_optional_child_comes_and_goes() {
    let context = ctx();
    let with = |present: bool| {
        let child = if present { Some(node(Leaf::Label("maybe", 0)).element()) } else { None };
        node(Leaf::Panel("root")).maybe_child(child).element()
    };
    let mut projector = project(with(false), &context);
    assert_eq!(kinds(&take(&context)), vec!["create root"]);
    projector.update_with(&context, &mut idle(), with(true));
    assert_eq!(kinds(&take(&context)), vec!["update root", "create maybe"]);
    projector.update_with(&context, &mut idle(), with(true));
    assert_eq!(kinds(&take(&context)), vec!["update root", "update maybe"]);
    projector.update_with(&context, &mut idle(), with(false));
    assert_eq!(kinds(&take(&context)), vec!["update root", "destroy maybe"]);
}

#[test]
fn a_dynamic_child_that_changes_type_is_replaced() {
    let context = ctx();
    let with = |leaf: Leaf| {
        node(Leaf::Panel("root"))
            .child(node(leaf).child(node(Leaf::Label("below", 0)).element()).element().dynamic())
            .element()
    };
    let mut projector = project(with(Leaf::Panel("first")), &context);
    take(&context);
    let before = projector.trees.current.inner_key();
    projector.update_with(&context, &mut idle(), with(Leaf::Label("second", 0)));
    assert_eq!(
        kinds(&take(&context)),
        vec!["update root", "destroy below", "destroy first", "create second", "create below"]
    );
    assert_eq!(projector.trees.current.inner_key(), before);
    projector.update_with(&context, &mut idle(), with(Leaf::Label("second", 1)));
    assert_eq!(kinds(&take(&context)), vec!["update root", "update second", "update below"]);
}

#[test]
fn a_dynamic_child_keeps_its_key_across_a_type_swap() {
    let first = stamp(node(Leaf::Panel("first")).element().dynamic());
    let second = stamp(node(Leaf::Label("second", 0)).element().dynamic());
    assert_eq!(first.inner_key().is_some(), true);
    assert_eq!(first.inner_key(), second.inner_key());
    let plain_first = stamp(node(Leaf::Panel("first")).element());
    let plain_second = stamp(node(Leaf::Label("second", 0)).element());
    assert_ne!(plain_first.inner_key(), plain_second.inner_key());
}

#[test]
fn a_root_that_changes_type_is_replaced() {
    let context = ctx();
    let mut projector = project(node(Leaf::Panel("old")).element(), &context);
    take(&context);
    projector.update_with(&context, &mut idle(), node(Leaf::Label("new", 0)).element());
    assert_eq!(take(&context), vec!["destroy old", "create new under scene"]);
}

#[test]
fn children_of_another_structure_are_replaced() {
    let context = ctx();
    let single = node(Leaf::Panel("root")).child(node(Leaf::Label("one", 0)).element()).element();
    let list = node(Leaf::Panel("root")).children(vec![node(Leaf::Label("many", 0)).element()]).element();
    let mut projector = project(single, &context);
    take(&context);
    projector.update_with(&context, &mut idle(), list);
    assert_eq!(kinds(&take(&context)), vec!["update root", "destroy one", "create many"]);
}

#[test]
fn a_lens_that_selects_nothing_silences_its_subtree_and_keeps_it() {
    let context = ctx();
    let build = || {
        node(Leaf::Panel("root"))
            .child(node(Leaf::Label("lensed", 0)).element().map(Part))
            .element()
    };
    let mut projector = project(build(), &context);
    assert_eq!(kinds(&take(&context)), vec!["create root", "create lensed"]);
    let mut state = App { ticks: 0, part: None };
    for tick in 0..3 {
        projector.frame(&context, &tick, &mut state);
        assert_eq!(take(&context), vec![format!("frame root at {}", tick)]);
        projector.update_with(&context, &mut state, build());
        assert_eq!(kinds(&take(&context)), vec!["update root"]);
    }
    assert_eq!(state.ticks, 3);
    state.part = Some(Box::new(App { ticks: 0, part: None }));
    projector.frame(&context, &7, &mut state);
    assert_eq!(take(&context), vec!["frame root at 7", "frame lensed at 7"]);
    assert_eq!(state.ticks, 4);
    assert_eq!(state.part.as_ref().map(|part| part.ticks), Some(1));
    projector.update_with(&context, &mut state, build());
    assert_eq!(kinds(&take(&context)), vec!["update root", "update lensed"]);
    state.part = None;
    projector.update_with(&context, &mut state, node(Leaf::Panel("root")).element());
    assert_eq!(kinds(&take(&context)), vec!["update root", "destroy lensed"]);
}

#[test]
fn fifty_siblings_share_one_registry_entry() {
    let context = ctx();
    let names: Vec<&'static str> = (0..50).map(|_| "sibling").collect();
    let children: Vec<Element<Leaf, Part>> =
        names.iter().map(|name| node(Leaf::Label(name, 0)).element()).collect();
    let root = Element::Dynamic(asteroids::DynamicElement::new(Element::Wrapper(ElementWrapper {
        custom_element: None,
        children: Children::List(children),
        stable_id: None,
        inner_key: None,
        type_tag: PANEL,
    })));
    let mut inner_map = ElementInnerMap::new();
    let mut registry: ResourceRegistry<Shared> = ResourceRegistry::new();
    let trees = Trees::new(root, &context, &"scene".to_string(), &mut inner_map, &mut registry, "/".to_string());
    assert_eq!(take(&context).len(), 50);
    assert_eq!(registry.contains(LABEL), true);
    assert_eq!(registry.contains(PANEL), false);
    assert_eq!(registry.contains(BROKEN), false);
    assert_eq!(registry.get(LABEL).uses, 50);
    let again: Vec<Element<Leaf, Part>> =
        names.iter().map(|name| node(Leaf::Label(name, 1)).element()).collect();
    let mut trees = trees;
    trees.diff_and_apply(
        Element::Dynamic(asteroids::DynamicElement::new(Element::Wrapper(ElementWrapper {
            custom_element: None,
            children: Children::List(again),
            stable_id: None,
            inner_key: None,
            type_tag: PANEL,
        }))),
        &context,
        &mut idle(),
        &"scene".to_string(),
        &mut inner_map,
        &mut registry,
    );
    assert_eq!(kinds(&take(&context)), vec!["update sibling"; 50]);
    assert_eq!(registry.get(LABEL).uses, 100);
}

#[test]
fn a_failed_creation_leaves_the_node_out_and_its_children_go_under_its_parent() {
    let context = ctx();
    let build = || {
        node(Leaf::Panel("root"))
            .child(node(Leaf::Broken("gap")).child(node(Leaf::Label("below", 0)).element()).element())
            .element()
    };
    let mut projector = project(build(), &context);
    assert_eq!(
        take(&context),
        vec!["create root under scene", "fail gap under root", "create below under root"]
    );
    let gap_key = match &projector.trees.current {
        Element::Wrapper(root) => match &root.children {
            Children::Pair(_, second) => match &**second {
                Children::Single(gap) => gap.inner_key().unwrap(),
                _ => unreachable!(),
            },
            _ => unreachable!(),
        },
        _ => unreachable!(),
    };
    assert_eq!(projector.inner_map.get(gap_key, BROKEN).is_none(), true);
    projector.update_with(&context, &mut idle(), build());
    assert_eq!(kinds(&take(&context)), vec!["update root", "update below"]);
    let mut state = App { ticks: 0, part: None };
    projector.frame(&context, &1, &mut state);
    assert_eq!(kinds(&take(&context)), vec!["frame root", "frame below"]);
}

#[test]
fn element_paths_name_type_and_key_of_every_ancestor() {
    struct Paths;
    #[derive(Clone, Debug, PartialEq)]
    struct Named(&'static str);
    impl CustomElement for Named {
        type State = App;
        type Context = Log;
        type FrameInfo = u32;
        type Space = ();
        type Inner = Paths;
        type Resource = ();
        type Error = ();

        fn type_tag(&self) -> u64 {
            1
        }

        fn full_name(&self) -> String {
            format!("scene::{}<T>", self.0)
        }

        fn create_inner(&self, context: &Log, info: CreateInnerInfo<'_, ()>, _resource: &mut ()) -> Result<Paths, ()> {
            context.borrow_mut().push(info.element_path.to_string());
            Ok(Paths)
        }

        fn diff(&self, _old_self: &Self, _inner: &mut Paths, _resource: &mut ()) {}

        fn frame(&self, _context: &Log, _info: &u32, _state: &mut App, _inner: &mut Paths) {}

        fn spatial_aspect(&self, _inner: &Paths) {}
    }
    let log: Log = Rc::new(RefCell::new(Vec::new()));
    let inner: ElementWrapper<Named, Part> = Named("Inner").build();
    let outer: ElementWrapper<Named, Part> = Named("Outer").build();
    let root = stamp(outer.child(inner.element()).element());
    let root_key = root.inner_key().unwrap();
    let child_key = match &root {
        Element::Wrapper(w) => match &w.children {
            Children::Pair(_, second) => match &**second {
                Children::Single(child) => child.inner_key().unwrap(),
                _ => unreachable!(),
            },
            _ => unreachable!(),
        },
        _ => unreachable!(),
    };
    let mut inner_map = ElementInnerMap::new();
    let mut registry = ResourceRegistry::new();
    root.create_inner_recursive(&log, &(), "/apps", &mut inner_map, &mut registry);
    assert_eq!(
        log.borrow().clone(),
        vec![
            format!("/apps/Outer_{}", root_key),
            format!("/apps/Outer_{}/Inner_{}", root_key, child_key),
        ]
    );
}

#[test]
fn the_projector_follows_the_state() {
    let context = ctx();
    let mut state = App { ticks: 1, part: None };
    let mut projector: Projector<Leaf, Part> =
        Projector::create(&state, &context, "scene".to_string(), "/".to_string());
    assert_eq!(kinds(&take(&context)), vec!["create root", "create tick"]);
    projector.frame(&context, &0, &mut state);
    assert_eq!(kinds(&take(&context)), vec!["frame root", "frame tick"]);
    assert_eq!(state.ticks, 3);
    projector.update(&context, &mut state);
    assert_eq!(
        kinds(&take(&context)),
        vec!["update root", "update tick", "create tick", "create tick"]
    );
    state.ticks = 0;
    projector.update(&context, &mut state);
    assert_eq!(
        kinds(&take(&context)),
        vec!["update root", "destroy tick", "destroy tick", "destroy tick"]
    );
}

#[test]
fn the_root_key_derives_from_the_root_scope() {
    let root = stamp(node(Leaf::Panel("root")).element());
    let expected = generate_slot_key(ROOT_SCOPE, 0, &node(Leaf::Panel("root")).element());
    assert_eq!(root.inner_key(), Some(expected));
    assert_eq!(expected, asteroids::generate_positional_inner_key(0, 0, PANEL));
}

#[test]
fn a_root_that_swaps_between_two_shapes_is_replaced_each_time() {
    let context = ctx();
    let shape = |odd: bool| {
        let text = node(Leaf::Label("text", 0));
        if odd {
            node(Leaf::Panel("space")).child(text.element()).element()
        } else {
            text.element()
        }
    };
    let mut projector = project(shape(false), &context);
    assert_eq!(take(&context), vec!["create text under scene"]);
    projector.update_with(&context, &mut idle(), shape(true));
    assert_eq!(
        take(&context),
        vec!["destroy text", "create space under scene", "create text under space"]
    );
    projector.update_with(&context, &mut idle(), shape(true));
    assert_eq!(kinds(&take(&context)), vec!["update space", "update text"]);
    projector.update_with(&context, &mut idle(), shape(false));
    assert_eq!(
        take(&context),
        vec!["destroy text", "destroy space", "create text under scene"]
    );
}

#[test]
fn siblings_with_one_key_are_taken_for_one_node() {
    let context = ctx();
    let mut projector = project(keyed_list(&[("first", 1), ("second", 1)]), &context);
    assert_eq!(
        kinds(&take(&context)),
        vec!["create root", "create first", "create second", "destroy first"]
    );
    projector.update_with(&context, &mut idle(), keyed_list(&[("first", 1), ("second", 1)]));
    assert_eq!(
        kinds(&take(&context)),
        vec!["update root", "update second", "update second"]
    );
    projector.update_with(&context, &mut idle(), keyed_list(&[]));
    assert_eq!(kinds(&take(&context)), vec!["update root", "destroy second"]);
}

#[test]
fn a_lens_without_a_projection_forwards_nothing() {
    let context = ctx();
    let build = || {
        node(Leaf::Panel("root"))
            .child(Element::Mapped(asteroids::Mapped {
                wrapped: Box::new(node(Leaf::Label("behind", 0)).element()),
                mapper: None,
            }))
            .element()
    };
    let mut projector = project(build(), &context);
    assert_eq!(kinds(&take(&context)), vec!["create root", "create behind"]);
    let mut state = App { ticks: 0, part: Some(Box::new(idle())) };
    projector.frame(&context, &0, &mut state);
    assert_eq!(kinds(&take(&context)), vec!["frame root"]);
    projector.update_with(&context, &mut state, build());
    assert_eq!(kinds(&take(&context)), vec!["update root"]);
    projector.update_with(&context, &mut state, node(Leaf::Panel("root")).maybe_child(None).element());
    assert_eq!(kinds(&take(&context)), vec!["update root", "destroy behind"]);
}

#[test]
fn the_previous_description_is_kept_for_one_tick() {
    let context = ctx();
    let mut projector = project(plain_list(&["a"]), &context);
    assert_eq!(projector.trees.old.is_none(), true);
    let first = projector.trees.current.inner_key();
    projector.update_with(&context, &mut idle(), plain_list(&["a", "b"]));
    assert_eq!(projector.trees.old.as_ref().map(|old| old.inner_key()), Some(first));
    assert_eq!(projector.trees.root_element_path, "/");
    assert_eq!(projector.root, "scene");
}

#[test]
fn comparing_directly_under_a_dynamic_check_replaces_on_any_difference_in_type() {
    let context = ctx();
    let old = stamp(node(Leaf::Panel("root")).child(node(Leaf::Panel("inner")).element()).element());
    let new = stamp(node(Leaf::Panel("root")).child(node(Leaf::Label("inner", 0)).element()).element());
    let mut inner_map = ElementInnerMap::new();
    let mut registry = ResourceRegistry::new();
    let scene = "scene".to_string();
    old.create_inner_recursive(&context, &scene, "/", &mut inner_map, &mut registry);
    take(&context);
    new.diff_dynamic(&old, &context, &mut idle(), &scene, "/", &mut inner_map, &mut registry);
    assert_eq!(
        kinds(&take(&context)),
        vec!["destroy inner", "destroy root", "create root", "create inner"]
    );
    let newer = stamp(node(Leaf::Panel("root")).child(node(Leaf::Label("inner", 1)).element()).element());
    newer.diff_dynamic(&new, &context, &mut idle(), &scene, "/", &mut inner_map, &mut registry);
    assert_eq!(kinds(&take(&context)), vec!["update root", "update inner"]);
    let back = stamp(node(Leaf::Panel("root")).child(node(Leaf::Panel("inner")).element()).element());
    back.diff_same_type(&newer, &context, &mut idle(), &scene, "/", &mut inner_map, &mut registry);
    assert_eq!(kinds(&take(&context)), vec!["update root", "destroy inner", "create inner"]);
    back.destroy_inner_recursive(&mut inner_map);
    assert_eq!(kinds(&take(&context)), vec!["destroy inner", "destroy root"]);
    back.frame_recursive(&context, &0, &mut idle(), &mut inner_map);
    assert_eq!(take(&context).len(), 0);
}

#[test]
fn the_description_of_a_substate_is_its_description_behind_the_lens() {
    let state = App { ticks: 2, part: None };
    let Element::Mapped(mapped) = state.reify_substate(Part) else { unreachable!() };
    assert_eq!(mapped.mapper.is_some(), true);
    let Element::Wrapper(inner) = *mapped.wrapped else { unreachable!() };
    let Element::Wrapper(plain) = state.reify() else { unreachable!() };
    assert_eq!(inner.custom_element, plain.custom_element);
    assert_eq!(inner.custom_element, Some(Leaf::Panel("root")));
    assert_eq!(inner.type_tag, PANEL);
    let Children::Pair(_, list) = inner.children else { unreachable!() };
    let Children::List(list) = *list else { unreachable!() };
    assert_eq!(list.len(), 2);
    assert_eq!(list[1].declared_tag(), LABEL);
}

#[test]
fn a_projection_that_came_up_empty_forwards_nothing() {
    let context = ctx();
    let lensed = asteroids::Mapped::new(stamp(node(Leaf::Label("behind", 0)).element()), Part);
    let mut inner_map = ElementInnerMap::new();
    let mut registry = ResourceRegistry::new();
    let scene = "scene".to_string();
    lensed.wrapped.create_inner_recursive(&context, &scene, "/", &mut inner_map, &mut registry);
    take(&context);
    lensed.frame_projected(None, &context, &3, &mut inner_map);
    assert_eq!(take(&context).len(), 0);
    let mut part = idle();
    lensed.frame_projected(Some(&mut part), &context, &3, &mut inner_map);
    assert_eq!(take(&context), vec!["frame behind at 3"]);
    assert_eq!(part.ticks, 1);
    let mut state = App { ticks: 0, part: None };
    lensed.frame_recursive(&context, &4, &mut state, &mut inner_map);
    assert_eq!(take(&context).len(), 0);
    assert_eq!(state.ticks, 0);
}

#[test]
fn the_place_a_pass_is_given_is_the_scene_node_itself() {
    let scene = "scene".to_string();
    let place = asteroids::place::Parent::root(&scene);
    assert_eq!(place.space_ref(), "scene");
    let context = ctx();
    let mut inner_map: ElementInnerMap<Handle> = ElementInnerMap::new();
    let below = asteroids::place::Parent::below(&Leaf::Panel("gone"), &inner_map, 5, PANEL, &place);
    assert_eq!(below.space_ref(), "scene");
    inner_map.insert(5, PANEL, Handle { name: "panel", log: context.log.clone() });
    let below = asteroids::place::Parent::below(&Leaf::Panel("live"), &inner_map, 5, PANEL, &place);
    assert_eq!(below.space_ref(), "panel");
    let other = asteroids::place::Parent::below(&Leaf::Label("x", 0), &inner_map, 5, LABEL, &below);
    assert_eq!(other.space_ref(), "panel");
}
