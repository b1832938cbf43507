use asteroids::path::{element_type_name, join_element_path, to_decimal};
use std::path::Path;

#[test]
fn the_short_name_drops_module_path_and_generics() {
    assert_eq!(element_type_name("asteroids::elements::Spatial"), "Spatial");
    assert_eq!(element_type_name("asteroids::elements::Button<app::State>"), "Button");
    assert_eq!(element_type_name("outer::Wrapper<inner::Part<deep::Leaf>>"), "Wrapper");
    assert_eq!(element_type_name("Plain"), "Plain");
    assert_eq!(element_type_name("Plain<T>"), "Plain");
}

#[test]
fn the_short_name_of_odd_names() {
    assert_eq!(element_type_name(""), "");
    assert_eq!(element_type_name("<T>"), "");
    assert_eq!(element_type_name("a::"), "");
    assert_eq!(element_type_name("a::<b::C>"), "");
    assert_eq!(element_type_name("::X"), "X");
    assert_eq!(element_type_name("a:b"), "a:b");
    assert_eq!(element_type_name("a:::b"), "b");
    assert_eq!(element_type_name("módulo::Señal<Ü>"), "Señal");
}

#[test]
fn numbers_are_written_in_decimal() {
    assert_eq!(to_decimal(0), "0");
    assert_eq!(to_decimal(7), "7");
    assert_eq!(to_decimal(10), "10");
    assert_eq!(to_decimal(1234567890), "1234567890");
    assert_eq!(to_decimal(u64::MAX), "18446744073709551615");
    assert_eq!(to_decimal(u64::MAX), u64::MAX.to_string());
}

#[test]
fn a_segment_is_joined_with_one_separator() {
    assert_eq!(join_element_path("/", "x::Y", 5), "/Y_5");
    assert_eq!(join_element_path("/a", "x::Y<Z>", 5), "/a/Y_5");
    assert_eq!(join_element_path("/a/", "Y", 50), "/a/Y_50");
    assert_eq!(join_element_path("", "Y", 0), "Y_0");
    assert_eq!(join_element_path("a/b", "m::n::Y", u64::MAX), "a/b/Y_18446744073709551615");
}

#[test]
fn joining_agrees_with_joining_file_paths() {
    for base in ["/", "/a", "/a/", "", "a/b"] {
        let joined = join_element_path(base, "x::Y", 12);
        assert_eq!(Path::new(&joined), Path::new(base).join("Y_12"));
    }
}
