use factory_scheduler::utils::short_name;

#[test]
fn a_name_without_modules_stays_as_it_is() {
    assert_eq!(short_name("u32"), "u32");
    assert_eq!(short_name(""), "");
}

#[test]
fn the_modules_of_a_type_are_cut_off() {
    assert_eq!(short_name("alloc::string::String"), "String");
    assert_eq!(short_name("core::option::Option"), "Option");
}

#[test]
fn the_modules_of_each_argument_are_cut_off() {
    assert_eq!(
        short_name("alloc::vec::Vec<core::option::Option<alloc::string::String>>"),
        "Vec<Option<String>>"
    );
    assert_eq!(short_name("game::Furnace<game::recipes::CopperSmelting>"), "Furnace<CopperSmelting>");
}

#[test]
fn what_follows_the_last_separator_of_a_stretch_is_kept() {
    assert_eq!(short_name("std::collections::HashMap<u32, alloc::string::String>"), "HashMap<String>");
    assert_eq!(short_name("(a::B, c::D)"), "D)");
}

#[test]
fn no_colon_counts_for_two_separators() {
    assert_eq!(short_name("a:::b"), ":b");
    assert_eq!(short_name("a::::b"), "b");
    assert_eq!(short_name("a:b"), "a:b");
    assert_eq!(short_name("a::"), "");
}

#[test]
fn an_opening_bracket_at_the_end_is_kept() {
    assert_eq!(short_name("a::B<"), "B<");
    assert_eq!(short_name("<"), "<");
    assert_eq!(short_name("x::y<<z::w"), "y<<w");
}

#[test]
fn a_short_name_is_the_same_as_the_last_of_each_split() {
    for full in ["m::A<n::B<o::C>>", "A", "::A", "a::b::c::D<e::F>", "x:y::z<:::w"] {
        let want: Vec<&str> =
            full.split('<').map(|part| part.split("::").last().unwrap()).collect();
        assert_eq!(short_name(full), want.join("<"));
    }
}
