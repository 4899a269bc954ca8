use voxelith::save::{name_order, slug};

#[test]
fn slug_lowercases_and_dashes() {
    assert_eq!(slug("My World!"), "my-world");
    assert_eq!(slug("Test 123"), "test-123");
    assert_eq!(slug("abc"), "abc");
}

#[test]
fn slug_trims_dashes() {
    assert_eq!(slug("--A__b--"), "a--b");
    assert_eq!(slug("  spaced  "), "spaced");
}

#[test]
fn slug_non_ascii_becomes_dashes() {
    assert_eq!(slug("Été 2024"), "t--2024");
}

#[test]
fn empty_slug_is_monde() {
    assert_eq!(slug(""), "monde");
    assert_eq!(slug("!!!"), "monde");
    assert_eq!(slug("ééé"), "monde");
}

#[test]
fn worlds_are_listed_by_name_ignoring_case() {
    let names: Vec<String> = ["beta", "Alpha", "gamma", "ALPHA", "Beta2", "alpha"].iter().map(|s| s.to_string()).collect();
    assert_eq!(name_order(&names), vec![1, 3, 5, 0, 4, 2]);
}

#[test]
fn name_order_of_nothing() {
    assert!(name_order(&Vec::new()).is_empty());
}

#[test]
fn name_order_puts_prefixes_first() {
    let names: Vec<String> = ["monde 2", "Monde", "é", "z"].iter().map(|s| s.to_string()).collect();
    assert_eq!(name_order(&names), vec![1, 0, 3, 2]);
}
