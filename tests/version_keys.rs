use std::cmp::Ordering;
use web_search::version::{compare_versions, numeric_components, version_key};

#[test]
fn key_keeps_first_four_components() {
    assert_eq!(version_key("1.2.3.4.5.6"), "1.2.3.4");
    assert_eq!(version_key("1.2.3.4"), "1.2.3.4");
}

#[test]
fn key_of_short_version_is_unchanged() {
    assert_eq!(version_key("1.2"), "1.2");
    assert_eq!(version_key(""), "");
    assert_eq!(version_key("7"), "7");
}

#[test]
fn key_keeps_non_numeric_components() {
    assert_eq!(version_key("1.beta.3.g4ab.9"), "1.beta.3.g4ab");
    assert_eq!(version_key("1..2.3.4"), "1..2.3");
}

#[test]
fn key_of_key_with_zero_padding() {
    let k = version_key("1.2.498.37.g1a2b3c4d");
    assert_eq!(k, "1.2.498.37");
    assert_eq!(version_key(&format!("{}.0.0.0.0", k)), k);
    assert_eq!(version_key(&k), k);
}

#[test]
fn padding_a_short_key_adds_zero_components() {
    let k = version_key("1.2");
    assert_eq!(version_key(&format!("{}.0.0.0.0", k)), "1.2.0.0");
}

#[test]
fn greater_version_sorts_first() {
    assert_eq!(compare_versions("2.1.0.100", "1.9.9.999"), Ordering::Less);
    assert_eq!(compare_versions("1.9.9.999", "2.1.0.100"), Ordering::Greater);
}

#[test]
fn longer_sequence_with_equal_prefix_sorts_first() {
    assert_eq!(compare_versions("1.2.0", "1.2"), Ordering::Less);
    assert_eq!(compare_versions("1.2", "1.2.0"), Ordering::Greater);
}

#[test]
fn equal_versions_compare_equal() {
    assert_eq!(compare_versions("1.2.3.4", "1.2.3.4"), Ordering::Equal);
    assert_eq!(compare_versions("1.x.2", "1.2"), Ordering::Equal);
}

#[test]
fn numeric_order_not_text_order() {
    assert_eq!(compare_versions("1.10", "1.9"), Ordering::Less);
}

#[test]
fn components_that_are_no_number_are_skipped() {
    assert_eq!(
        numeric_components("1.+2.-3.4294967295.4294967296.x7."),
        vec![1, 2, 4294967295]
    );
    assert_eq!(numeric_components(""), Vec::<u32>::new());
    assert_eq!(numeric_components("007.12"), vec![7, 12]);
}
