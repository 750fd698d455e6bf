use manga_parser_core::archive::sort_naturally;
use manga_parser_core::natural_sort::compare_paths;
use manga_parser_core::paths::PathParts;
use std::cmp::Ordering;

fn path(name: &str) -> PathParts {
    PathParts::parse(name)
}

fn sorted(names: &[&str]) -> Vec<String> {
    let mut paths: Vec<PathParts> = names.iter().map(|name| path(name)).collect();
    paths.sort_by(|a, b| compare_paths(a, b));
    paths.iter().map(|p| p.parts.join("/")).collect()
}

#[test]
fn numbers_are_ordered_by_value_not_by_digits() {
    assert_eq!(
        sorted(&["ch_10.zip", "ch_2.zip", "ch_1.zip"]),
        ["ch_1.zip", "ch_2.zip", "ch_10.zip"]
    );
}

#[test]
fn leading_zeros_do_not_change_order() {
    assert_eq!(sorted(&["p003", "p1", "p02"]), ["p1", "p02", "p003"]);
}

#[test]
fn case_is_ignored() {
    assert_eq!(sorted(&["Bravo", "alpha"]), ["alpha", "Bravo"]);
}

#[test]
fn nested_folders_stay_grouped() {
    assert_eq!(
        sorted(&["vol2/01.jpg", "vol10/01.jpg", "vol2/10.jpg"]),
        ["vol2/01.jpg", "vol2/10.jpg", "vol10/01.jpg"]
    );
}

#[test]
fn oversized_number_falls_back_to_text() {
    let huge = "9".repeat(64);
    assert_eq!(sorted(&[&huge, "1"]), ["1", &huge]);
}

#[test]
fn compare_paths_gives_each_ordering() {
    assert_eq!(compare_paths(&path("a9"), &path("a10")), Ordering::Less);
    assert_eq!(compare_paths(&path("a10"), &path("a9")), Ordering::Greater);
    assert_eq!(compare_paths(&path("p01"), &path("p1")), Ordering::Equal);
    assert_eq!(compare_paths(&path("Page"), &path("page")), Ordering::Equal);
}

#[test]
fn numbers_come_before_text_at_equal_prefixes() {
    assert_eq!(compare_paths(&path("x5"), &path("xa")), Ordering::Less);
    assert_eq!(compare_paths(&path("7"), &path("a")), Ordering::Less);
}

#[test]
fn a_prefix_comes_first() {
    assert_eq!(compare_paths(&path("ch"), &path("ch1")), Ordering::Less);
    assert_eq!(compare_paths(&path("vol"), &path("vol/a")), Ordering::Less);
}

#[test]
fn the_largest_u128_is_still_a_number() {
    let max = u128::MAX.to_string();
    let over = "340282366920938463463374607431768211456"; // u128::MAX + 1
    // `max` is a number and sorts before text; `over` is text.
    assert_eq!(sorted(&[over, &max, "b"]), [max.as_str(), over, "b"]);
}

#[test]
fn the_sort_is_stable() {
    let paths = vec![path("p01"), path("p1"), path("a"), path("P001")];
    let out: Vec<String> = sort_naturally(paths)
        .iter()
        .map(|p| p.parts.join("/"))
        .collect();
    assert_eq!(out, ["a", "p01", "p1", "P001"]);
}

#[test]
fn non_ascii_text_is_lowercased() {
    assert_eq!(sorted(&["Ёлка", "ёж"]), ["ёж", "Ёлка"]);
}

#[test]
fn numbers_after_a_text_prefix_compare_by_value() {
    assert_eq!(compare_paths(&path("p9"), &path("p10")), Ordering::Less);
    assert_eq!(compare_paths(&path("vol 340282366920938463463374607431768211455"), &path("vol 7")), Ordering::Greater);
    assert_eq!(compare_paths(&path("p1"), &path("p01")), Ordering::Equal);
}
