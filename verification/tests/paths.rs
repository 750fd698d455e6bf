use manga_parser_core::archive::{find_archives, find_images};
use manga_parser_core::paths::{
    display_name, extension, is_image, is_zip, join, normalize, output_name_allowed, parent, single_component,
    starts_with, PathParts,
};
use manga_parser_core::pipeline::page_file_name;
use manga_parser_core::text::trim;

fn path(name: &str) -> PathParts {
    PathParts::parse(name)
}

fn names(paths: &[PathParts]) -> Vec<String> {
    paths.iter().map(|p| p.parts.join("/")).collect()
}

#[test]
fn zip_is_recognised_in_any_case() {
    assert!(is_zip(&path("ch_1.zip")));
    assert!(is_zip(&path("dir/CH_1.ZIP")));
    assert!(!is_zip(&path("ch_1.zip.txt")));
    assert!(!is_zip(&path("zip")));
    assert!(!is_zip(&path(".zip")));
}

#[test]
fn images_are_the_formats_the_converter_reads() {
    for name in ["a.jpg", "a.JPEG", "a.png", "a.gif", "a.webp", "x/y.WebP"] {
        assert!(is_image(&path(name)), "{name}");
    }
    for name in ["a.bmp", "a.txt", "jpg", ".png", "a."] {
        assert!(!is_image(&path(name)), "{name}");
    }
}

#[test]
fn extension_keeps_its_case() {
    assert_eq!(extension(&path("a.JPG")), Some("JPG".to_string()));
    assert_eq!(extension(&path("a.tar.gz")), Some("gz".to_string()));
    assert_eq!(extension(&path("a.")), Some(String::new()));
    assert_eq!(extension(&path(".hidden")), None);
    assert_eq!(extension(&path("plain")), None);
}

#[test]
fn archives_are_picked_and_sorted() {
    let files = vec![
        path("root/ch_10.zip"),
        path("root/notes.txt"),
        path("root/ch_2.ZIP"),
        path("root/ch_1.zip"),
    ];
    assert_eq!(
        names(&find_archives(files)),
        ["root/ch_1.zip", "root/ch_2.ZIP", "root/ch_10.zip"]
    );
}

#[test]
fn images_are_picked_and_sorted() {
    let files = vec![
        path("u/10.png"),
        path("u/1.png"),
        path("u/readme.txt"),
        path("u/2.png"),
    ];
    assert_eq!(names(&find_images(files)), ["u/1.png", "u/2.png", "u/10.png"]);
}

#[test]
fn page_names_are_padded_to_five_digits() {
    assert_eq!(page_file_name(1, Some("jpg".to_string())), "00001.jpg");
    assert_eq!(page_file_name(42, Some("PNG".to_string())), "00042.PNG");
    assert_eq!(page_file_name(123456, None), "123456");
    assert_eq!(page_file_name(0, None), "00000");
    assert_eq!(page_file_name(7, Some(String::new())), "00007.");
}

#[test]
fn trim_removes_unicode_white_space() {
    assert_eq!(trim("  ready \t"), "ready");
    assert_eq!(trim("\u{3000}книга\u{a0}"), "книга");
    assert_eq!(trim("   "), "");
    assert_eq!(trim("a b"), "a b");
}

#[test]
fn parent_join_and_prefix() {
    let source = path("root/chapters");
    let up = parent(&source).unwrap();
    assert_eq!(up.parts, ["root"]);
    let out = join(&up, &"ready".to_string());
    assert_eq!(out.parts, ["root", "ready"]);
    assert!(starts_with(&source, &up));
    assert!(!starts_with(&source, &out));
    assert_eq!(join(&up, &".".to_string()).parts, ["root"]);
    assert!(parent(&PathParts { parts: vec![] }).is_none());
}

#[test]
fn shown_names_fall_back_to_the_whole_path() {
    assert_eq!(display_name(&path("/r/chapters/ch_1.zip")), "ch_1.zip");
    assert_eq!(display_name(&path("/r/ready/")), "ready");
    assert_eq!(display_name(&path("/")), "/");
    assert_eq!(display_name(&path("a/..")), "a/..");
    assert_eq!(display_name(&path("/r/..")), "/r/..");
}

#[test]
fn absolute_paths_start_with_their_root() {
    assert_eq!(path("/r/a").parts, ["/", "r", "a"]);
    assert_eq!(path("/").parts, ["/"]);
    assert_eq!(path("r/a").parts, ["r", "a"]);
}

#[test]
fn lexical_reading_resolves_dots() {
    assert_eq!(normalize(&path("/r/x/../y/./z")).parts, ["/", "r", "y", "z"]);
    assert_eq!(normalize(&path("/..")).parts, ["/"]);
    assert_eq!(normalize(&path("../a")).parts, ["..", "a"]);
    assert_eq!(normalize(&path("a/../..")).parts, [".."]);
}

#[test]
fn output_names_without_separators_are_allowed() {
    for name in ["ready", "тома 1-3", "a.b", "...", ".", "..", "Re:Zero", "A:B"] {
        assert!(output_name_allowed(name), "{name:?}");
    }
    for name in ["", "a/b", "ready/", "/abs", "a\\b"] {
        assert!(!output_name_allowed(name), "{name:?}");
    }
}

#[test]
fn components_follow_the_documented_normalisation() {
    assert_eq!(path("a//b/").parts, ["a", "b"]);
    assert_eq!(path("a/./b/.").parts, ["a", "b"]);
    assert_eq!(path("./a").parts, [".", "a"]);
    assert_eq!(path("/./a/../b").parts, ["/", "a", "..", "b"]);
    assert_eq!(path("Re:Zero/vol:1").parts, ["Re:Zero", "vol:1"]);
    assert!(path("").parts.is_empty());
}

#[test]
fn a_single_component_is_found() {
    assert_eq!(single_component("Re:Zero").as_deref(), Some("Re:Zero"));
    assert_eq!(single_component(".").as_deref(), Some("."));
    assert_eq!(single_component("ready/").as_deref(), Some("ready"));
    assert_eq!(single_component("a/b"), None);
    assert_eq!(single_component(""), None);
    assert_eq!(single_component("/").as_deref(), Some("/"));
    assert_eq!(single_component("A:B").as_deref(), Some("A:B"));
    assert_eq!(single_component("..").as_deref(), Some(".."));
}
