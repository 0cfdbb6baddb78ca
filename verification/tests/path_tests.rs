use frfs::fs::str_to_path;
use frfs::path::{file_name, join_path, normalize_and_strip, normalize_path, path_components, push_path};

#[test]
fn normalize_keeps_root_and_resolves_dots() {
    assert_eq!(normalize_path("/a/../b"), "/b");
    assert_eq!(normalize_path("/a/./b//c/"), "/a/b/c");
    assert_eq!(normalize_path("a/b/.."), "a");
    assert_eq!(normalize_path("../a"), "a");
    assert_eq!(normalize_path("/.."), "/");
    assert_eq!(normalize_path(""), "");
    assert_eq!(normalize_path("./x"), "x");
}

#[test]
fn normalize_and_strip_drops_root() {
    assert_eq!(normalize_and_strip("/"), "");
    assert_eq!(normalize_and_strip("/src/lib.rs"), "src/lib.rs");
    assert_eq!(normalize_and_strip("src/../examples/basic.rs"), "examples/basic.rs");
    assert_eq!(str_to_path("/a/b/../c"), "a/c");
}

#[test]
fn components_of_paths() {
    assert_eq!(path_components("/a//b/./c/../d"), vec!["a".to_string(), "b".to_string(), "d".to_string()]);
    assert!(path_components("/").is_empty());
    assert_eq!(path_components("héllo/wörld"), vec!["héllo".to_string(), "wörld".to_string()]);
}

#[test]
fn join_components() {
    let parts = vec!["a".to_string(), "b".to_string(), "c".to_string()];
    assert_eq!(join_path(&parts), "a/b/c");
    assert_eq!(join_path(&Vec::new()), "");
}

#[test]
fn push_extends_a_path() {
    assert_eq!(push_path("", "a"), "a");
    assert_eq!(push_path("a/b", "c"), "a/b/c");
    assert_eq!(push_path("a/", "c"), "a/c");
    assert_eq!(push_path("a", "/c"), "/c");
    assert_eq!(push_path("a", ""), "a/");
}

#[test]
fn final_component() {
    assert_eq!(file_name("a/b.txt"), Some("b.txt".to_string()));
    assert_eq!(file_name("a/b/"), Some("b".to_string()));
    assert_eq!(file_name("a/."), Some("a".to_string()));
    assert_eq!(file_name("a/.."), None);
    assert_eq!(file_name("/"), None);
    assert_eq!(file_name(""), None);
    assert_eq!(file_name("."), None);
}
