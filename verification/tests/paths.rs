//! Paths and filters.
use helix::diff_command::path_matches;
use helix::path::{join, name_of, parent, path_eq, split_head, starts_with_dir};

fn strings(v: &[&str]) -> Vec<String> {
    v.iter().map(|s| s.to_string()).collect()
}

#[test]
fn test_path_matches_exact() {
    let filter = strings(&["src/main.rs"]);
    assert!(path_matches("src/main.rs", &filter));
}

#[test]
fn test_path_matches_directory_prefix() {
    let filter = strings(&["src"]);
    assert!(path_matches("src/main.rs", &filter));
}

#[test]
fn test_path_matches_dot() {
    let filter = strings(&["."]);
    assert!(path_matches("any/path/file.txt", &filter));
}

#[test]
fn test_path_matches_no_match() {
    let filter = strings(&["tests"]);
    assert!(!path_matches("src/main.rs", &filter));
}

#[test]
fn a_filter_is_a_whole_component() {
    let filter = strings(&["src"]);
    assert!(!path_matches("src2/main.rs", &filter));
}

#[test]
fn parents_and_names() {
    assert_eq!(parent("a/b/c"), Some("a/b".to_string()));
    assert_eq!(parent("a"), Some(String::new()));
    assert_eq!(parent("/a"), Some("/".to_string()));
    assert_eq!(parent("/"), None);
    assert_eq!(name_of("a/b/c"), "c");
    assert_eq!(join("a", "b"), "a/b");
    assert_eq!(join("", "b"), "b");
    assert!(starts_with_dir("a/b", "a"));
    assert!(!starts_with_dir("ab", "a"));
    assert!(starts_with_dir("a/b", "a/"));
    assert!(starts_with_dir("a/b", "a/./b/"));
    assert!(starts_with_dir("a/b", ""));
    assert!(!starts_with_dir("a/b", "/a"));
    assert!(!starts_with_dir("a/b", "./a"));
    assert!(!starts_with_dir("a", "a/b"));
    assert_eq!(split_head("a/b/c"), Some(("a".to_string(), "b/c".to_string())));
    assert_eq!(split_head("a"), None);
}

#[test]
fn paths_with_the_same_components_are_the_same() {
    assert!(path_eq("a//b", "a/b") && path_eq("a/./b/", "a/b") && path_eq("", ""));
    assert!(!path_eq("./a", "a") && !path_eq("/a", "a") && !path_eq("a/../a", "a"));
    assert!(!path_eq("a", "a/b") && !path_eq("a/b", "a/c") && path_eq("//a", "/a"));
}
