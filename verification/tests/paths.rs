use memex::paths::{path_join, path_parent, strip_path_prefix};

fn strip(p: &str, b: &str) -> Option<String> {
    strip_path_prefix(p, b)
}

#[test]
fn strip_prefix_keeps_the_text_that_follows() {
    assert_eq!(strip("/m/a//b.md", "/m"), Some("a//b.md".to_string()));
    assert_eq!(strip("/m/a//b/", "/m"), Some("a//b".to_string()));
    assert_eq!(strip("/m//./a/.", "/m"), Some("a".to_string()));
    assert_eq!(strip("/m//", "/m"), Some(String::new()));
    assert_eq!(strip("/m/a", "/m/"), Some("a".to_string()));
}

#[test]
fn strip_prefix_compares_components() {
    assert_eq!(strip("/m/a", "/x"), None);
    assert_eq!(strip("/ma/b", "/m"), None);
    assert_eq!(strip("./a/b", "a"), None);
    assert_eq!(strip("./a/b", "."), Some("a/b".to_string()));
    assert_eq!(strip("/m/./a", "/m/."), Some("a".to_string()));
}

#[test]
fn strip_of_empty_base_trims_the_end_only() {
    assert_eq!(strip("a/b/", ""), Some("a/b".to_string()));
    assert_eq!(strip("/", ""), Some("/".to_string()));
    assert_eq!(strip("/.", ""), Some("/".to_string()));
    assert_eq!(strip("./", ""), Some(".".to_string()));
}

#[test]
fn join_and_parent_follow_std() {
    assert_eq!(path_join("/a", "b"), "/a/b");
    assert_eq!(path_join("/a/", "b"), "/a/b");
    assert_eq!(path_join("/a", "/b"), "/b");
    assert_eq!(path_parent("/a/b"), Some("/a".to_string()));
    assert_eq!(path_parent("/"), None);
    assert_eq!(path_parent("a"), Some(String::new()));
}

#[test]
fn parent_is_the_text_before_the_last_component() {
    assert_eq!(path_parent("/a//b/"), Some("/a".to_string()));
    assert_eq!(path_parent("/a//b/c"), Some("/a//b".to_string()));
    assert_eq!(path_parent("a/./b"), Some("a".to_string()));
    assert_eq!(path_parent("./a"), Some(".".to_string()));
    assert_eq!(path_parent("."), Some(String::new()));
    assert_eq!(path_parent("/."), None);
    assert_eq!(path_parent("//"), None);
    assert_eq!(path_parent("../x"), Some("..".to_string()));
}
