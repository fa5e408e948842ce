use grove::paths::{component_after, file_name, join, path_parent, path_starts_with, same_path, store_owner_of, wt_dir};

#[test]
fn test_wt_dir() {
    assert_eq!(wt_dir("/repo"), "/repo/.git/wt");
}

#[test]
fn join_follows_pathbuf() {
    assert_eq!(join("/repo", ".git/wt"), "/repo/.git/wt");
    assert_eq!(join("/repo/", "x"), "/repo/x");
    assert_eq!(join("/repo", "/abs"), "/abs");
    assert_eq!(join("", "x"), "x");
}

#[test]
fn path_prefixes_are_by_component() {
    assert!(path_starts_with("/repo/.git/wt/1/src", "/repo/.git/wt"));
    assert!(path_starts_with("/repo/.git/wt/", "/repo/.git/wt"));
    assert!(!path_starts_with("/repo/.git/wtx", "/repo/.git/wt"));
    assert!(same_path("/a//b/./c/", "/a/b/c"));
    assert!(!same_path("/a/b", "a/b"));
}

#[test]
fn file_names_and_parents() {
    assert_eq!(file_name("/repo/.git/wt/legacy"), Some("legacy".to_string()));
    assert_eq!(file_name("/"), None);
    assert_eq!(file_name("/a/.."), None);
    assert_eq!(path_parent("/repo/.git"), Some("/repo".to_string()));
    assert_eq!(path_parent("/repo"), Some("/".to_string()));
    assert_eq!(path_parent("/"), None);
    assert_eq!(path_parent("a/b"), Some("a".to_string()));
}

#[test]
fn component_after_store() {
    assert_eq!(component_after("/repo/.git/wt/3/src", "/repo/.git/wt"), Some("3".to_string()));
    assert_eq!(component_after("/repo/.git/wt", "/repo/.git/wt"), None);
    assert_eq!(component_after("/elsewhere", "/repo/.git/wt"), None);
}

#[test]
fn store_owner_is_text_before_store() {
    assert_eq!(store_owner_of("/home/u/repo/.git/wt/4/sub"), Some("/home/u/repo".to_string()));
    assert_eq!(store_owner_of("/home/u/repo"), None);
}
