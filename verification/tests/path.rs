use gitstream::path::{
    ancestors, find_repo_root, is_in_dotgit, parent, path_less, relative_or_absolute, repo_relative,
    split_components, strip_prefix,
};

#[test]
fn separator_sorts_first() {
    assert!(path_less("a/b", "a-b"));
    assert!(path_less("a", "a/b"));
    assert!(!path_less("b", "a"));
    assert!(!path_less("a", "a"));
}

#[test]
fn components_drop_empty_and_dot_segments() {
    let (abs, cs) = split_components("/a//./b/");
    assert!(abs);
    let cs: Vec<String> = cs.into_iter().map(|c| c.into_iter().collect()).collect();
    assert_eq!(cs, vec!["a".to_string(), "b".to_string()]);
    let (abs, cs) = split_components("./x");
    assert!(!abs);
    assert_eq!(cs.len(), 2);
}

#[test]
fn strip_prefix_by_components() {
    assert_eq!(strip_prefix("/repo", "/repo/src/a.rs"), Some("src/a.rs".to_string()));
    assert_eq!(strip_prefix("/repo/", "/repo/a"), Some("a".to_string()));
    assert_eq!(strip_prefix("/repo", "/repository/a"), None);
    assert_eq!(strip_prefix("/repo", "/repo"), Some(String::new()));
    assert_eq!(strip_prefix("repo", "/repo/a"), None);
}

#[test]
fn relative_or_absolute_falls_back_to_the_input() {
    assert_eq!(relative_or_absolute("/r", "/r/x/y"), "x/y");
    assert_eq!(relative_or_absolute("/r", "/elsewhere/y"), "/elsewhere/y");
    assert_eq!(repo_relative("/r", "/r/x"), Some("x".to_string()));
    assert_eq!(repo_relative("/r", "/r"), None);
    assert_eq!(repo_relative("/r", "/q/x"), None);
}

#[test]
fn dotgit_paths_are_recognised() {
    assert!(is_in_dotgit("/r/.git/index", "/r"));
    assert!(!is_in_dotgit("/r/src/.git-keep", "/r"));
    assert!(!is_in_dotgit("/r/sub/.git/x", "/r"));
    assert!(is_in_dotgit("/other/.git/HEAD", "/r"));
    assert!(!is_in_dotgit("/other/a", "/r"));
}

#[test]
fn parents_and_ancestors() {
    assert_eq!(parent("/a/b"), Some("/a".to_string()));
    assert_eq!(parent("/a"), Some("/".to_string()));
    assert_eq!(parent("/"), None);
    assert_eq!(parent("a"), Some(String::new()));
    assert_eq!(parent(""), None);
    assert_eq!(
        ancestors("/home/u/repo"),
        vec!["/home/u/repo".to_string(), "/home/u".to_string(), "/home".to_string(), "/".to_string()]
    );
}

#[test]
fn repo_root_is_the_nearest_with_dotgit() {
    let c = ancestors("/home/u/repo/src");
    let flags = vec![false, true, false, true, false];
    assert_eq!(find_repo_root(&c, &flags), Some("/home/u/repo".to_string()));
    assert_eq!(find_repo_root(&c, &[false; 5]), None);
}
