use recoll_next::watcher::path::{components_of, same_path};

fn comps(s: &str) -> Vec<String> {
    components_of(s).into_iter().map(|c| c.into_iter().collect()).collect()
}

#[test]
fn components_follow_the_separators() {
    assert_eq!(comps("/a/b"), vec!["/", "a", "b"]);
    assert_eq!(comps("a//b/"), vec!["a", "b"]);
    assert_eq!(comps("a/./b/."), vec!["a", "b"]);
    assert_eq!(comps("./a"), vec![".", "a"]);
    assert_eq!(comps("../a"), vec!["..", "a"]);
    assert_eq!(comps(".a"), vec![".a"]);
    assert_eq!(comps(""), Vec::<String>::new());
    assert_eq!(comps("/"), vec!["/"]);
}

#[test]
fn spellings_of_one_path_are_the_same_path() {
    assert!(same_path("a/b", "a/b/"));
    assert!(same_path("a/b", "a//b"));
    assert!(same_path("a/b", "a/./b"));
    assert!(same_path("/a/b", "//a/b"));
    assert!(!same_path("a/b", "/a/b"));
    assert!(!same_path("a/b", "./a/b"));
    assert!(!same_path("a/c", "a/b/../c"));
    assert!(!same_path("a/b", "a/bc"));
}
