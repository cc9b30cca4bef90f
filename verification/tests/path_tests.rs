use memfs::fs::{split_parent, PathCursor};

fn all_parts(path: &str) -> Vec<String> {
    let mut cur = PathCursor::new(path);
    let mut out = Vec::new();
    while let Some(p) = cur.next() {
        out.push(p.to_string());
    }
    out
}

#[test]
fn split_parent_of_absolute_path() {
    assert_eq!(split_parent("/tmp/a"), ("/tmp", "a"));
    assert_eq!(split_parent("/a/b/c"), ("/a/b", "c"));
}

#[test]
fn split_parent_of_top_level_name() {
    assert_eq!(split_parent("/a"), ("/", "a"));
}

#[test]
fn split_parent_of_root_and_empty() {
    assert_eq!(split_parent("/"), ("/", ""));
    assert_eq!(split_parent(""), ("/", ""));
    assert_eq!(split_parent("///"), ("/", ""));
}

#[test]
fn split_parent_ignores_trailing_slashes() {
    assert_eq!(split_parent("/tmp/dir/"), ("/tmp", "dir"));
    assert_eq!(split_parent("/tmp/dir//"), ("/tmp", "dir"));
}

#[test]
fn split_parent_of_relative_names() {
    assert_eq!(split_parent("a"), (".", "a"));
    assert_eq!(split_parent("a/b"), ("a", "b"));
}

#[test]
fn split_parent_keeps_inner_double_slash_in_parent() {
    assert_eq!(split_parent("/a//b"), ("/a/", "b"));
}

#[test]
fn path_cursor_skips_empty_and_dot_components() {
    assert_eq!(all_parts("/a/./b//c/"), vec!["a", "b", "c"]);
    assert_eq!(all_parts("x/y"), vec!["x", "y"]);
}

#[test]
fn path_cursor_keeps_dot_dot() {
    assert_eq!(all_parts("/a/../b"), vec!["a", "..", "b"]);
}

#[test]
fn path_cursor_on_root_and_empty() {
    assert!(all_parts("/").is_empty());
    assert!(all_parts("").is_empty());
    assert!(all_parts("././/.").is_empty());
}

#[test]
fn path_cursor_stays_exhausted() {
    let mut cur = PathCursor::new("/only");
    assert_eq!(cur.next(), Some("only"));
    assert_eq!(cur.next(), None);
    assert_eq!(cur.next(), None);
}

#[test]
fn path_cursor_handles_non_ascii_names() {
    assert_eq!(all_parts("/données/été"), vec!["données", "été"]);
    assert_eq!(split_parent("/données/été"), ("/données", "été"));
}

#[test]
fn collect_gives_every_component_in_order() {
    let mut cur = PathCursor::new("/a//./b/../c/");
    assert_eq!(cur.collect(), vec!["a", "b", "..", "c"]);
    assert_eq!(cur.next(), None);
    assert_eq!(cur.collect(), Vec::<&str>::new());
    let mut cur = PathCursor::new("x/y");
    assert_eq!(cur.next(), Some("x"));
    assert_eq!(cur.collect(), vec!["y"]);
    assert!(PathCursor::new("").collect().is_empty());
    assert!(PathCursor::new("/./").collect().is_empty());
}
