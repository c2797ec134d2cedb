use rustypi::path::resolve;

#[test]
fn absolute_paths_ignore_the_current_directory() {
    assert_eq!(resolve("/docs", "/bin/ls"), "/bin/ls");
    assert_eq!(resolve("/docs", "/"), "/");
}

#[test]
fn relative_paths_start_at_the_current_directory() {
    assert_eq!(resolve("/", "bin"), "/bin");
    assert_eq!(resolve("/docs", "notes.txt"), "/docs/notes.txt");
    assert_eq!(resolve("/docs/a", "b/c"), "/docs/a/b/c");
    assert_eq!(resolve("/docs", ""), "/docs");
}

#[test]
fn dots_and_extra_slashes_go() {
    assert_eq!(resolve("/docs", "."), "/docs");
    assert_eq!(resolve("/docs", ".."), "/");
    assert_eq!(resolve("/docs/a", "../b/./c/"), "/docs/b/c");
    assert_eq!(resolve("/", "//bin///ls"), "/bin/ls");
}

#[test]
fn dot_dot_stops_at_the_root() {
    assert_eq!(resolve("/", ".."), "/");
    assert_eq!(resolve("/docs", "../../../bin"), "/bin");
}

#[test]
fn names_with_dots_and_spaces_are_kept() {
    assert_eq!(resolve("/", "...hidden"), "/...hidden");
    assert_eq!(resolve("/my docs", "a file.txt"), "/my docs/a file.txt");
}

#[test]
fn resolving_a_resolved_path_changes_nothing() {
    for path in ["..", "a/./b//c", "/x/../../y", "", "d\u{e9}p\u{f4}t/."] {
        let once = resolve("/home/me", path);
        assert_eq!(resolve("/elsewhere", &once), once);
    }
}
