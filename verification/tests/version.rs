use rustypi::version::version;

#[test]
fn versions_name_the_commit() {
    assert_eq!(version(Some("1a2b3c4"), Some("")), "1a2b3c4");
    assert_eq!(version(Some("1a2b3c4"), Some(" M src/main.rs")), "1a2b3c4-dirty");
    assert_eq!(version(Some("1a2b3c4"), None), "1a2b3c4");
    assert_eq!(version(None, None), "unknown");
}
