use flea::testdir::{has_sandbox_shape, TestDir, MARKER, MIN_COMPONENTS, PREFIX};

#[test]
fn a_sandbox_names_its_files_through_its_own_path() {
    let d = TestDir::at("/tmp/flea-test-guard-1-0".to_string());
    assert_eq!(d.path(), "/tmp/flea-test-guard-1-0");
    assert_eq!(d.join("a.txt"), "/tmp/flea-test-guard-1-0/a.txt");
    assert_eq!(d.join("sub/b.txt"), "/tmp/flea-test-guard-1-0/sub/b.txt");
    assert_eq!(d.join(MARKER), "/tmp/flea-test-guard-1-0/.flea-test-sandbox");
}

#[test]
fn join_follows_path_semantics_for_slashes_and_absolute_names() {
    let trailing = TestDir::at("/tmp/x/".to_string());
    assert_eq!(trailing.join("a"), "/tmp/x/a");
    let empty = TestDir::at(String::new());
    assert_eq!(empty.join("a"), "a");
    let d = TestDir::at("/tmp/x".to_string());
    assert_eq!(d.join("/etc/passwd"), "/etc/passwd");
    assert_eq!(d.join(""), "/tmp/x/");
}

#[test]
fn the_guard_constants_are_the_sandbox_shape() {
    assert_eq!(MARKER, ".flea-test-sandbox");
    assert_eq!(PREFIX, "flea-test-");
    assert_eq!(MIN_COMPONENTS, 3);
}

#[test]
fn the_guard_refuses_every_path_that_is_not_one_of_ours() {
    let tmp = "/tmp";
    assert!(has_sandbox_shape("/tmp/flea-test-guard-1-0", tmp));
    assert!(has_sandbox_shape("/tmp//flea-test-guard-1-0/", tmp));
    assert!(has_sandbox_shape("/tmp/./flea-test-guard-1-0/.", tmp));
    assert!(!has_sandbox_shape("/home/gm", tmp));
    assert!(!has_sandbox_shape("/home", tmp));
    assert!(!has_sandbox_shape("/", tmp));
    assert!(!has_sandbox_shape("", tmp));
    assert!(!has_sandbox_shape("flea-test-relative", tmp));
    assert!(!has_sandbox_shape("/tmpx/flea-test-a", tmp));
    assert!(!has_sandbox_shape("/tmp/flea-test-a/payload", tmp));
    assert!(!has_sandbox_shape("/tmp/flea-test-a/..", tmp));
    assert!(!has_sandbox_shape("/tmp/flea-test-", "/var/tmp"));
    assert!(has_sandbox_shape("/tmp/flea-test-", "/tmp/"));
}
