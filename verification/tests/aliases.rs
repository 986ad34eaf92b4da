use flea::aliases::Aliases;

// Rows copied from /usr/share/mime/aliases: the alias first, then its canonical name.
const ALIAS_ROWS: &str = "image/heic image/heif\nvideo/x-matroska video/matroska\n";

fn a() -> Aliases {
    Aliases::from_str(ALIAS_ROWS)
}

#[test]
fn an_alias_resolves_to_its_canonical_name() {
    let a = a();
    assert_eq!(a.canonical("image/heic"), "image/heif");
    assert_eq!(a.canonical("video/x-matroska"), "video/matroska");
}

#[test]
fn a_canonical_name_is_returned_unchanged() {
    let a = a();
    assert_eq!(a.canonical("image/heif"), "image/heif");
    assert_eq!(a.canonical("video/matroska"), "video/matroska");
}

#[test]
fn an_unknown_type_is_returned_unchanged() {
    let a = a();
    assert_eq!(a.canonical("nonsense/nothing"), "nonsense/nothing");
    assert_eq!(a.canonical(""), "");
}

#[test]
fn the_two_sides_of_a_pair_compare_equal_through_canonical() {
    let a = a();
    assert_eq!(a.canonical("image/heic"), a.canonical("image/heif"));
    assert_eq!(
        a.canonical("video/x-matroska"),
        a.canonical("video/matroska")
    );
}

#[test]
fn a_missing_file_is_empty_not_a_panic() {
    let a = Aliases::from_str("");
    assert_eq!(a.canonical("image/heic"), "image/heic");
}

#[test]
fn a_malformed_line_is_skipped_not_a_panic() {
    let a = Aliases::from_str("noSpaceHere\n\nimage/heic image/heif\n  \n");
    assert_eq!(a.canonical("image/heic"), "image/heif");
    assert_eq!(a.canonical("noSpaceHere"), "noSpaceHere");
}

#[test]
fn a_comment_and_surrounding_whitespace_are_ignored() {
    let a = Aliases::from_str("# image/x image/y\r\n  audio/x-flac   audio/flac  \r\n");
    assert_eq!(a.canonical("image/x"), "image/x");
    assert_eq!(a.canonical("audio/x-flac"), "audio/flac");
}

#[test]
fn a_later_line_for_the_same_alias_wins() {
    let a = Aliases::from_str("a/b c/d\na/b e/f\n");
    assert_eq!(a.canonical("a/b"), "e/f");
}
