use flea::icons::Names;

// Rows copied from /usr/share/mime/generic-icons: one "type:icon" pair per line.
const GENERIC_ROWS: &str = "model/vrml:x-office-document\napplication/x-executable:application-x-executable\napplication/zip:package-x-generic\n";

fn names() -> Names {
    Names::from_str(GENERIC_ROWS)
}

// A regular file at 0644, which is what every mode-independent case here means.
const PLAIN: u32 = 0o100644;
const EXECUTABLE: u32 = 0o100755;

#[test]
fn a_directory_is_a_folder_whatever_its_name() {
    let n = names();
    assert_eq!(n.icon_for(Some("image/jpeg"), true, 0o040755), "folder");
    assert_eq!(n.icon_for(None, true, 0o040755), "folder");
}

#[test]
fn the_generic_icons_table_wins_when_it_has_an_answer() {
    let n = names();
    assert_eq!(
        n.icon_for(Some("model/vrml"), false, PLAIN),
        "x-office-document"
    );
}

#[test]
fn an_unlisted_type_falls_back_to_its_media_class() {
    let n = names();
    assert_eq!(
        n.icon_for(Some("image/jpeg"), false, PLAIN),
        "image-x-generic"
    );
    assert_eq!(
        n.icon_for(Some("video/mp4"), false, PLAIN),
        "video-x-generic"
    );
    assert_eq!(
        n.icon_for(Some("audio/flac"), false, PLAIN),
        "audio-x-generic"
    );
}

#[test]
fn an_unknown_type_is_still_a_real_icon_name() {
    let n = names();
    assert_eq!(n.icon_for(None, false, PLAIN), "text-x-generic");
    assert_eq!(
        n.icon_for(Some("nonsense/nothing"), false, PLAIN),
        "text-x-generic"
    );
}

#[test]
fn a_malformed_type_cannot_produce_an_empty_name() {
    let n = names();
    assert_eq!(n.icon_for(Some(""), false, PLAIN), "text-x-generic");
    assert_eq!(n.icon_for(Some("noslash"), false, PLAIN), "text-x-generic");
}

#[test]
fn a_missing_table_still_answers() {
    let n = Names::from_str("");
    assert_eq!(
        n.icon_for(Some("image/jpeg"), false, PLAIN),
        "image-x-generic"
    );
}

#[test]
fn the_folder_arm_answers_before_the_mime_type_or_the_mode_is_read() {
    let n = names();
    assert_eq!(n.icon_for(Some("text/plain"), true, 0o120777), "folder");
}

#[test]
fn an_unlisted_application_type_is_not_an_executable_unless_it_is_one() {
    let n = names();
    assert_eq!(
        n.icon_for(Some("application/pkcs7-mime"), false, PLAIN),
        "application-x-generic"
    );
    assert_eq!(
        n.icon_for(Some("application/x-sharedlib"), false, EXECUTABLE),
        "application-x-executable"
    );
}

#[test]
fn a_listed_application_type_still_wins_over_the_class_fallback() {
    let n = names();
    assert_eq!(
        n.icon_for(Some("application/x-executable"), false, PLAIN),
        "application-x-executable"
    );
    assert_eq!(
        n.icon_for(Some("application/zip"), false, PLAIN),
        "package-x-generic"
    );
}

#[test]
fn a_vanished_row_reports_mode_zero_and_still_gets_a_real_name() {
    let n = names();
    assert_eq!(
        n.icon_for(Some("application/pkcs7-mime"), false, 0),
        "application-x-generic"
    );
}

#[test]
fn comments_and_pairs_with_an_empty_side_are_skipped() {
    let n = Names::from_str("#image/png:oops\nimage/gif:\n:nothing\nfont/ttf:my-font\n");
    assert_eq!(n.icon_for(Some("image/png"), false, PLAIN), "image-x-generic");
    assert_eq!(n.icon_for(Some("image/gif"), false, PLAIN), "image-x-generic");
    assert_eq!(n.icon_for(Some("font/ttf"), false, PLAIN), "my-font");
    assert_eq!(n.icon_for(Some("font/otf"), false, PLAIN), "font-x-generic");
    assert_eq!(n.icon_for(Some("/leading"), false, PLAIN), "text-x-generic");
}
