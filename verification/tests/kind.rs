use flea::kind::{first_untranslated_comment, Kinds};
use std::cell::Cell;

// The shape of /usr/share/mime/application/msword.xml where update-mime-database wrote every
// translated comment before the untranslated one.
const MSWORD_SHAPED: &str = "<?xml version=\"1.0\" encoding=\"utf-8\"?>\n\
<mime-type xmlns=\"http://www.freedesktop.org/standards/shared-mime-info\" type=\"application/msword\">\n\
  <comment xml:lang=\"zh-Hant-TW\">Word 文件</comment>\n\
  <comment xml:lang=\"vi\">Tài liệu Word</comment>\n\
  <comment>Word document</comment>\n\
</mime-type>\n";

// The opening lines of this box's own /usr/share/mime/image/jpeg.xml and application/msword.xml,
// indentation aside: tests here cannot read the disk, so the reader serves these.
const JPEG_XML: &str = "<?xml version=\"1.0\" encoding=\"utf-8\"?>\n\
<mime-type xmlns=\"http://www.freedesktop.org/standards/shared-mime-info\" type=\"image/jpeg\">\n\
  <!--Created automatically by update-mime-database. DO NOT EDIT!-->\n\
  <comment>JPEG image</comment>\n\
  <comment xml:lang=\"zh_TW\">JPEG 影像</comment>\n\
  <comment xml:lang=\"zh_CN\">JPEG 图像</comment>\n\
  <comment xml:lang=\"vi\">Ảnh JPEG</comment>\n\
  <glob pattern=\"*.jpe\"/>\n\
  <alias type=\"image/pjpeg\"/>\n\
</mime-type>\n";

const MSWORD_XML: &str = "<?xml version=\"1.0\" encoding=\"utf-8\"?>\n\
<mime-type xmlns=\"http://www.freedesktop.org/standards/shared-mime-info\" type=\"application/msword\">\n\
  <!--Created automatically by update-mime-database. DO NOT EDIT!-->\n\
  <comment>Word document</comment>\n\
  <comment xml:lang=\"zh_TW\">Word 文件</comment>\n\
  <comment xml:lang=\"zh_CN\">Word 文档</comment>\n\
  <comment xml:lang=\"vi\">Tài liệu Word</comment>\n\
</mime-type>\n";

// Reads a type's comment from the database above; a type it does not hold has no file.
fn from_database(mime: &str) -> Option<String> {
    let text = match mime {
        "image/jpeg" => JPEG_XML,
        "application/msword" => MSWORD_XML,
        _ => return None,
    };
    first_untranslated_comment(text)
}

#[test]
fn a_translated_comment_first_does_not_win() {
    assert_eq!(
        first_untranslated_comment(MSWORD_SHAPED).as_deref(),
        Some("Word document")
    );
}

#[test]
fn a_type_with_no_untranslated_comment_answers_none() {
    let translated_only =
        "<mime-type type=\"application/x-thing\">\n  <comment xml:lang=\"de\">Datei</comment>\n</mime-type>\n";
    assert_eq!(first_untranslated_comment(translated_only), None);
}

#[test]
fn a_missing_mime_root_answers_none_not_a_panic() {
    assert_eq!(first_untranslated_comment(""), None);
    assert_eq!(first_untranslated_comment("<mime-type></mime-type>"), None);
}

#[test]
fn the_live_database_answers_a_real_type_in_ascii() {
    let mut db = Kinds::new();
    let jpeg = db
        .comment("image/jpeg", from_database)
        .expect("shared-mime-info is a hard dependency and ships image/jpeg");
    assert!(!jpeg.is_empty() && !jpeg.contains('<'), "got {jpeg}");
    let msword = db
        .comment("application/msword", from_database)
        .expect("shared-mime-info ships application/msword");
    assert!(msword.is_ascii(), "got a translated comment: {msword}");
    assert_eq!(db.comment("application/x-nonexistent-type", from_database), None);
}

#[test]
fn comment_is_read_once_per_type() {
    let mut db = Kinds::new();
    let _ = db.comment("image/jpeg", from_database);
    let _ = db.comment("image/jpeg", from_database);
    assert_eq!(db.reads(), 1);
}

#[test]
fn from_pairs_never_touches_disk() {
    let touched = Cell::new(0);
    let mut db = Kinds::from_pairs(&[("text/plain", Some("Plain Text Document"))]);
    let answer = db.comment("text/plain", |_: &str| {
        touched.set(touched.get() + 1);
        None
    });
    assert_eq!(answer.as_deref(), Some("Plain Text Document"));
    assert_eq!(db.reads(), 0);
    assert_eq!(touched.get(), 0);
}

#[test]
fn a_missing_type_is_remembered_as_missing() {
    let touched = Cell::new(0);
    let reader = |_: &str| {
        touched.set(touched.get() + 1);
        None
    };
    let mut db = Kinds::new();
    assert_eq!(db.comment("application/x-none", &reader), None);
    assert_eq!(db.comment("application/x-none", &reader), None);
    assert_eq!(db.reads(), 1);
    assert_eq!(touched.get(), 1);
}

#[test]
fn a_later_pair_for_the_same_type_wins() {
    let mut db = Kinds::from_pairs(&[("text/plain", Some("old")), ("text/plain", Some("new"))]);
    assert_eq!(
        db.comment("text/plain", |_: &str| None).as_deref(),
        Some("new")
    );
}

#[test]
fn the_comment_text_stops_at_the_first_close_tag() {
    let text = "<comment xml:lang=\"de\">x</comment><comment type=\"a\">Plain</comment>tail</comment>";
    assert_eq!(first_untranslated_comment(text).as_deref(), Some("Plain"));
    assert_eq!(first_untranslated_comment("<comment>unclosed"), None);
    assert_eq!(first_untranslated_comment("<comment never closed"), None);
}
