use flea::owner::{name_in, of};

const SAMPLE: &str = "root:x:0:0::/root:/usr/bin/bash\n\
bin:x:1:1::/:/usr/bin/nologin\n\
broken line with no fields\n\
short:x\n\
gm:x:1000:1000::/home/gm:/usr/bin/bash\n";

#[test]
fn the_uid_column_picks_the_login_and_a_malformed_line_is_skipped_not_matched() {
    assert_eq!(name_in(SAMPLE, 0), "root");
    assert_eq!(name_in(SAMPLE, 1000), "gm");
    assert_eq!(name_in(SAMPLE, 1), "bin");
    assert_eq!(
        name_in(SAMPLE, 4242),
        "",
        "an unknown uid is empty, never a number"
    );
    assert_eq!(name_in("", 0), "");
}

#[test]
fn a_uid_field_that_overflows_or_is_signed_is_not_a_match() {
    let text = "big:x:4294967296:0::/:/bin/sh\nplus:x:+7:0::/:/bin/sh\nneg:x:-1:0::/:/bin/sh\nok:x:4294967295:0::/:/bin/sh\n";
    assert_eq!(name_in(text, 0), "");
    assert_eq!(name_in(text, 7), "plus");
    assert_eq!(name_in(text, u32::MAX), "ok");
}

#[test]
fn the_first_line_listing_a_uid_wins_and_crlf_lines_still_parse() {
    let text = "first:x:5:5::/:/bin/sh\r\nsecond:x:5:5::/:/bin/sh\r\n";
    assert_eq!(name_in(text, 5), "first");
}

#[test]
fn a_uid_field_with_nothing_after_it_still_parses() {
    assert_eq!(name_in("tail:x:12", 12), "tail");
    assert_eq!(name_in("empty:x:", 0), "");
}

#[test]
fn the_owner_of_a_path_is_empty_when_either_read_failed() {
    assert_eq!(of(Some(1000), Some(SAMPLE)), "gm");
    assert_eq!(of(None, Some(SAMPLE)), "");
    assert_eq!(of(Some(0), None), "");
    assert_eq!(of(Some(4242), Some(SAMPLE)), "");
}
