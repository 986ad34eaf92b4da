use flea::convert::{argv, MAGICK};

#[test]
fn the_argv_names_magick_and_carries_strip_only_when_it_was_asked_for() {
    let plain = argv("/x/a.heic", "/x/a.jpg", false);
    assert_eq!(plain, vec!["magick", "/x/a.heic", "/x/a.jpg"]);
    let stripped = argv("/x/a.heic", "/x/a.jpg", true);
    assert_eq!(stripped, vec!["magick", "/x/a.heic", "-strip", "/x/a.jpg"]);
    assert!(!plain.iter().any(|s| s == "-format" || s == "-define"));
}

#[test]
fn the_command_is_magick_and_paths_pass_through_unchanged() {
    assert_eq!(MAGICK, "magick");
    let odd = argv("/x/a b.heic", "", false);
    assert_eq!(odd, vec!["magick", "/x/a b.heic", ""]);
}
