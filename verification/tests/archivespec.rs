use flea::archivespec::{
    is_archive_root, row_of, seven_spec, tar_spec, DirMarker, Row, BSDTAR_NAME_AFTER,
    BSDTAR_SIZE_COLUMN, SEVENZIP_SIZE_COLUMN,
};

#[test]
fn the_two_specs_describe_their_tools() {
    let t = tar_spec();
    assert_eq!(t.size_column, BSDTAR_SIZE_COLUMN);
    assert_eq!(t.size_column, 4);
    assert_eq!(t.name_after_fields, BSDTAR_NAME_AFTER);
    assert_eq!(t.name_after_fields, 8);
    assert!(!t.name_after_double_space);
    assert!(matches!(t.dir_marker, DirMarker::ModePrefix));
    let s = seven_spec();
    assert_eq!(s.size_column, SEVENZIP_SIZE_COLUMN);
    assert_eq!(s.size_column, 3);
    assert_eq!(s.name_after_fields, 0);
    assert!(s.name_after_double_space);
    assert!(matches!(s.dir_marker, DirMarker::AttrFlag));
}

#[test]
fn a_tar_line_keeps_the_spaces_inside_its_name() {
    let line = "-rw-r--r--  0 gm     gm          2 Sep  1 12:10 ./name with spaces.txt";
    let row = row_of(line, &tar_spec()).unwrap();
    assert_eq!(row.name, "./name with spaces.txt");
    assert!(!row.is_dir);
}

#[test]
fn a_tar_directory_is_marked_by_its_mode_and_loses_its_slash() {
    let line = "drwxr-xr-x  0 gm     gm          0 Sep  1 12:10 ./a/";
    let row = row_of(line, &tar_spec()).unwrap();
    assert_eq!(row.name, "./a");
    assert!(row.is_dir);
    assert!(row.produces_destination_entry());
}

#[test]
fn a_seven_line_finds_its_name_after_the_last_double_space() {
    let line = "2026-09-01 12:10:26 ....A            2               arcfmt/a b.txt";
    let row = row_of(line, &seven_spec()).unwrap();
    assert_eq!(row.name, "arcfmt/a b.txt");
    assert!(!row.is_dir);
    let dir = "2026-09-01 12:10:26 D....            0            0  arcfmt";
    let row = row_of(dir, &seven_spec()).unwrap();
    assert_eq!(row.name, "arcfmt");
    assert!(row.is_dir);
}

#[test]
fn a_line_naming_nothing_is_no_row() {
    assert!(row_of("", &tar_spec()).is_none());
    assert!(row_of("-rw-r--r--  0 gm gm 2 Sep 1 12:10", &tar_spec()).is_none());
    assert!(row_of("drwxr-xr-x  0 gm gm 0 Sep 1 12:10 /", &tar_spec()).is_none());
    assert!(row_of("   ", &seven_spec()).is_none());
}

#[test]
fn the_archive_root_in_each_spelling_produces_no_entry() {
    assert!(is_archive_root("./"));
    assert!(is_archive_root("././"));
    assert!(is_archive_root("."));
    assert!(is_archive_root(""));
    assert!(!is_archive_root("./a/"));
    assert!(!is_archive_root("./.."));
    assert!(!is_archive_root(".hidden"));
    let root = Row { name: ".", is_dir: true };
    assert!(!root.produces_destination_entry());
    let member = Row { name: "./a", is_dir: true };
    assert!(member.produces_destination_entry());
}

#[test]
fn a_tar_root_line_reads_as_the_root() {
    let line = "drwxr-xr-x  0 gm     gm          0 Sep  1 12:10 ./";
    let row = row_of(line, &tar_spec()).unwrap();
    assert_eq!(row.name, ".");
    assert!(!row.produces_destination_entry());
}
