use comic_shelf::paths::{
    extension_of, is_archive_file, is_image_entry_name, is_image_file, is_pdf_file,
    normalize_path_string,
};
use comic_shelf::thumbs::comic_dir_name;

#[test]
fn extensions_are_read_after_the_last_dot_and_lowered() {
    assert_eq!(extension_of("a/b.JPG").as_deref(), Some("jpg"));
    assert_eq!(extension_of("x/archive.tar.gz").as_deref(), Some("gz"));
    assert_eq!(extension_of("x/.bashrc"), None);
    assert_eq!(extension_of("plain"), None);
    assert_eq!(extension_of("dir.d/plain"), None);
}

#[test]
fn classifiers_accept_exactly_their_extensions() {
    assert!(is_image_file("p/a.jpeg"));
    assert!(is_image_file("p/a.WEBP"));
    assert!(!is_image_file("p/a.txt"));
    assert!(is_archive_file("p/a.cbz"));
    assert!(is_archive_file("p/a.CbR"));
    assert!(!is_archive_file("p/a.zip"));
    assert!(is_pdf_file("p/a.pdf"));
    assert!(!is_pdf_file("p/a.pdfx"));
}

#[test]
fn entry_names_match_by_suffix_after_lowering() {
    assert!(is_image_entry_name("folder/page.JPeG"));
    assert!(is_image_entry_name("cover.bmp"));
    assert!(!is_image_entry_name("cover.txt"));
    assert!(!is_image_entry_name("jpg"));
}

#[test]
fn backslashes_normalize_to_forward_slashes() {
    assert_eq!(normalize_path_string("C:\\a\\b/c"), "C:/a/b/c");
    assert_eq!(normalize_path_string(""), "");
}

#[test]
fn decimal_names_cover_the_extreme_ids() {
    assert_eq!(comic_dir_name(0), "0");
    assert_eq!(comic_dir_name(9007), "9007");
    assert_eq!(comic_dir_name(i64::MIN), "-9223372036854775808");
    assert_eq!(comic_dir_name(i64::MAX), "9223372036854775807");
}
