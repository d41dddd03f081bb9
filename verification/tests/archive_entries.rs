use std::io::{Cursor, Write};

use comic_shelf::archive::{
    batch_output, classify_archive_path, list_archive_image_entries, read_all_archive_image_entries,
    read_archive_image_entries_batch, read_archive_image_entry, ArchiveError, ArchiveKind,
    ArchiveSource,
};

fn make_cbz(entries: &[(&str, &[u8])]) -> Vec<u8> {
    let mut writer = zip::ZipWriter::new(Cursor::new(Vec::new()));
    let options = zip::write::SimpleFileOptions::default();
    for (name, data) in entries {
        writer.start_file(*name, options).unwrap();
        writer.write_all(data).unwrap();
    }
    writer.finish().unwrap().into_inner()
}

#[test]
fn classification_goes_by_extension() {
    assert_eq!(classify_archive_path("x/y.cbz").unwrap(), ArchiveKind::Zip);
    assert_eq!(classify_archive_path("x/Y.CBR").unwrap(), ArchiveKind::Rar);
    assert!(matches!(
        classify_archive_path("x/y.zip"),
        Err(ArchiveError::UnsupportedFormat(_))
    ));
    assert!(matches!(
        classify_archive_path("plain"),
        Err(ArchiveError::UnsupportedFormat(_))
    ));
}

#[test]
fn listing_filters_and_sorts_image_entries() {
    let data = make_cbz(&[
        ("p2.jpg", b"two"),
        ("p1.jpg", b"one"),
        ("cover.txt", b"not an image"),
    ]);
    let names = list_archive_image_entries(&ArchiveSource::Zip(data)).unwrap();
    assert_eq!(names, vec![String::from("p1.jpg"), String::from("p2.jpg")]);
}

#[test]
fn listing_sorts_numeric_entry_names_naturally() {
    let data = make_cbz(&[
        ("page10.png", b"j"),
        ("page2.png", b"b"),
        ("page1.png", b"a"),
    ]);
    let names = list_archive_image_entries(&ArchiveSource::Zip(data)).unwrap();
    assert_eq!(
        names,
        vec![
            String::from("page1.png"),
            String::from("page2.png"),
            String::from("page10.png")
        ]
    );
}

#[test]
fn corrupt_archive_bytes_fail_to_open() {
    let junk = vec![1u8, 2, 3, 4, 5];
    assert!(matches!(
        list_archive_image_entries(&ArchiveSource::Zip(junk)),
        Err(ArchiveError::OpenFailed(_))
    ));
}

#[test]
fn single_reads_return_the_stored_bytes() {
    let data = make_cbz(&[("a.jpg", b"alpha"), ("b.jpg", b"beta")]);
    let src = ArchiveSource::Zip(data);
    assert_eq!(read_archive_image_entry(&src, "a.jpg").unwrap(), b"alpha");
    assert_eq!(read_archive_image_entry(&src, "b.jpg").unwrap(), b"beta");
    assert!(matches!(
        read_archive_image_entry(&src, "missing.jpg"),
        Err(ArchiveError::EntryNotFound(_))
    ));
}

#[test]
fn batch_reads_agree_with_single_reads() {
    let data = make_cbz(&[("p1.jpg", b"one"), ("p2.jpg", b"two"), ("p3.jpg", b"three")]);
    let src = ArchiveSource::Zip(data);
    let names = list_archive_image_entries(&src).unwrap();
    let batch = read_archive_image_entries_batch(&src, &names).unwrap();
    assert_eq!(batch.len(), names.len());
    for (i, name) in names.iter().enumerate() {
        let single = read_archive_image_entry(&src, name).unwrap();
        assert_eq!(batch[i], single);
    }
}

#[test]
fn batch_reads_keep_the_requested_order() {
    let data = make_cbz(&[("p1.jpg", b"one"), ("p2.jpg", b"two")]);
    let src = ArchiveSource::Zip(data);
    let requested = vec![String::from("p2.jpg"), String::from("p1.jpg")];
    let batch = read_archive_image_entries_batch(&src, &requested).unwrap();
    assert_eq!(batch, vec![b"two".to_vec(), b"one".to_vec()]);
}

#[test]
fn batch_fails_whole_when_a_name_is_missing() {
    let data = make_cbz(&[("p1.jpg", b"one")]);
    let src = ArchiveSource::Zip(data);
    let requested = vec![String::from("p1.jpg"), String::from("gone.jpg")];
    assert!(read_archive_image_entries_batch(&src, &requested).is_err());
}

#[test]
fn empty_batch_is_empty() {
    let data = make_cbz(&[("p1.jpg", b"one")]);
    let src = ArchiveSource::Zip(data);
    let out = read_archive_image_entries_batch(&src, &Vec::new()).unwrap();
    assert_eq!(out.len(), 0);
}

#[test]
fn read_all_returns_sorted_entries_with_bytes() {
    let data = make_cbz(&[
        ("b10.gif", b"ten"),
        ("b2.gif", b"two"),
        ("skip.txt", b"no"),
    ]);
    let src = ArchiveSource::Zip(data);
    let all = read_all_archive_image_entries(&src).unwrap();
    assert_eq!(all.len(), 2);
    assert_eq!(all[0].0, "b2.gif");
    assert_eq!(all[0].1, b"two");
    assert_eq!(all[1].0, "b10.gif");
    assert_eq!(all[1].1, b"ten");
}

#[test]
fn backslash_entry_names_list_normalized_and_still_read() {
    let data = make_cbz(&[("art\\p1.jpg", b"one"), ("art\\p2.jpg", b"two")]);
    let src = ArchiveSource::Zip(data);
    let names = list_archive_image_entries(&src).unwrap();
    assert_eq!(names, vec![String::from("art/p1.jpg"), String::from("art/p2.jpg")]);
    let all = read_all_archive_image_entries(&src).unwrap();
    assert_eq!(all.len(), 2);
    assert_eq!(all[0].0, "art/p1.jpg");
    assert_eq!(all[0].1, b"one");
    assert_eq!(all[1].0, "art/p2.jpg");
    assert_eq!(all[1].1, b"two");
}

#[test]
fn a_corrupted_entry_fails_its_read() {
    let mut writer = zip::ZipWriter::new(Cursor::new(Vec::new()));
    let options = zip::write::SimpleFileOptions::default()
        .compression_method(zip::CompressionMethod::Stored);
    writer.start_file("a.jpg", options).unwrap();
    writer.write_all(b"hello world payload").unwrap();
    let mut data = writer.finish().unwrap().into_inner();

    let payload_at = data
        .windows(b"hello world payload".len())
        .position(|w| w == b"hello world payload")
        .unwrap();
    data[payload_at] ^= 0xff;

    let src = ArchiveSource::Zip(data);
    assert_eq!(
        list_archive_image_entries(&src).unwrap(),
        vec![String::from("a.jpg")]
    );
    assert!(matches!(
        read_archive_image_entry(&src, "a.jpg"),
        Err(ArchiveError::ReadFailed(_))
    ));
}

#[test]
fn one_pass_collection_serves_requests_in_order() {
    let collected = vec![
        (String::from("a.jpg"), b"first".to_vec()),
        (String::from("b.jpg"), b"second".to_vec()),
    ];
    let requested = vec![String::from("b.jpg"), String::from("a.jpg")];
    let out = batch_output(&collected, &requested).unwrap();
    assert_eq!(out, vec![b"second".to_vec(), b"first".to_vec()]);

    let missing = vec![String::from("c.jpg")];
    assert!(matches!(
        batch_output(&collected, &missing),
        Err(ArchiveError::EntryNotFound(_))
    ));
}

#[test]
fn a_missing_rar_container_fails_to_open() {
    let src = ArchiveSource::Rar(String::from("/no/such/place/archive.cbr"));
    assert!(matches!(
        list_archive_image_entries(&src),
        Err(ArchiveError::OpenFailed(_))
    ));
    assert!(read_archive_image_entry(&src, "p1.jpg").is_err());
}

#[test]
fn an_empty_batch_needs_no_container_at_all() {
    let src = ArchiveSource::Rar(String::from("/no/such/place/archive.cbr"));
    let out = read_archive_image_entries_batch(&src, &Vec::new()).unwrap();
    assert_eq!(out.len(), 0);

    let junk = ArchiveSource::Zip(vec![1u8, 2, 3]);
    let out2 = read_archive_image_entries_batch(&junk, &Vec::new()).unwrap();
    assert_eq!(out2.len(), 0);
}

#[test]
fn a_later_duplicate_wins_the_collection_pass() {
    let collected = vec![
        (String::from("a.jpg"), b"old".to_vec()),
        (String::from("a.jpg"), b"new".to_vec()),
    ];
    let requested = vec![String::from("a.jpg")];
    let out = batch_output(&collected, &requested).unwrap();
    assert_eq!(out, vec![b"new".to_vec()]);
}
