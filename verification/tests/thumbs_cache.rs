use std::io::Cursor;

use comic_shelf::thumbs::{
    comic_dir_name, comic_thumbnail_rel_path, ensure_thumbnail_path, hash_path,
    indexed_thumbnail_rel_path, orphan_comic_dirs, orphan_dirs, orphan_indexed_dirs,
    render_thumbnail, thumb_dims, ThumbError,
};

#[test]
fn thumbnails_scale_down_to_the_box() {
    assert_eq!(thumb_dims(1000, 500), (300, 150));
    assert_eq!(thumb_dims(500, 1000), (150, 300));
    assert_eq!(thumb_dims(300, 300), (300, 300));
    assert_eq!(thumb_dims(301, 301), (300, 300));
}

#[test]
fn thumbnails_never_upscale() {
    assert_eq!(thumb_dims(200, 100), (200, 100));
    assert_eq!(thumb_dims(1, 1), (1, 1));
    assert_eq!(thumb_dims(300, 1), (300, 1));
}

#[test]
fn extreme_ratios_keep_at_least_one_pixel() {
    assert_eq!(thumb_dims(10000, 1), (300, 1));
    assert_eq!(thumb_dims(1, 10000), (1, 300));
}

#[test]
fn near_square_sources_may_round_both_to_the_edge() {
    assert_eq!(thumb_dims(600, 599), (300, 300));
    assert_eq!(thumb_dims(600, 598), (300, 299));
}

#[test]
fn the_hash_folds_case_and_separators() {
    let a = hash_path("C:\\Comics\\Series");
    let b = hash_path("c:/comics/series");
    assert_eq!(a, b);
    assert_eq!(a.len(), 16);
    assert!(a.chars().all(|c| c.is_ascii_hexdigit()));
    assert_ne!(hash_path("one"), hash_path("two"));
}

#[test]
fn thumbnail_paths_are_content_addressed() {
    let p = indexed_thumbnail_rel_path("/base/comic", 3);
    let h = hash_path("/base/comic");
    assert_eq!(p, format!("{h}/3.jpg"));
    assert_eq!(comic_thumbnail_rel_path(42, 7), "42/7.jpg");
    assert_eq!(comic_dir_name(-5), "-5");
}

#[test]
fn ensuring_twice_reuses_the_same_path_without_writing() {
    let mut store: Vec<String> = Vec::new();
    let (p1, generate1) = ensure_thumbnail_path(&mut store, "/base/comic", 1);
    assert!(generate1);
    assert_eq!(store, vec![p1.clone()]);
    let (p2, generate2) = ensure_thumbnail_path(&mut store, "/base/comic", 1);
    assert!(!generate2);
    assert_eq!(p1, p2);
    assert_eq!(store, vec![p1]);
}

#[test]
fn pruning_removes_exactly_the_orphans() {
    let existing = vec![String::from("1"), String::from("2"), String::from("3")];
    let active = vec![String::from("2")];
    let doomed = orphan_dirs(&existing, &active);
    assert_eq!(doomed, vec![String::from("1"), String::from("3")]);

    let by_id = orphan_comic_dirs(&existing, &vec![1i64, 3i64]);
    assert_eq!(by_id, vec![String::from("2")]);
}

#[test]
fn indexed_pruning_keeps_the_hashes_of_active_paths() {
    let keep = hash_path("/library/keep");
    let drop = hash_path("/library/drop");
    let existing = vec![keep.clone(), drop.clone()];
    let active = vec![String::from("/library/keep")];
    let doomed = orphan_indexed_dirs(&existing, &active);
    assert_eq!(doomed, vec![drop]);
}

#[test]
fn rendering_scales_a_real_image_and_emits_a_jpeg() {
    let img = image::RgbImage::from_pixel(600, 300, image::Rgb([200u8, 10u8, 10u8]));
    let mut png: Vec<u8> = Vec::new();
    image::DynamicImage::ImageRgb8(img)
        .write_to(&mut Cursor::new(&mut png), image::ImageFormat::Png)
        .unwrap();

    let thumb = render_thumbnail(&png).unwrap();
    assert_eq!((thumb.width, thumb.height), (300, 150));

    let decoded = image::load_from_memory(&thumb.jpeg).unwrap();
    assert_eq!(image::GenericImageView::dimensions(&decoded), (thumb.width, thumb.height));
}

#[test]
fn small_sources_are_not_upscaled_when_rendered() {
    let img = image::RgbImage::from_pixel(40, 20, image::Rgb([0u8, 0u8, 0u8]));
    let mut png: Vec<u8> = Vec::new();
    image::DynamicImage::ImageRgb8(img)
        .write_to(&mut Cursor::new(&mut png), image::ImageFormat::Png)
        .unwrap();
    let thumb = render_thumbnail(&png).unwrap();
    assert_eq!((thumb.width, thumb.height), (40, 20));
}

#[test]
fn corrupt_bytes_fail_with_a_decode_error() {
    let junk = vec![0u8, 1, 2, 3, 4, 5, 6, 7];
    match render_thumbnail(&junk) {
        Err(ThumbError::DecodeFailed(_)) => {}
        _ => panic!("corrupt bytes must fail decoding"),
    }
}
