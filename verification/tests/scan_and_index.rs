use comic_shelf::index::{
    assemble_image_pages, filter_candidate, image_pages_from_names, new_index_payload,
    progress_percent_hundredths, record_candidate,
};
use comic_shelf::paths::get_relative_path;
use comic_shelf::pattern::extract_metadata;
use comic_shelf::scan::{candidates_for_directory, sort_candidates, ComicCandidate, SourceType};
use comic_shelf::thumbs::indexed_thumbnail_rel_path;

#[test]
fn a_directory_contributes_file_and_image_candidates() {
    let files = vec![
        String::from("/base/a/01.jpg"),
        String::from("/base/a/story.cbz"),
        String::from("/base/a/book.pdf"),
        String::from("/base/a/notes.txt"),
    ];
    let cands = candidates_for_directory("/base/a", &files);
    assert_eq!(cands.len(), 3);
    assert_eq!(cands[0].path, "/base/a/story.cbz");
    assert_eq!(cands[0].title, "story");
    assert_eq!(cands[0].source_type, SourceType::Archive);
    assert_eq!(cands[1].path, "/base/a/book.pdf");
    assert_eq!(cands[1].title, "book");
    assert_eq!(cands[1].source_type, SourceType::Pdf);
    assert_eq!(cands[2].path, "/base/a");
    assert_eq!(cands[2].title, "a");
    assert_eq!(cands[2].source_type, SourceType::Image);
}

#[test]
fn a_directory_without_images_contributes_no_image_candidate() {
    let files = vec![String::from("/base/b/readme.md")];
    let cands = candidates_for_directory("/base/b", &files);
    assert_eq!(cands.len(), 0);
}

#[test]
fn candidates_sort_naturally_by_path() {
    let mk = |p: &str| ComicCandidate {
        path: String::from(p),
        title: String::from("t"),
        source_type: SourceType::Image,
    };
    let sorted = sort_candidates(vec![mk("c/10"), mk("c/2"), mk("a"), mk("c/1")]);
    let paths: Vec<&str> = sorted.iter().map(|c| c.path.as_str()).collect();
    assert_eq!(paths, vec!["a", "c/1", "c/2", "c/10"]);
}

#[test]
fn image_pages_are_filtered_sorted_and_numbered() {
    let names = vec![
        String::from("10.jpg"),
        String::from("2.jpg"),
        String::from("readme.txt"),
        String::from("cover.PNG"),
    ];
    let pages = image_pages_from_names("/d", names);
    assert_eq!(pages.len(), 3);
    assert_eq!(pages[0].file_name, "2.jpg");
    assert_eq!(pages[0].file_path, "/d/2.jpg");
    assert_eq!(pages[0].page_number, 1);
    assert_eq!(pages[1].file_name, "10.jpg");
    assert_eq!(pages[1].page_number, 2);
    assert_eq!(pages[2].file_name, "cover.PNG");
    assert_eq!(pages[2].page_number, 3);
}

#[test]
fn image_scenario_builds_one_comic_with_metadata() {
    let base = "/base";
    let dir = "/base/Artist1/SeriesA/Issue1";
    let files = vec![
        String::from("/base/Artist1/SeriesA/Issue1/01.jpg"),
        String::from("/base/Artist1/SeriesA/Issue1/02.jpg"),
    ];
    let cands = candidates_for_directory(dir, &files);
    assert_eq!(cands.len(), 1);
    let cand = &cands[0];

    let rel = get_relative_path(base, &cand.path);
    assert_eq!(rel, "Artist1/SeriesA/Issue1");
    let meta = filter_candidate(base, &cand.path, "{artist}/{series}/{issue}").unwrap();
    assert_eq!(meta.artist.as_deref(), Some("Artist1"));

    let names = vec![String::from("01.jpg"), String::from("02.jpg")];
    let entries = image_pages_from_names(&cand.path, names);
    let thumbs = vec![
        indexed_thumbnail_rel_path(&cand.path, 1),
        indexed_thumbnail_rel_path(&cand.path, 2),
    ];
    let pages = assemble_image_pages(&entries, &thumbs);

    let mut payload = new_index_payload();
    let accepted = record_candidate(&mut payload, cand, meta, Ok(pages));
    assert!(accepted);
    assert_eq!(payload.comics.len(), 1);
    assert_eq!(payload.errors.len(), 0);
    let comic = &payload.comics[0];
    assert_eq!(comic.artist.as_deref(), Some("Artist1"));
    assert_eq!(comic.series.as_deref(), Some("SeriesA"));
    assert_eq!(comic.issue.as_deref(), Some("Issue1"));
    assert_eq!(comic.page_count, 2);
    assert_eq!(comic.pages.len(), 2);
    assert_eq!(comic.pages[0].page_number, 1);
    assert_eq!(comic.pages[1].page_number, 2);
    assert_eq!(
        comic.cover_image_path.as_deref(),
        Some("/base/Artist1/SeriesA/Issue1/01.jpg")
    );
    assert_eq!(payload.active_comic_paths, vec![cand.path.clone()]);
}

#[test]
fn empty_directory_and_unmatched_pattern_yield_an_empty_run() {
    let files: Vec<String> = Vec::new();
    let cands = candidates_for_directory("/base/empty", &files);
    assert_eq!(cands.len(), 0);
    let payload = new_index_payload();
    assert_eq!(payload.comics.len(), 0);
    assert_eq!(payload.errors.len(), 0);
    assert_eq!(payload.active_comic_paths.len(), 0);
    assert!(extract_metadata("whatever", "{artist}/{series}").is_none());
}

#[test]
fn a_failed_candidate_is_recorded_and_the_run_continues() {
    let bad = ComicCandidate {
        path: String::from("/base/bad.cbz"),
        title: String::from("bad"),
        source_type: SourceType::Archive,
    };
    let good = ComicCandidate {
        path: String::from("/base/good"),
        title: String::from("good"),
        source_type: SourceType::Image,
    };
    let meta = extract_metadata("x", "{artist}").unwrap();
    let meta2 = extract_metadata("x", "{artist}").unwrap();

    let mut payload = new_index_payload();
    let accepted = record_candidate(
        &mut payload,
        &bad,
        meta,
        Err(String::from("failed to decode image bytes")),
    );
    assert!(!accepted);

    let names = vec![String::from("1.jpg")];
    let entries = image_pages_from_names(&good.path, names);
    let thumbs = vec![indexed_thumbnail_rel_path(&good.path, 1)];
    let pages = assemble_image_pages(&entries, &thumbs);
    assert!(record_candidate(&mut payload, &good, meta2, Ok(pages)));

    assert_eq!(payload.comics.len(), 1);
    assert_eq!(payload.comics[0].path, "/base/good");
    assert_eq!(payload.errors.len(), 1);
    assert_eq!(payload.errors[0].path, "/base/bad.cbz");
    assert_eq!(payload.errors[0].message, "failed to decode image bytes");
    assert_eq!(payload.active_comic_paths, vec![String::from("/base/good")]);
}

#[test]
fn zero_pages_skip_the_candidate_silently() {
    let cand = ComicCandidate {
        path: String::from("/base/empty"),
        title: String::from("empty"),
        source_type: SourceType::Image,
    };
    let meta = extract_metadata("x", "{artist}").unwrap();
    let mut payload = new_index_payload();
    let accepted = record_candidate(&mut payload, &cand, meta, Ok(Vec::new()));
    assert!(!accepted);
    assert_eq!(payload.comics.len(), 0);
    assert_eq!(payload.errors.len(), 0);
}

#[test]
fn progress_is_clamped_and_zero_for_an_empty_run() {
    assert_eq!(progress_percent_hundredths(0, 5), 0);
    assert_eq!(progress_percent_hundredths(4, 1), 2500);
    assert_eq!(progress_percent_hundredths(4, 4), 10000);
    assert_eq!(progress_percent_hundredths(2, 5), 10000);
    assert_eq!(progress_percent_hundredths(3, 1), 3333);
}

#[test]
fn relative_paths_strip_the_base_prefix() {
    assert_eq!(get_relative_path("/b", "/b/x/y"), "x/y");
    assert_eq!(get_relative_path("/b", "/b"), "");
    assert_eq!(get_relative_path("/b", "/other/x"), "/other/x");
    assert_eq!(get_relative_path("C:\\b", "C:\\b\\x"), "x");
}

#[test]
fn a_trailing_slash_on_the_base_still_strips() {
    assert_eq!(get_relative_path("/a/b/", "/a/b/c"), "c");
    assert_eq!(get_relative_path("/a/b/", "/a/b"), "");
    assert_eq!(get_relative_path("/a/b", "/a/b/"), "");
    assert_eq!(get_relative_path("/", "/x"), "x");
    assert_eq!(get_relative_path("", "x"), "x");
    let meta = filter_candidate("/base/", "/base/Ann/Saga", "{artist}/{series}").unwrap();
    assert_eq!(meta.artist.as_deref(), Some("Ann"));
    assert_eq!(meta.series.as_deref(), Some("Saga"));
}
