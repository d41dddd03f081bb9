use comic_shelf::pattern::extract_metadata;

#[test]
fn plain_placeholders_capture_their_segments() {
    let m = extract_metadata("Artist1/SeriesA/Issue1", "{artist}/{series}/{issue}").unwrap();
    assert_eq!(m.artist.as_deref(), Some("Artist1"));
    assert_eq!(m.series.as_deref(), Some("SeriesA"));
    assert_eq!(m.issue.as_deref(), Some("Issue1"));
}

#[test]
fn author_binds_the_artist_field() {
    let m = extract_metadata("Ann/Book", "{author}/{series}").unwrap();
    assert_eq!(m.artist.as_deref(), Some("Ann"));
    assert_eq!(m.series.as_deref(), Some("Book"));
    assert_eq!(m.issue, None);
}

#[test]
fn wildcard_spans_zero_or_more_segments() {
    let m = extract_metadata("A/x/y/S", "{artist}/**/{series}").unwrap();
    assert_eq!(m.artist.as_deref(), Some("A"));
    assert_eq!(m.series.as_deref(), Some("S"));

    let m2 = extract_metadata("A/S", "{artist}/**/{series}").unwrap();
    assert_eq!(m2.artist.as_deref(), Some("A"));
    assert_eq!(m2.series.as_deref(), Some("S"));
}

#[test]
fn trailing_wildcard_requires_a_separator() {
    assert!(extract_metadata("a/b/c", "a/**").is_some());
    assert!(extract_metadata("a", "a/**").is_none());
}

#[test]
fn no_match_is_a_silent_none() {
    assert!(extract_metadata("Other/Path", "{artist}/{series}/{issue}").is_none());
    assert!(extract_metadata("", "{artist}").is_none());
}

#[test]
fn unknown_names_are_parsed_and_discarded() {
    let m = extract_metadata("x/y", "{whatever}/{series}").unwrap();
    assert_eq!(m.artist, None);
    assert_eq!(m.series.as_deref(), Some("y"));
}

#[test]
fn captures_within_a_segment_are_non_greedy() {
    let m = extract_metadata("mxnxo", "{artist}x{issue}").unwrap();
    assert_eq!(m.artist.as_deref(), Some("m"));
    assert_eq!(m.issue.as_deref(), Some("nxo"));
}

#[test]
fn literal_segments_must_match_exactly() {
    assert!(extract_metadata("comics/A", "comics/{artist}").is_some());
    assert!(extract_metadata("comic/A", "comics/{artist}").is_none());
}

#[test]
fn empty_pattern_matches_only_the_empty_path() {
    assert!(extract_metadata("", "").is_some());
    assert!(extract_metadata("a", "").is_none());
}

#[test]
fn backslashes_in_the_pattern_are_separators() {
    let m = extract_metadata("A/B", "{artist}\\{series}").unwrap();
    assert_eq!(m.artist.as_deref(), Some("A"));
    assert_eq!(m.series.as_deref(), Some("B"));
}

#[test]
fn round_trip_yields_back_the_substituted_values() {
    let patterns = ["{artist}/{series}/{issue}", "{artist}/**/{series}", "**/{issue}"];
    let paths = [
        "Ann/Saga/12",
        "Ann/shelf/box/Saga",
        "some/deep/tree/42",
    ];
    let expect: [(&str, Option<&str>, Option<&str>, Option<&str>); 3] = [
        ("a", Some("Ann"), Some("Saga"), Some("12")),
        ("b", Some("Ann"), Some("Saga"), None),
        ("c", None, None, Some("42")),
    ];
    for i in 0..3 {
        let m = extract_metadata(paths[i], patterns[i]).unwrap();
        assert_eq!(m.artist.as_deref(), expect[i].1);
        assert_eq!(m.series.as_deref(), expect[i].2);
        assert_eq!(m.issue.as_deref(), expect[i].3);
    }
}
