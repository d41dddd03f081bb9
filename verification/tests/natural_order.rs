use std::cmp::Ordering;

use comic_shelf::natural::natural_cmp;

#[test]
fn numeric_runs_compare_by_value() {
    assert_eq!(natural_cmp("img2.png", "img10.png"), Ordering::Less);
    assert_eq!(natural_cmp("img10.png", "img2.png"), Ordering::Greater);
    assert_eq!(natural_cmp("page2", "page10"), Ordering::Less);
    assert_eq!(natural_cmp("9", "10"), Ordering::Less);
    assert_eq!(natural_cmp("007", "7"), Ordering::Less);
    assert_eq!(natural_cmp("7", "007"), Ordering::Greater);
}

#[test]
fn case_differences_fall_to_the_tie_break() {
    assert_eq!(natural_cmp("A.png", "a.png"), Ordering::Less);
    assert_eq!(natural_cmp("a.png", "A.png"), Ordering::Greater);
    assert_eq!(natural_cmp("abc", "ABD"), Ordering::Less);
}

#[test]
fn equal_only_for_identical_strings() {
    assert_eq!(natural_cmp("x1y", "x1y"), Ordering::Equal);
    assert_eq!(natural_cmp("", ""), Ordering::Equal);
    assert_ne!(natural_cmp("x01y", "x1y"), Ordering::Equal);
}

#[test]
fn swapping_arguments_flips_the_result() {
    let samples = ["a", "A", "a1", "a10", "a2", "b", "", "0", "00", "page-3.jpg"];
    for x in samples.iter() {
        for y in samples.iter() {
            let fwd = natural_cmp(x, y);
            let rev = natural_cmp(y, x);
            assert_eq!(fwd, rev.reverse());
        }
    }
}

#[test]
fn prefixes_sort_first() {
    assert_eq!(natural_cmp("abc", "abcd"), Ordering::Less);
    assert_eq!(natural_cmp("abcd", "abc"), Ordering::Greater);
}

#[test]
fn huge_digit_runs_compare_without_overflow() {
    let a = "x123456789012345678901234567890";
    let b = "x123456789012345678901234567891";
    assert_eq!(natural_cmp(a, b), Ordering::Less);
    assert_eq!(natural_cmp(b, a), Ordering::Greater);
    assert_eq!(natural_cmp(a, a), Ordering::Equal);
}
