use bdk_ffi_bindgen::text::find_first;
use bdk_ffi_bindgen::text::matches_at;
use bdk_ffi_bindgen::text::str_eq;

#[test]
fn matches_at_compares_the_window() {
    let hay = b"abcabc";
    assert!(matches_at(hay, b"abc", 0));
    assert!(matches_at(hay, b"abc", 3));
    assert!(matches_at(hay, b"bca", 1));
    assert!(!matches_at(hay, b"abc", 1));
    assert!(!matches_at(hay, b"abd", 0));
}

#[test]
fn matches_at_refuses_a_window_past_the_end() {
    let hay = b"abcabc";
    assert!(!matches_at(hay, b"abc", 4));
    assert!(!matches_at(hay, b"abc", 6));
    assert!(!matches_at(hay, b"abc", 7));
    assert!(!matches_at(hay, b"abc", usize::MAX));
    assert!(!matches_at(b"ab", b"abc", 0));
}

#[test]
fn matches_at_takes_the_empty_needle_up_to_the_end() {
    assert!(matches_at(b"ab", b"", 0));
    assert!(matches_at(b"ab", b"", 2));
    assert!(!matches_at(b"ab", b"", 3));
    assert!(matches_at(b"", b"", 0));
}

#[test]
fn find_first_gives_the_least_offset() {
    assert_eq!(find_first(b"abcabc", b"abc"), Some(0));
    assert_eq!(find_first(b"xabcabc", b"abc"), Some(1));
    assert_eq!(find_first(b"aaab", b"ab"), Some(2));
    assert_eq!(find_first(b"abcabc", b"c"), Some(2));
    assert_eq!(find_first(b"abcabc", b"abcabc"), Some(0));
    assert_eq!(find_first(b"xyzabc", b"abc"), Some(3));
}

#[test]
fn find_first_gives_nothing_where_the_needle_is_absent() {
    assert_eq!(find_first(b"abcabc", b"abd"), None);
    assert_eq!(find_first(b"abc", b"abcd"), None);
    assert_eq!(find_first(b"", b"a"), None);
    assert_eq!(find_first(b"ababab", b"abb"), None);
}

#[test]
fn find_first_finds_the_empty_needle_at_the_start() {
    assert_eq!(find_first(b"abc", b""), Some(0));
    assert_eq!(find_first(b"", b""), Some(0));
}

#[test]
fn find_first_agrees_with_the_standard_search() {
    let hays = ["", "a", "ab", "aab", "abab", "bbbab", "xx\u{00e9}ab", "ab\u{4e2d}ab"];
    let needles = ["a", "ab", "b", "bab", "\u{00e9}", "\u{4e2d}a"];
    for hay in hays {
        for needle in needles {
            assert_eq!(find_first(hay.as_bytes(), needle.as_bytes()), hay.find(needle));
        }
    }
}

#[test]
fn str_eq_is_equality() {
    assert!(str_eq("", ""));
    assert!(str_eq("python", "python"));
    assert!(str_eq("\u{00e9}t\u{00e9}", "\u{00e9}t\u{00e9}"));
    assert!(!str_eq("python", "pythom"));
    assert!(!str_eq("python", "Python"));
    assert!(!str_eq("python", "pytho"));
    assert!(!str_eq("pytho", "python"));
    assert!(!str_eq("", "a"));
    assert!(!str_eq("a", ""));
}
