use epub_cache::errors::EpubError;
use epub_cache::search::{count_occurrences, search_count};

fn s(x: &str) -> String {
    String::from(x)
}

#[test]
fn literal_counts_are_exact() {
    assert_eq!(count_occurrences("abcabcab", "abc"), 2);
    assert_eq!(count_occurrences("xyz", "abc"), 0);
    assert_eq!(count_occurrences("aaaa", "a"), 4);
}

#[test]
fn literal_matches_do_not_overlap() {
    assert_eq!(count_occurrences("aaaa", "aa"), 2);
    assert_eq!(count_occurrences("aaaaa", "aaa"), 1);
}

#[test]
fn literal_empty_pattern_matches_every_boundary() {
    assert_eq!(count_occurrences("ab", ""), 3);
    assert_eq!(count_occurrences("", ""), 1);
}

#[test]
fn search_sums_across_files() {
    let contents = vec![s("abcabc"), s("xabc"), s("none")];
    assert_eq!(search_count(&contents, &s("abc"), false), Ok(3));
}

#[test]
fn search_empty_file_list() {
    let contents: Vec<String> = vec![];
    assert_eq!(search_count(&contents, &s("abc"), false), Ok(0));
}

#[test]
fn regex_search_counts_matches() {
    let contents = vec![s("hello world"), s("well")];
    assert_eq!(search_count(&contents, &s("l+"), true), Ok(3));
}

#[test]
fn regex_lookahead_is_supported() {
    let contents = vec![s("so fancy! even with! iterators")];
    assert_eq!(search_count(&contents, &s("\\w+(?=!)"), true), Ok(2));
}

#[test]
fn malformed_regex_is_rejected() {
    let contents = vec![s("anything")];
    assert_eq!(search_count(&contents, &s("("), true), Err(EpubError::Pattern));
}

#[test]
fn literal_search_never_rejects_pattern() {
    let contents = vec![s("anything")];
    assert_eq!(search_count(&contents, &s("("), false), Ok(0));
}
