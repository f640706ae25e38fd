use epub_cache::pathing::{
    base_name_of, covers, find_first_slash, find_last_slash, is_excluded_from_tree,
    normalize_separators, path_shape, second_segment_of, top_segment_of, PathShape,
};
use epub_cache::strutil::{has_prefix, has_suffix, str_eq, str_le};

#[test]
fn slash_positions() {
    assert_eq!(find_first_slash("a/b/c"), Some(1));
    assert_eq!(find_last_slash("a/b/c"), Some(3));
    assert_eq!(find_first_slash("abc"), None);
    assert_eq!(find_last_slash("abc"), None);
}

#[test]
fn path_shapes() {
    assert_eq!(path_shape("mimetype"), PathShape::Root);
    assert_eq!(path_shape("OEBPS/content.opf"), PathShape::Direct);
    assert_eq!(path_shape("OEBPS/Text/ch0.xhtml"), PathShape::Deep);
    assert_eq!(path_shape("OEBPS/Text/Images/a.png"), PathShape::Deep);
}

#[test]
fn path_segments() {
    assert_eq!(top_segment_of("OEBPS/Text/ch0.xhtml"), "OEBPS");
    assert_eq!(top_segment_of("plain.txt"), "plain.txt");
    assert_eq!(base_name_of("OEBPS/Text/ch0.xhtml"), "ch0.xhtml");
    assert_eq!(base_name_of("plain.txt"), "plain.txt");
    assert_eq!(second_segment_of("OEBPS/Text/ch0.xhtml"), "Text");
    assert_eq!(second_segment_of("OEBPS/Text/Images/a.png"), "Text");
}

#[test]
fn wide_characters_in_paths() {
    assert_eq!(top_segment_of("目录/章节/第一章.xhtml"), "目录");
    assert_eq!(base_name_of("目录/章节/第一章.xhtml"), "第一章.xhtml");
    assert_eq!(second_segment_of("目录/章节/第一章.xhtml"), "章节");
}

#[test]
fn separator_normalization() {
    assert_eq!(normalize_separators("a\\b\\c"), "a/b/c");
    assert_eq!(normalize_separators("a/b"), "a/b");
}

#[test]
fn tree_exclusions() {
    assert!(is_excluded_from_tree("META-INF/container.xml"));
    assert!(is_excluded_from_tree("mimetype"));
    assert!(!is_excluded_from_tree("OEBPS/content.opf"));
    assert!(!is_excluded_from_tree("mimetype2"));
}

#[test]
fn covering_respects_directory_boundaries() {
    assert!(covers("OEBPS", "OEBPS"));
    assert!(covers("OEBPS", "OEBPS/a.html"));
    assert!(covers("OEBPS", "OEBPS/sub/b.html"));
    assert!(!covers("OEBPS", "OEBPS2/a.html"));
    assert!(!covers("OEBPS", "other/OEBPS/a.html"));
}

#[test]
fn string_order_and_equality() {
    assert!(str_eq("abc", "abc"));
    assert!(!str_eq("abc", "abd"));
    assert!(!str_eq("abc", "abcd"));
    assert!(str_le("abc", "abd"));
    assert!(str_le("abc", "abcd"));
    assert!(!str_le("b", "abc"));
    assert!(str_le("same", "same"));
}

#[test]
fn prefixes_and_suffixes() {
    assert!(has_prefix("META-INF/x", "META-INF"));
    assert!(!has_prefix("MET", "META-INF"));
    assert!(has_suffix("a.xhtml", ".xhtml"));
    assert!(!has_suffix("html", ".html"));
}
