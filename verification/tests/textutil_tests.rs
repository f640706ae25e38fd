use epub_cache::textutil::{escape_xml, format_vertical_volume, normalize_line_endings};

#[test]
fn escape_xml_replaces_all_specials() {
    assert_eq!(escape_xml("a<b&c>\"d'"), "a&lt;b&amp;c&gt;&quot;d&apos;");
}

#[test]
fn escape_xml_leaves_plain_text_alone() {
    assert_eq!(escape_xml("plain text 123"), "plain text 123");
}

#[test]
fn escape_xml_empty() {
    assert_eq!(escape_xml(""), "");
}

#[test]
fn escape_xml_only_specials() {
    assert_eq!(escape_xml("&&"), "&amp;&amp;");
    assert_eq!(escape_xml("<>"), "&lt;&gt;");
}

#[test]
fn vertical_volume_joins_characters() {
    assert_eq!(format_vertical_volume("abc"), "a<br />\n  b<br />\n  c");
}

#[test]
fn vertical_volume_wide_characters() {
    assert_eq!(format_vertical_volume("第一卷"), "第<br />\n  一<br />\n  卷");
}

#[test]
fn vertical_volume_single_and_empty() {
    assert_eq!(format_vertical_volume("x"), "x");
    assert_eq!(format_vertical_volume(""), "");
}

#[test]
fn normalize_mixed_line_endings() {
    assert_eq!(
        normalize_line_endings(String::from("a\r\nb\rc\nd")),
        "a\nb\nc\nd"
    );
}

#[test]
fn normalize_lone_cr_before_crlf() {
    assert_eq!(normalize_line_endings(String::from("a\r\r\n\nx")), "a\n\n\nx");
}

#[test]
fn normalize_leaves_clean_text_alone() {
    assert_eq!(normalize_line_endings(String::from("a\nb\n")), "a\nb\n");
}
