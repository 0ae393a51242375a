use eitaro::{extract_tag_name, read_until_symbols};

#[test]
fn test_extract_tag_name() {
    assert_eq!(extract_tag_name("   自動  "), Some("自動"));
    assert_eq!(extract_tag_name("-自動  "), Some("自動"));
    assert_eq!(extract_tag_name("1-自動  "), Some("自動"));
    assert_eq!(extract_tag_name(" 1 "), None);
}

#[test]
fn test_read_until_symbols() {
    assert_eq!(read_until_symbols("cat【neko"), "cat");
    assert_eq!(read_until_symbols("cat◆neko"), "cat");
    assert_eq!(read_until_symbols("《複》affairs【"), "《複》affairs");
    assert_eq!(read_until_symbols("〈米〉cookie【"), "〈米〉cookie");
}

#[test]
fn read_until_symbols_without_symbol_keeps_all() {
    assert_eq!(read_until_symbols("plain text"), "plain text");
    assert_eq!(read_until_symbols("{tag}"), "");
}
