use loki_text::basic::{join_text, split_text, to_lowercase, to_uppercase, trim_whitespace};

#[test]
fn basic_test_split_text() {
    let text = "one,two,three";
    let delimiter = ",";
    assert_eq!(split_text(text, delimiter), vec!["one", "two", "three"]);
}

#[test]
fn basic_test_join_text() {
    let parts = vec!["one", "two", "three"];
    let delimiter = ",";
    assert_eq!(join_text(parts, delimiter), "one,two,three");
}

#[test]
fn basic_test_to_uppercase() {
    let text = "hello world";
    assert_eq!(to_uppercase(text), "HELLO WORLD");
}

#[test]
fn basic_test_to_lowercase() {
    let text = "HELLO WORLD";
    assert_eq!(to_lowercase(text), "hello world");
}

#[test]
fn basic_test_trim_whitespace() {
    let text = "  hello world  ";
    assert_eq!(trim_whitespace(text), "hello world");
}

#[test]
fn split_text_keeps_empty_segments() {
    assert_eq!(split_text("a,,b,", ","), vec!["a", "", "b", ""]);
    assert_eq!(split_text("", ","), vec![""]);
    assert_eq!(split_text("abc", "x"), vec!["abc"]);
}

#[test]
fn split_text_multichar_delimiter() {
    assert_eq!(split_text("one--two--three", "--"), vec!["one", "two", "three"]);
}

#[test]
fn join_text_empty_and_single() {
    assert_eq!(join_text(vec![], ","), "");
    assert_eq!(join_text(vec!["only"], ","), "only");
}

#[test]
fn trim_whitespace_blank_and_unicode() {
    assert_eq!(trim_whitespace("   "), "");
    assert_eq!(trim_whitespace("\t\n x \u{a0}"), "x");
}

#[test]
fn case_mapping_handles_unicode() {
    assert_eq!(to_uppercase("straße"), "STRASSE");
    assert_eq!(to_lowercase("ÉTÉ"), "été");
}
