use loki_text::utils::{is_empty_or_whitespace, to_byte_vector, to_string, trim_whitespace};

#[test]
fn test_is_empty_or_whitespace() {
    let text = "   ";
    assert_eq!(is_empty_or_whitespace(text), true);
    let text = "hello";
    assert_eq!(is_empty_or_whitespace(text), false);
}

#[test]
fn utils_test_trim_whitespace() {
    let text = "  hello world  ";
    assert_eq!(trim_whitespace(text), "hello world");
}

#[test]
fn test_to_byte_vector() {
    let text = "hello";
    assert_eq!(to_byte_vector(text), vec![104, 101, 108, 108, 111]);
}

#[test]
fn test_to_string() {
    let bytes = vec![104, 101, 108, 108, 111];
    assert_eq!(to_string(&bytes), "hello");
}

#[test]
fn byte_vector_round_trip() {
    for text in ["", "hello", "héllo ✓"] {
        assert_eq!(to_string(&to_byte_vector(text)), text);
    }
}

#[test]
fn to_string_replaces_invalid_sequences() {
    assert_eq!(to_string(&[0xff, b'a']), "\u{fffd}a");
}

#[test]
fn is_empty_or_whitespace_on_empty() {
    assert!(is_empty_or_whitespace(""));
    assert!(!is_empty_or_whitespace(" x "));
}
