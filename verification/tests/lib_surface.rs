use loki_text::{
    capitalize_words, count_pattern, extract_numbers, find_pattern, is_palindrome, join_text,
    remove_punctuation, replace_pattern, reverse_string, split_text, to_lowercase, to_uppercase,
    trim_whitespace,
};

#[test]
fn lib_test_find_pattern() {
    let text = "The quick brown fox jumps over the lazy dog";
    let pattern = r"quick\s(\w+)";
    assert_eq!(find_pattern(text, pattern), Some("brown".to_string()));
}

#[test]
fn lib_test_replace_pattern() {
    let text = "The quick brown fox jumps over the lazy dog";
    let pattern = r"brown";
    let replacement = "red";
    assert_eq!(
        replace_pattern(text, pattern, replacement),
        "The quick red fox jumps over the lazy dog"
    );
}

#[test]
fn lib_test_count_pattern() {
    let text = "The quick brown fox jumps over the lazy dog";
    let pattern = r"the";
    assert_eq!(count_pattern(text, pattern), 2);
}

#[test]
fn lib_test_split_text() {
    let text = "one,two,three";
    let delimiter = ",";
    assert_eq!(split_text(text, delimiter), vec!["one", "two", "three"]);
}

#[test]
fn lib_test_join_text() {
    let parts = vec!["one", "two", "three"];
    let delimiter = ",";
    assert_eq!(join_text(parts, delimiter), "one,two,three");
}

#[test]
fn lib_test_to_uppercase() {
    let text = "hello world";
    assert_eq!(to_uppercase(text), "HELLO WORLD");
}

#[test]
fn lib_test_to_lowercase() {
    let text = "HELLO WORLD";
    assert_eq!(to_lowercase(text), "hello world");
}

#[test]
fn lib_test_trim_whitespace() {
    let text = "  hello world  ";
    assert_eq!(trim_whitespace(text), "hello world");
}

#[test]
fn lib_test_reverse_string() {
    let text = "hello world";
    assert_eq!(reverse_string(text), "dlrow olleh");
}

#[test]
fn lib_test_is_palindrome() {
    let text = "racecar";
    assert_eq!(is_palindrome(text), true);
    let text = "hello";
    assert_eq!(is_palindrome(text), false);
}

#[test]
fn lib_test_remove_punctuation() {
    let text = "Hello, world!";
    assert_eq!(remove_punctuation(text), "Hello world");
}

#[test]
fn lib_test_extract_numbers() {
    let text = "There are 123 apples and 456 oranges.";
    assert_eq!(extract_numbers(text), vec!["123", "456"]);
}

#[test]
fn lib_test_capitalize_words() {
    let text = "hello world";
    assert_eq!(capitalize_words(text), "Hello World");
}
