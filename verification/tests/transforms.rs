use loki_text::transform::{
    capitalize_words, extract_numbers, invert_case, is_palindrome, normalize_whitespace,
    remove_consonants, remove_punctuation, remove_special_characters, remove_vowels, repeat_chars,
    replace_spaces_with_underscores, reverse_string, reverse_words, to_alternating_case,
    to_camel_case, to_kebab_case, to_leet_speak, to_pascal_case, to_screaming_snake_case,
    to_snake_case, to_title_case, truncate,
};

#[test]
fn transform_test_reverse_string() {
    let text = "hello world";
    assert_eq!(reverse_string(text), "dlrow olleh");
}

#[test]
fn transform_test_is_palindrome() {
    let text = "racecar";
    assert_eq!(is_palindrome(text), true);
    let text = "hello";
    assert_eq!(is_palindrome(text), false);
}

#[test]
fn transform_test_remove_punctuation() {
    let text = "Hello, world!";
    assert_eq!(remove_punctuation(text), "Hello world");
}

#[test]
fn transform_test_extract_numbers() {
    let text = "There are 123 apples and 456 oranges.";
    assert_eq!(extract_numbers(text), vec!["123", "456"]);
}

#[test]
fn transform_test_capitalize_words() {
    let text = "hello world";
    assert_eq!(capitalize_words(text), "Hello World");
}

#[test]
fn test_to_camel_case() {
    let text = "hello world";
    let result = to_camel_case(text);
    assert_eq!(result, "helloWorld");
}

#[test]
fn test_to_snake_case() {
    let text = "Hello World";
    let result = to_snake_case(text);
    assert_eq!(result, "hello_world");
}

#[test]
fn test_to_kebab_case() {
    let text = "Hello World";
    let result = to_kebab_case(text);
    assert_eq!(result, "hello-world");
}

#[test]
fn test_replace_spaces_with_underscores() {
    let text = "hello world";
    let result = replace_spaces_with_underscores(text);
    assert_eq!(result, "hello_world");
}

#[test]
fn test_reverse_words() {
    let text = "hello world";
    let result = reverse_words(text);
    assert_eq!(result, "world hello");
}

#[test]
fn test_remove_special_characters() {
    let text = "hello, world!";
    let result = remove_special_characters(text);
    assert_eq!(result, "hello world");
}

#[test]
fn test_to_title_case() {
    let text = "hello world";
    let result = to_title_case(text);
    assert_eq!(result, "Hello World");
}

#[test]
fn test_to_pascal_case() {
    let text = "hello world";
    assert_eq!(to_pascal_case(text), "HelloWorld");

    let text = "hello_world_test";
    assert_eq!(to_pascal_case(text), "HelloWorldTest");
}

#[test]
fn test_to_screaming_snake_case() {
    let text = "Hello World";
    assert_eq!(to_screaming_snake_case(text), "HELLO_WORLD");

    let text = "camelCaseText";
    assert_eq!(to_screaming_snake_case(text), "CAMEL_CASE_TEXT");
}

#[test]
fn test_to_alternating_case() {
    let text = "hello";
    assert_eq!(to_alternating_case(text), "hElLo");

    let text = "test";
    assert_eq!(to_alternating_case(text), "tEsT");
}

#[test]
fn test_invert_case() {
    let text = "Hello World";
    assert_eq!(invert_case(text), "hELLO wORLD");

    let text = "tEST";
    assert_eq!(invert_case(text), "Test");
}

#[test]
fn test_normalize_whitespace() {
    let text = "hello    world   test";
    assert_eq!(normalize_whitespace(text), "hello world test");

    let text = "  hello world  ";
    assert_eq!(normalize_whitespace(text), "hello world");
}

#[test]
fn test_truncate() {
    let text = "hello world";
    assert_eq!(truncate(text, 5), "hello");

    let text = "hi";
    assert_eq!(truncate(text, 5), "hi");
}

#[test]
fn test_repeat_chars() {
    let text = "hello";
    assert_eq!(repeat_chars(text, 2), "hheelllloo");

    let text = "hi";
    assert_eq!(repeat_chars(text, 3), "hhhiii");
}

#[test]
fn test_remove_vowels() {
    let text = "hello world";
    assert_eq!(remove_vowels(text), "hll wrld");

    let text = "AEIOU";
    assert_eq!(remove_vowels(text), "");
}

#[test]
fn test_remove_consonants() {
    let text = "hello world";
    assert_eq!(remove_consonants(text), "eo o");

    let text = "bcdfg";
    assert_eq!(remove_consonants(text), "");
}

#[test]
fn test_to_leet_speak() {
    let text = "hello world";
    assert_eq!(to_leet_speak(text), "h3ll0 w0rld");

    let text = "test";
    assert_eq!(to_leet_speak(text), "7357");
}

#[test]
fn reverse_twice_is_identity() {
    let text = "déjà vu! 123";
    assert_eq!(reverse_string(&reverse_string(text)), text);
}

#[test]
fn palindrome_ignores_case_and_symbols() {
    assert!(is_palindrome("A man, a plan, a canal: Panama"));
    assert!(is_palindrome("No 'x' in Nixon"));
    assert!(!is_palindrome("almost a palindroma"));
}

#[test]
fn palindrome_agrees_on_reversed_alphanumerics() {
    for text in ["racecar", "hello", "A man, a plan, a canal: Panama", "12 321"] {
        let cleaned: String = text.chars().filter(|c| c.is_alphanumeric()).collect();
        let reversed = reverse_string(&cleaned);
        assert_eq!(is_palindrome(text), is_palindrome(&reversed));
    }
}

#[test]
fn normalize_whitespace_example() {
    assert_eq!(normalize_whitespace("  a   b  "), "a b");
}

#[test]
fn truncate_keeps_short_text_unchanged() {
    assert_eq!(truncate("hello", 5), "hello");
    assert_eq!(truncate("hello", 50), "hello");
    assert_eq!(truncate("", 3), "");
    assert_eq!(truncate("héllo", 2), "hé");
}

#[test]
fn extract_numbers_edge_cases() {
    assert_eq!(extract_numbers("no digits"), Vec::<String>::new());
    assert_eq!(extract_numbers("007"), vec!["007"]);
    assert_eq!(extract_numbers("a1b22c333"), vec!["1", "22", "333"]);
}

#[test]
fn case_conversions_collapse_boundaries() {
    assert_eq!(to_camel_case("hello_world-test case"), "helloWorldTestCase");
    assert_eq!(to_snake_case("Hello   World"), "hello_world");
    assert_eq!(to_kebab_case("snake_case_text"), "snake-case-text");
    assert_eq!(to_pascal_case("_leading"), "Leading");
}

#[test]
fn repeat_chars_zero_times_is_empty() {
    assert_eq!(repeat_chars("abc", 0), "");
}
