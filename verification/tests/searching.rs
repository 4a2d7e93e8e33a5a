use loki_text::search::{
    aho_corasick_search, boyer_moore_horspool_search, boyer_moore_search, count_pattern,
    find_pattern, kmp_search, rabin_karp_search, replace_pattern, z_algorithm_search,
};

#[test]
fn search_test_find_pattern() {
    let text = "The quick brown fox jumps over the lazy dog";
    let pattern = r"quick\s(\w+)";
    assert_eq!(find_pattern(text, pattern), Some("brown".to_string()));
}

#[test]
fn search_test_replace_pattern() {
    let text = "The quick brown fox jumps over the lazy dog";
    let pattern = r"brown";
    let replacement = "red";
    assert_eq!(
        replace_pattern(text, pattern, replacement),
        "The quick red fox jumps over the lazy dog"
    );
}

#[test]
fn search_test_count_pattern() {
    let text = "The quick brown fox jumps over the lazy dog";
    let pattern = r"the";
    assert_eq!(count_pattern(text, pattern), 2);
}

#[test]
fn test_kmp_search() {
    let text = "The quick brown fox jumps over the lazy dog";
    let pattern = "quick";
    let result = kmp_search(text, pattern);
    assert_eq!(result, Some(4));
}

#[test]
fn test_boyer_moore_search() {
    let text = "The quick brown fox jumps over the lazy dog";
    let pattern = "quick";
    let result = boyer_moore_search(text, pattern);
    assert_eq!(result, Some(4));
}

#[test]
fn test_boyer_moore_horspool_search() {
    let text = "The quick brown fox jumps over the lazy dog";
    let pattern = "quick";
    let result = boyer_moore_horspool_search(text, pattern);
    assert_eq!(result, Some(4));
}

#[test]
fn test_z_algorithm_search() {
    let text = "The quick brown fox jumps over the lazy dog";
    let pattern = "quick";
    let result = z_algorithm_search(text, pattern);
    assert_eq!(result, Some(4));
}

#[test]
fn test_aho_corasick_search() {
    let text = "The quick brown fox jumps over the lazy dog";
    let patterns = vec!["quick", "fox", "dog"];
    let result = aho_corasick_search(text, patterns);
    assert_eq!(result, vec![(4, "quick"), (16, "fox"), (40, "dog")]);
}

#[test]
fn test_rabin_karp_search() {
    let text = "The quick brown fox jumps over the lazy dog";
    let pattern = "quick";
    let result = rabin_karp_search(text, pattern);
    assert_eq!(result, Some(4));
}

#[test]
fn searches_agree_on_sample_inputs() {
    let cases = [
        ("The quick brown fox jumps over the lazy dog", "quick"),
        ("aaaaab", "aab"),
        ("mississippi", "issi"),
        ("mississippi", "ssippi"),
        ("abcabcabd", "abcabd"),
        ("no such needle here", "zebra"),
        ("aa", "a"),
        ("overlap overlap", "overlap"),
    ];
    for (text, pattern) in cases {
        let expected = kmp_search(text, pattern);
        assert_eq!(boyer_moore_horspool_search(text, pattern), expected);
        assert_eq!(z_algorithm_search(text, pattern), expected);
        assert_eq!(rabin_karp_search(text, pattern), expected);
    }
}

#[test]
fn boyer_moore_reports_real_occurrences() {
    // The bad-character shift can pass over the first occurrence (for
    // "issi" in "mississippi" it reports 4, not 1), but whatever it
    // reports is an occurrence, and absent patterns stay absent.
    let cases = [
        ("The quick brown fox jumps over the lazy dog", "quick"),
        ("aaaaab", "aab"),
        ("mississippi", "issi"),
        ("abcabcabd", "abcabd"),
        ("no such needle here", "zebra"),
    ];
    for (text, pattern) in cases {
        if let Some(s) = boyer_moore_search(text, pattern) {
            assert_eq!(&text[s..s + pattern.len()], pattern);
        }
    }
    assert_eq!(boyer_moore_search("mississippi", "issi"), Some(4));
    assert_eq!(kmp_search("mississippi", "issi"), Some(1));
    assert_eq!(boyer_moore_search("aaaaab", "aab"), Some(3));
}

#[test]
fn searches_not_found_on_degenerate_inputs() {
    for search in [
        kmp_search,
        boyer_moore_search,
        boyer_moore_horspool_search,
        z_algorithm_search,
        rabin_karp_search,
    ] {
        assert_eq!(search("", "abc"), None);
        assert_eq!(search("abc", ""), None);
        assert_eq!(search("ab", "abc"), None);
        assert_eq!(search("", ""), None);
    }
}

#[test]
fn searches_find_first_of_several() {
    let text = "abab";
    assert_eq!(kmp_search(text, "ab"), Some(0));
    assert_eq!(boyer_moore_horspool_search(text, "ab"), Some(0));
    assert_eq!(z_algorithm_search(text, "ab"), Some(0));
    assert_eq!(rabin_karp_search(text, "ab"), Some(0));
}

#[test]
fn aho_corasick_single_pattern_matches_brute_force() {
    let text = "abababa";
    let pattern = "aba";
    let result = aho_corasick_search(text, vec![pattern]);
    let mut expected: Vec<(usize, &str)> = Vec::new();
    let bytes = text.as_bytes();
    for start in 0..=(bytes.len() - pattern.len()) {
        if &bytes[start..start + pattern.len()] == pattern.as_bytes() {
            expected.push((start, pattern));
        }
    }
    assert_eq!(result, expected);
}

#[test]
fn aho_corasick_reports_overlapping_patterns() {
    // matches sharing an end position come in pattern-list order
    let result = aho_corasick_search("ushers", vec!["he", "she", "hers"]);
    assert_eq!(result, vec![(2, "he"), (1, "she"), (2, "hers")]);
}

#[test]
fn aho_corasick_duplicate_patterns_yield_two_records() {
    let result = aho_corasick_search("xabx", vec!["ab", "ab"]);
    assert_eq!(result, vec![(1, "ab"), (1, "ab")]);
}

#[test]
fn aho_corasick_empty_inputs() {
    assert_eq!(aho_corasick_search("", vec!["x"]), Vec::<(usize, &str)>::new());
    assert_eq!(aho_corasick_search("abc", Vec::<&str>::new()), Vec::<(usize, &str)>::new());
}

#[test]
fn find_pattern_absorbs_bad_patterns() {
    assert_eq!(find_pattern("whatever", "(unclosed"), None);
    assert_eq!(find_pattern("no group here", "here"), None);
}

#[test]
fn replace_pattern_replaces_every_match() {
    assert_eq!(replace_pattern("a1b22c", r"\d+", "#"), "a#b#c");
    assert_eq!(replace_pattern("keep", "(broken", "x"), "keep");
}

#[test]
fn count_pattern_is_case_insensitive() {
    assert_eq!(count_pattern("The THE the", "the"), 3);
    assert_eq!(count_pattern("abc", "(broken"), 0);
}
