//! Pure, stateless transformations and queries over UTF-8 text: string
//! shaping, case and format conversions, encoding codecs with round-trip
//! laws, and classical substring-search algorithms.

pub mod ascii;
pub mod basic;
pub mod encoding;
pub mod search;
pub mod transform;
pub mod unicode;
pub mod utils;

pub use basic::{join_text, split_text, to_lowercase, to_uppercase, trim_whitespace};
pub use search::{count_pattern, find_pattern, replace_pattern};
pub use transform::{
    capitalize_words, extract_numbers, is_palindrome, remove_punctuation, reverse_string,
};
