//! Structural transforms and case/format conversions: reversal, palindrome
//! check, character filters, case conversions, whitespace normalization,
//! truncation and repetition.
//!
//! Case conversions use the ASCII case mapping; the alphabetic and
//! alphanumeric character classes are the Unicode ones of `std`.

use vstd::prelude::*;
use vstd::string::StrSliceExecFns;
use vstd::string::StringExecFns;

use crate::ascii;
use crate::ascii::{
    ascii_lower_char_spec, ascii_upper_char_spec, is_ascii_lower_char, is_ascii_upper_char,
    is_digit_char, is_space_char,
};
use crate::unicode;
use crate::unicode::{unicode_alphabetic, unicode_alphanumeric};

verus! {

// ------------------------------------------------------------------
// Pointwise character maps
// ------------------------------------------------------------------
/// ASCII case inversion of one character.
pub open spec fn invert_case_char(c: char) -> char {
    if is_ascii_lower_char(c) {
        ascii_upper_char_spec(c)
    } else if is_ascii_upper_char(c) {
        ascii_lower_char_spec(c)
    } else {
        c
    }
}

pub open spec fn invert_case_seq(s: Seq<char>) -> Seq<char> {
    Seq::new(s.len(), |i: int| invert_case_char(s[i]))
}

/// Swaps the case of every ASCII letter; other characters are unchanged.
pub fn invert_case(text: &str) -> (result: String)
    ensures
        result@ == invert_case_seq(text@),
{
    let n = text.unicode_len();
    let mut out = String::new();
    let mut i: usize = 0;
    while i < n
        invariant
            n == text@.len(),
            0 <= i <= n,
            out@.len() == i,
            forall|j: int| 0 <= j < i ==> out@[j] == invert_case_char(text@[j]),
        decreases n - i,
    {
        let c = text.get_char(i);
        let u = c as u32;
        let mapped: char = if 0x61 <= u && u <= 0x7a {
            ascii::ascii_upper_char(c)
        } else if 0x41 <= u && u <= 0x5a {
            ascii::ascii_lower_char(c)
        } else {
            c
        };
        ascii::push_char(&mut out, mapped);
        i = i + 1;
    }
    proof {
        assert(out@ =~= invert_case_seq(text@));
    }
    out
}

/// Leetspeak substitution of one character: a, e, i, o, s, t (of either
/// case) become 4, 3, 1, 0, 5, 7.
pub open spec fn leet_char(c: char) -> char {
    let l = ascii_lower_char_spec(c);
    if l == 'a' {
        '4'
    } else if l == 'e' {
        '3'
    } else if l == 'i' {
        '1'
    } else if l == 'o' {
        '0'
    } else if l == 's' {
        '5'
    } else if l == 't' {
        '7'
    } else {
        c
    }
}

pub open spec fn leet_seq(s: Seq<char>) -> Seq<char> {
    Seq::new(s.len(), |i: int| leet_char(s[i]))
}

/// Rewrites the text in basic leetspeak, character by character.
pub fn to_leet_speak(text: &str) -> (result: String)
    ensures
        result@ == leet_seq(text@),
{
    let n = text.unicode_len();
    let mut out = String::new();
    let mut i: usize = 0;
    while i < n
        invariant
            n == text@.len(),
            0 <= i <= n,
            out@.len() == i,
            forall|j: int| 0 <= j < i ==> out@[j] == leet_char(text@[j]),
        decreases n - i,
    {
        let c = text.get_char(i);
        let l = ascii::ascii_lower_char(c);
        let mapped: char = if l == 'a' {
            '4'
        } else if l == 'e' {
            '3'
        } else if l == 'i' {
            '1'
        } else if l == 'o' {
            '0'
        } else if l == 's' {
            '5'
        } else if l == 't' {
            '7'
        } else {
            c
        };
        ascii::push_char(&mut out, mapped);
        i = i + 1;
    }
    proof {
        assert(out@ =~= leet_seq(text@));
    }
    out
}

pub open spec fn space_to_underscore_char(c: char) -> char {
    if c == ' ' {
        '_'
    } else {
        c
    }
}

pub open spec fn space_to_underscore_seq(s: Seq<char>) -> Seq<char> {
    Seq::new(s.len(), |i: int| space_to_underscore_char(s[i]))
}

/// Replaces every space character with an underscore.
pub fn replace_spaces_with_underscores(text: &str) -> (result: String)
    ensures
        result@ == space_to_underscore_seq(text@),
{
    let n = text.unicode_len();
    let mut out = String::new();
    let mut i: usize = 0;
    while i < n
        invariant
            n == text@.len(),
            0 <= i <= n,
            out@.len() == i,
            forall|j: int| 0 <= j < i ==> out@[j] == space_to_underscore_char(text@[j]),
        decreases n - i,
    {
        let c = text.get_char(i);
        let mapped: char = if c == ' ' {
            '_'
        } else {
            c
        };
        ascii::push_char(&mut out, mapped);
        i = i + 1;
    }
    proof {
        assert(out@ =~= space_to_underscore_seq(text@));
    }
    out
}

// ------------------------------------------------------------------
// Reversal and palindrome
// ------------------------------------------------------------------
/// Reverses the order of the characters.
pub fn reverse_string(text: &str) -> (result: String)
    ensures
        result@ == text@.reverse(),
{
    let n = text.unicode_len();
    let mut out = String::new();
    let mut i: usize = 0;
    while i < n
        invariant
            n == text@.len(),
            0 <= i <= n,
            out@.len() == i,
            forall|j: int| 0 <= j < i ==> out@[j] == text@[n - 1 - j],
        decreases n - i,
    {
        let c = text.get_char(n - 1 - i);
        ascii::push_char(&mut out, c);
        i = i + 1;
    }
    proof {
        assert(out@ =~= text@.reverse());
    }
    out
}

/// Reversal twice gives back the original text.
pub proof fn lemma_reverse_involution(s: Seq<char>)
    ensures
        s.reverse().reverse() == s,
{
    assert(s.reverse().reverse() =~= s);
}

// ------------------------------------------------------------------
// Character filters
// ------------------------------------------------------------------
pub open spec fn is_ascii_punct_char(c: char) -> bool {
    ||| ('!' <= c && c <= '/')
    ||| (':' <= c && c <= '@')
    ||| ('[' <= c && c <= '`')
    ||| ('{' <= c && c <= '~')
}

pub open spec fn keep_non_punct(c: char) -> bool {
    !is_ascii_punct_char(c)
}

/// Removes the ASCII punctuation characters.
pub fn remove_punctuation(text: &str) -> (result: String)
    ensures
        result@ == text@.filter(|c: char| keep_non_punct(c)),
{
    let n = text.unicode_len();
    let mut out = String::new();
    let mut i: usize = 0;
    while i < n
        invariant
            n == text@.len(),
            0 <= i <= n,
            out@ == text@.take(i as int).filter(|c: char| keep_non_punct(c)),
        decreases n - i,
    {
        let c = text.get_char(i);
        let u = c as u32;
        let is_punct = (0x21 <= u && u <= 0x2f) || (0x3a <= u && u <= 0x40) || (0x5b <= u && u
            <= 0x60) || (0x7b <= u && u <= 0x7e);
        if !is_punct {
            ascii::push_char(&mut out, c);
        }
        proof {
            reveal_with_fuel(Seq::filter, 2);
            assert(text@.take(i + 1).drop_last() =~= text@.take(i as int));
            assert(text@.take(i + 1).last() == text@[i as int]);
        }
        i = i + 1;
    }
    proof {
        assert(text@.take(n as int) =~= text@);
    }
    out
}

pub open spec fn is_vowel_char(c: char) -> bool {
    c == 'a' || c == 'e' || c == 'i' || c == 'o' || c == 'u' || c == 'A' || c == 'E' || c == 'I'
        || c == 'O' || c == 'U'
}

pub open spec fn keep_non_vowel(c: char) -> bool {
    !is_vowel_char(c)
}

/// Removes the ASCII vowels, of either case.
pub fn remove_vowels(text: &str) -> (result: String)
    ensures
        result@ == text@.filter(|c: char| keep_non_vowel(c)),
{
    let n = text.unicode_len();
    let mut out = String::new();
    let mut i: usize = 0;
    while i < n
        invariant
            n == text@.len(),
            0 <= i <= n,
            out@ == text@.take(i as int).filter(|c: char| keep_non_vowel(c)),
        decreases n - i,
    {
        let c = text.get_char(i);
        let is_vowel = c == 'a' || c == 'e' || c == 'i' || c == 'o' || c == 'u' || c == 'A' || c
            == 'E' || c == 'I' || c == 'O' || c == 'U';
        if !is_vowel {
            ascii::push_char(&mut out, c);
        }
        proof {
            reveal_with_fuel(Seq::filter, 2);
            assert(text@.take(i + 1).drop_last() =~= text@.take(i as int));
            assert(text@.take(i + 1).last() == text@[i as int]);
        }
        i = i + 1;
    }
    proof {
        assert(text@.take(n as int) =~= text@);
    }
    out
}

/// A character survives `remove_consonants` when it is a vowel, a space,
/// or not alphabetic at all.
pub open spec fn keep_non_consonant(c: char) -> bool {
    is_vowel_char(c) || c == ' ' || !unicode_alphabetic(c)
}

/// Removes the alphabetic characters that are not ASCII vowels, keeping
/// spaces and non-letters.
pub fn remove_consonants(text: &str) -> (result: String)
    ensures
        result@ == text@.filter(|c: char| keep_non_consonant(c)),
{
    let n = text.unicode_len();
    let mut out = String::new();
    let mut i: usize = 0;
    while i < n
        invariant
            n == text@.len(),
            0 <= i <= n,
            out@ == text@.take(i as int).filter(|c: char| keep_non_consonant(c)),
        decreases n - i,
    {
        let c = text.get_char(i);
        let is_vowel = c == 'a' || c == 'e' || c == 'i' || c == 'o' || c == 'u' || c == 'A' || c
            == 'E' || c == 'I' || c == 'O' || c == 'U';
        if is_vowel || c == ' ' || !unicode::char_is_alphabetic(c) {
            ascii::push_char(&mut out, c);
        }
        proof {
            reveal_with_fuel(Seq::filter, 2);
            assert(text@.take(i + 1).drop_last() =~= text@.take(i as int));
            assert(text@.take(i + 1).last() == text@[i as int]);
        }
        i = i + 1;
    }
    proof {
        assert(text@.take(n as int) =~= text@);
    }
    out
}

pub open spec fn keep_special_removed(c: char) -> bool {
    unicode_alphanumeric(c) || is_space_char(c)
}

/// Keeps only alphanumeric and whitespace characters.
pub fn remove_special_characters(text: &str) -> (result: String)
    ensures
        result@ == text@.filter(|c: char| keep_special_removed(c)),
{
    let n = text.unicode_len();
    let mut out = String::new();
    let mut i: usize = 0;
    while i < n
        invariant
            n == text@.len(),
            0 <= i <= n,
            out@ == text@.take(i as int).filter(|c: char| keep_special_removed(c)),
        decreases n - i,
    {
        let c = text.get_char(i);
        if unicode::char_is_alphanumeric(c) || ascii::is_space(c) {
            ascii::push_char(&mut out, c);
        }
        proof {
            reveal_with_fuel(Seq::filter, 2);
            assert(text@.take(i + 1).drop_last() =~= text@.take(i as int));
            assert(text@.take(i + 1).last() == text@[i as int]);
        }
        i = i + 1;
    }
    proof {
        assert(text@.take(n as int) =~= text@);
    }
    out
}

// ------------------------------------------------------------------
// Truncation and repetition
// ------------------------------------------------------------------
/// Keeps the first `max_length` characters; shorter text is unchanged.
pub fn truncate(text: &str, max_length: usize) -> (result: String)
    ensures
        text@.len() <= max_length ==> result@ == text@,
        text@.len() > max_length ==> result@ == text@.take(max_length as int),
{
    let n = text.unicode_len();
    if n <= max_length {
        String::from_str(text)
    } else {
        let part = text.substring_char(0, max_length);
        proof {
            assert(text@.subrange(0, max_length as int) =~= text@.take(max_length as int));
        }
        String::from_str(part)
    }
}

/// Repeats each character of `text` `times` times, in order.
pub fn repeat_chars(text: &str, times: usize) -> (result: String)
    ensures
        result@ == repeat_chars_seq(text@, times as nat),
{
    let n = text.unicode_len();
    let mut out = String::new();
    let mut i: usize = 0;
    while i < n
        invariant
            n == text@.len(),
            0 <= i <= n,
            out@ == repeat_chars_seq(text@.take(i as int), times as nat),
        decreases n - i,
    {
        let c = text.get_char(i);
        let mut k: usize = 0;
        while k < times
            invariant
                0 <= k <= times,
                i < n == text@.len(),
                c == text@[i as int],
                out@ == repeat_chars_seq(text@.take(i as int), times as nat) + Seq::new(
                    k as nat,
                    |j: int| c,
                ),
            decreases times - k,
        {
            ascii::push_char(&mut out, c);
            proof {
                assert(out@ =~= repeat_chars_seq(text@.take(i as int), times as nat) + Seq::new(
                    (k + 1) as nat,
                    |j: int| c,
                ));
            }
            k = k + 1;
        }
        proof {
            assert(text@.take(i + 1).drop_last() =~= text@.take(i as int));
            assert(out@ =~= repeat_chars_seq(text@.take(i + 1), times as nat));
        }
        i = i + 1;
    }
    proof {
        assert(text@.take(n as int) =~= text@);
    }
    out
}

/// Each character of `s` repeated `k` times, in order.
pub open spec fn repeat_chars_seq(s: Seq<char>, k: nat) -> Seq<char>
    decreases s.len(),
{
    if s.len() == 0 {
        Seq::empty()
    } else {
        repeat_chars_seq(s.drop_last(), k) + Seq::new(k, |j: int| s.last())
    }
}

// ------------------------------------------------------------------
// Palindrome
// ------------------------------------------------------------------
/// The alphanumeric characters of `s`, in order.
pub open spec fn alphanumerics_of(s: Seq<char>) -> Seq<char> {
    s.filter(|c: char| unicode_alphanumeric(c))
}

/// ASCII lowercasing of every character.
pub open spec fn lower_ascii_seq(s: Seq<char>) -> Seq<char> {
    Seq::new(s.len(), |i: int| ascii_lower_char_spec(s[i]))
}

/// A text is a palindrome when its alphanumeric characters, compared
/// without regard to ASCII case, read the same in both directions.
pub open spec fn is_palindrome_spec(s: Seq<char>) -> bool {
    lower_ascii_seq(alphanumerics_of(s)) == lower_ascii_seq(alphanumerics_of(s).reverse())
}

/// Decides whether the text is a palindrome over its alphanumeric
/// characters, ignoring ASCII case.
pub fn is_palindrome(text: &str) -> (result: bool)
    ensures
        result == is_palindrome_spec(text@),
{
    let n = text.unicode_len();
    let mut cleaned: Vec<char> = Vec::new();
    let mut i: usize = 0;
    while i < n
        invariant
            n == text@.len(),
            0 <= i <= n,
            cleaned@ == text@.take(i as int).filter(|c: char| unicode_alphanumeric(c)),
        decreases n - i,
    {
        let c = text.get_char(i);
        if unicode::char_is_alphanumeric(c) {
            cleaned.push(c);
        }
        proof {
            reveal_with_fuel(Seq::filter, 2);
            assert(text@.take(i + 1).drop_last() =~= text@.take(i as int));
            assert(text@.take(i + 1).last() == text@[i as int]);
        }
        i = i + 1;
    }
    proof {
        assert(text@.take(n as int) =~= text@);
    }
    let m = cleaned.len();
    let ghost f = alphanumerics_of(text@);
    let mut k: usize = 0;
    let mut same = true;
    while k < m
        invariant
            m == f.len(),
            cleaned@ == f,
            0 <= k <= m,
            same == forall|j: int|
                0 <= j < k ==> ascii_lower_char_spec(#[trigger] f[j]) == ascii_lower_char_spec(
                    f[m - 1 - j],
                ),
        decreases m - k,
    {
        let a = ascii::ascii_lower_char(cleaned[k]);
        let b = ascii::ascii_lower_char(cleaned[m - 1 - k]);
        if a != b {
            same = false;
        }
        k = k + 1;
    }
    proof {
        if same {
            assert(lower_ascii_seq(f) =~= lower_ascii_seq(f.reverse()));
        } else {
            let j = choose|j: int|
                0 <= j < m && ascii_lower_char_spec(#[trigger] f[j]) != ascii_lower_char_spec(
                    f[m - 1 - j],
                );
            assert(lower_ascii_seq(f)[j] != lower_ascii_seq(f.reverse())[j]);
        }
    }
    same
}

/// Filtering keeps a sequence unchanged when every element already
/// satisfies the predicate.
proof fn lemma_filter_all_pass(s: Seq<char>, pred: spec_fn(char) -> bool)
    requires
        forall|i: int| 0 <= i < s.len() ==> pred(s[i]),
    ensures
        s.filter(pred) == s,
    decreases s.len(),
{
    reveal_with_fuel(Seq::filter, 2);
    if s.len() == 0 {
        assert(s.filter(pred) =~= s);
    } else {
        lemma_filter_all_pass(s.drop_last(), pred);
        assert(s.filter(pred) =~= s);
    }
}

/// The palindrome check gives the same verdict on a text and on the
/// reversal of that text's alphanumeric characters.
pub proof fn lemma_palindrome_of_reversed_alphanumerics(s: Seq<char>)
    ensures
        is_palindrome_spec(s) == is_palindrome_spec(alphanumerics_of(s).reverse()),
{
    let f = alphanumerics_of(s);
    let r = f.reverse();
    assert forall|i: int| 0 <= i < r.len() implies unicode_alphanumeric(r[i]) by {
        s.lemma_filter_pred(|c: char| unicode_alphanumeric(c), f.len() - 1 - i);
        assert(r[i] == f[f.len() - 1 - i]);
    }
    lemma_filter_all_pass(r, |c: char| unicode_alphanumeric(c));
    assert(alphanumerics_of(r) == r);
    assert(r.reverse() =~= f);
}

// ------------------------------------------------------------------
// Alternating case
// ------------------------------------------------------------------
/// Alternating case over the alphabetic characters: counting only
/// letters, the letter at an even count is lowercased (ASCII) and the
/// letter at an odd count is uppercased; other characters pass through.
pub open spec fn alternating_seq(s: Seq<char>, idx: nat) -> Seq<char>
    decreases s.len(),
{
    if s.len() == 0 {
        Seq::empty()
    } else if unicode_alphabetic(s[0]) {
        seq![
            if idx % 2 == 0 {
                ascii_lower_char_spec(s[0])
            } else {
                ascii_upper_char_spec(s[0])
            },
        ] + alternating_seq(s.skip(1), idx + 1)
    } else {
        seq![s[0]] + alternating_seq(s.skip(1), idx)
    }
}

/// Rewrites the text in alternating case over its letters.
pub fn to_alternating_case(text: &str) -> (result: String)
    ensures
        result@ == alternating_seq(text@, 0),
{
    let n = text.unicode_len();
    let mut out = String::new();
    let mut i: usize = 0;
    let mut letters: usize = 0;
    proof {
        assert(text@.skip(0) =~= text@);
        assert(out@ + alternating_seq(text@, 0) =~= alternating_seq(text@, 0));
    }
    while i < n
        invariant
            n == text@.len(),
            0 <= i <= n,
            letters <= i,
            alternating_seq(text@, 0) == out@ + alternating_seq(
                text@.skip(i as int),
                letters as nat,
            ),
        decreases n - i,
    {
        let c = text.get_char(i);
        proof {
            assert(text@.skip(i as int)[0] == text@[i as int]);
            assert(text@.skip(i as int).skip(1) =~= text@.skip(i + 1));
        }
        if unicode::char_is_alphabetic(c) {
            let mapped: char = if letters % 2 == 0 {
                ascii::ascii_lower_char(c)
            } else {
                ascii::ascii_upper_char(c)
            };
            ascii::push_char(&mut out, mapped);
            letters = letters + 1;
        } else {
            ascii::push_char(&mut out, c);
        }
        i = i + 1;
    }
    proof {
        assert(text@.skip(n as int) =~= Seq::<char>::empty());
        assert(out@ + Seq::<char>::empty() =~= out@);
    }
    out
}

// ------------------------------------------------------------------
// Whitespace-separated words
// ------------------------------------------------------------------
/// The longest prefix of `s` holding no whitespace character.
pub open spec fn first_word(s: Seq<char>) -> Seq<char>
    decreases s.len(),
{
    if s.len() == 0 || is_space_char(s[0]) {
        Seq::empty()
    } else {
        seq![s[0]] + first_word(s.skip(1))
    }
}

pub proof fn lemma_first_word_le(s: Seq<char>)
    ensures
        first_word(s).len() <= s.len(),
    decreases s.len(),
{
    if s.len() > 0 && !is_space_char(s[0]) {
        lemma_first_word_le(s.skip(1));
    }
}

/// The maximal whitespace-free words of `s`, in order, without empties.
pub open spec fn words_of(s: Seq<char>) -> Seq<Seq<char>>
    decreases s.len(),
    via words_of_decreases
{
    if s.len() == 0 {
        Seq::empty()
    } else if is_space_char(s[0]) {
        words_of(s.skip(1))
    } else {
        seq![first_word(s)] + words_of(s.skip(first_word(s).len() as int))
    }
}

#[via_fn]
proof fn words_of_decreases(s: Seq<char>) {
    if s.len() > 0 && !is_space_char(s[0]) {
        lemma_first_word_le(s);
        assert(first_word(s).len() >= 1);
    }
}

/// `first_word` is the prefix that runs up to the first whitespace
/// character, or to the end when there is none.
proof fn lemma_first_word_take(s: Seq<char>, j: int)
    requires
        0 <= j <= s.len(),
        forall|k: int| 0 <= k < j ==> !is_space_char(s[k]),
        j == s.len() || is_space_char(s[j]),
    ensures
        first_word(s) == s.take(j),
    decreases j,
{
    if j == 0 {
        assert(first_word(s) =~= s.take(0));
    } else {
        assert(!is_space_char(s[0]));
        lemma_first_word_take(s.skip(1), j - 1);
        assert(s.skip(1).take(j - 1) =~= s.subrange(1, j));
        assert(first_word(s) =~= s.take(j));
    }
}

/// The words joined with one space between neighbours.
pub open spec fn join_space(ws: Seq<Seq<char>>) -> Seq<char>
    decreases ws.len(),
{
    if ws.len() == 0 {
        Seq::empty()
    } else if ws.len() == 1 {
        ws[0]
    } else {
        ws[0] + seq![' '] + join_space(ws.skip(1))
    }
}

proof fn lemma_join_space_push(ws: Seq<Seq<char>>, w: Seq<char>)
    ensures
        ws.len() == 0 ==> join_space(ws.push(w)) == w,
        ws.len() > 0 ==> join_space(ws.push(w)) == join_space(ws) + seq![' '] + w,
    decreases ws.len(),
{
    if ws.len() == 0 {
        assert(ws.push(w)[0] == w);
        assert(join_space(ws.push(w)) == w);
    } else if ws.len() == 1 {
        assert(ws.push(w).skip(1) =~= seq![w]);
        assert(join_space(seq![w]) == w);
        assert(join_space(ws.push(w)) =~= ws[0] + seq![' '] + w);
    } else {
        lemma_join_space_push(ws.skip(1), w);
        assert(ws.push(w).skip(1) =~= ws.skip(1).push(w));
        assert(join_space(ws.push(w)) =~= join_space(ws) + seq![' '] + w);
    }
}

/// Splits the text at whitespace runs into its words.
fn split_whitespace_words(text: &str) -> (words: Vec<String>)
    ensures
        words.deep_view() == words_of(text@),
        forall|k: int| 0 <= k < words.deep_view().len() ==> words.deep_view()[k].len() > 0,
{
    let n = text.unicode_len();
    let mut res: Vec<String> = Vec::new();
    let mut i: usize = 0;
    proof {
        assert(text@.skip(0) =~= text@);
        assert(res.deep_view() + words_of(text@) =~= words_of(text@));
    }
    while i < n
        invariant
            n == text@.len(),
            0 <= i <= n,
            words_of(text@) == res.deep_view() + words_of(text@.skip(i as int)),
            forall|k: int| 0 <= k < res.deep_view().len() ==> res.deep_view()[k].len() > 0,
        decreases n - i,
    {
        let c = text.get_char(i);
        if ascii::is_space(c) {
            proof {
                assert(text@.skip(i as int)[0] == text@[i as int]);
                assert(text@.skip(i as int).skip(1) =~= text@.skip(i + 1));
            }
            i = i + 1;
        } else {
            let mut j = i + 1;
            while j < n && !ascii::is_space(text.get_char(j))
                invariant
                    n == text@.len(),
                    i < j <= n,
                    forall|k: int| i <= k < j ==> !is_space_char(text@[k]),
                decreases n - j,
            {
                j = j + 1;
            }
            let word = text.substring_char(i, j);
            let ghost rest = text@.skip(i as int);
            proof {
                assert forall|k: int| 0 <= k < j - i implies !is_space_char(rest[k]) by {
                    assert(rest[k] == text@[i + k]);
                }
                if j < n {
                    assert(rest[j - i] == text@[j as int]);
                }
                lemma_first_word_take(rest, j - i);
                assert(rest.take(j - i) =~= text@.subrange(i as int, j as int));
                assert(rest.skip(j - i) =~= text@.skip(j as int));
                assert(first_word(rest).len() == j - i >= 1);
            }
            let ghost old_dv = res.deep_view();
            res.push(String::from_str(word));
            proof {
                assert(res.deep_view() =~= old_dv.push(word@));
                assert(word@.len() == j - i);
                assert(words_of(text@) =~= res.deep_view() + words_of(text@.skip(j as int)));
            }
            i = j;
        }
    }
    proof {
        assert(text@.skip(n as int) =~= Seq::<char>::empty());
        assert(res.deep_view() + Seq::<Seq<char>>::empty() =~= res.deep_view());
    }
    res
}

/// Joins the words with single spaces: whitespace runs collapse to one
/// space and outer whitespace disappears.
pub fn normalize_whitespace(text: &str) -> (result: String)
    ensures
        result@ == join_space(words_of(text@)),
{
    let words = split_whitespace_words(text);
    let mut out = String::new();
    let mut k: usize = 0;
    while k < words.len()
        invariant
            0 <= k <= words.len(),
            out@ == join_space(words.deep_view().take(k as int)),
        decreases words.len() - k,
    {
        if k > 0 {
            ascii::push_char(&mut out, ' ');
        }
        out.append(words[k].as_str());
        proof {
            let ws = words.deep_view();
            lemma_join_space_push(ws.take(k as int), ws[k as int]);
            assert(ws.take(k as int).push(ws[k as int]) =~= ws.take(k + 1));
            if k > 0 {
                assert(out@ =~= join_space(ws.take(k + 1)));
            } else {
                assert(out@ =~= join_space(ws.take(k + 1)));
            }
        }
        k = k + 1;
    }
    proof {
        assert(words.deep_view().take(words.deep_view().len() as int) =~= words.deep_view());
    }
    out
}

/// The words of the text in reverse order, joined with single spaces.
pub fn reverse_words(text: &str) -> (result: String)
    ensures
        result@ == join_space(words_of(text@).reverse()),
{
    let words = split_whitespace_words(text);
    let m = words.len();
    let mut out = String::new();
    let mut k: usize = 0;
    while k < m
        invariant
            m == words.deep_view().len(),
            0 <= k <= m,
            out@ == join_space(words.deep_view().reverse().take(k as int)),
        decreases m - k,
    {
        if k > 0 {
            ascii::push_char(&mut out, ' ');
        }
        out.append(words[m - 1 - k].as_str());
        proof {
            let ws = words.deep_view().reverse();
            assert(ws[k as int] == words.deep_view()[m - 1 - k]);
            lemma_join_space_push(ws.take(k as int), ws[k as int]);
            assert(ws.take(k as int).push(ws[k as int]) =~= ws.take(k + 1));
            assert(out@ =~= join_space(ws.take(k + 1)));
        }
        k = k + 1;
    }
    proof {
        let ws = words.deep_view().reverse();
        assert(ws.take(ws.len() as int) =~= ws);
    }
    out
}

/// A word with its first character uppercased (ASCII).
pub open spec fn upper_first(w: Seq<char>) -> Seq<char> {
    if w.len() == 0 {
        w
    } else {
        seq![ascii_upper_char_spec(w[0])] + w.skip(1)
    }
}

/// Every word uppercased at its first character.
pub open spec fn capitalized_words(ws: Seq<Seq<char>>) -> Seq<Seq<char>> {
    Seq::new(ws.len(), |i: int| upper_first(ws[i]))
}

/// Starts every whitespace-separated word with an uppercase letter; the
/// words are joined with single spaces.
pub fn capitalize_words(text: &str) -> (result: String)
    ensures
        result@ == join_space(capitalized_words(words_of(text@))),
{
    let words = split_whitespace_words(text);
    let mut out = String::new();
    let mut k: usize = 0;
    while k < words.len()
        invariant
            0 <= k <= words.len(),
            forall|j: int| 0 <= j < words.deep_view().len() ==> words.deep_view()[j].len() > 0,
            out@ == join_space(capitalized_words(words.deep_view()).take(k as int)),
        decreases words.len() - k,
    {
        if k > 0 {
            ascii::push_char(&mut out, ' ');
        }
        let w = words[k].as_str();
        proof {
            assert(w@ == words.deep_view()[k as int]);
        }
        let wn = w.unicode_len();
        let first = w.get_char(0);
        ascii::push_char(&mut out, ascii::ascii_upper_char(first));
        out.append(w.substring_char(1, wn));
        proof {
            let cws = capitalized_words(words.deep_view());
            assert(w@.subrange(1, w@.len() as int) =~= w@.skip(1));
            assert(cws[k as int] == upper_first(w@));
            lemma_join_space_push(cws.take(k as int), cws[k as int]);
            assert(cws.take(k as int).push(cws[k as int]) =~= cws.take(k + 1));
            assert(out@ =~= join_space(cws.take(k + 1)));
        }
        k = k + 1;
    }
    proof {
        let cws = capitalized_words(words.deep_view());
        assert(cws.take(cws.len() as int) =~= cws);
    }
    out
}

/// Title case: the same word capitalization as `capitalize_words`.
pub fn to_title_case(text: &str) -> (result: String)
    ensures
        result@ == join_space(capitalized_words(words_of(text@))),
{
    capitalize_words(text)
}

// ------------------------------------------------------------------
// Number extraction
// ------------------------------------------------------------------
/// The longest prefix of `s` made of ASCII decimal digits.
pub open spec fn first_digit_run(s: Seq<char>) -> Seq<char>
    decreases s.len(),
{
    if s.len() == 0 || !is_digit_char(s[0]) {
        Seq::empty()
    } else {
        seq![s[0]] + first_digit_run(s.skip(1))
    }
}

pub proof fn lemma_first_digit_run_le(s: Seq<char>)
    ensures
        first_digit_run(s).len() <= s.len(),
    decreases s.len(),
{
    if s.len() > 0 && is_digit_char(s[0]) {
        lemma_first_digit_run_le(s.skip(1));
    }
}

/// The maximal runs of ASCII decimal digits in `s`, in order.
pub open spec fn digit_runs_of(s: Seq<char>) -> Seq<Seq<char>>
    decreases s.len(),
    via digit_runs_of_decreases
{
    if s.len() == 0 {
        Seq::empty()
    } else if !is_digit_char(s[0]) {
        digit_runs_of(s.skip(1))
    } else {
        seq![first_digit_run(s)] + digit_runs_of(s.skip(first_digit_run(s).len() as int))
    }
}

#[via_fn]
proof fn digit_runs_of_decreases(s: Seq<char>) {
    if s.len() > 0 && is_digit_char(s[0]) {
        lemma_first_digit_run_le(s);
        assert(first_digit_run(s).len() >= 1);
    }
}

/// `first_digit_run` is the prefix that runs up to the first non-digit,
/// or to the end when there is none.
proof fn lemma_first_digit_run_take(s: Seq<char>, j: int)
    requires
        0 <= j <= s.len(),
        forall|k: int| 0 <= k < j ==> is_digit_char(s[k]),
        j == s.len() || !is_digit_char(s[j]),
    ensures
        first_digit_run(s) == s.take(j),
    decreases j,
{
    if j == 0 {
        assert(first_digit_run(s) =~= s.take(0));
    } else {
        assert(is_digit_char(s[0]));
        lemma_first_digit_run_take(s.skip(1), j - 1);
        assert(s.skip(1).take(j - 1) =~= s.subrange(1, j));
        assert(first_digit_run(s) =~= s.take(j));
    }
}

/// Extracts the maximal runs of ASCII decimal digits of the text, in
/// order.
pub fn extract_numbers(text: &str) -> (numbers: Vec<String>)
    ensures
        numbers.deep_view() == digit_runs_of(text@),
{
    let n = text.unicode_len();
    let mut res: Vec<String> = Vec::new();
    let mut i: usize = 0;
    proof {
        assert(text@.skip(0) =~= text@);
        assert(res.deep_view() + digit_runs_of(text@) =~= digit_runs_of(text@));
    }
    while i < n
        invariant
            n == text@.len(),
            0 <= i <= n,
            digit_runs_of(text@) == res.deep_view() + digit_runs_of(text@.skip(i as int)),
        decreases n - i,
    {
        let c = text.get_char(i);
        if !ascii::is_digit(c) {
            proof {
                assert(text@.skip(i as int)[0] == text@[i as int]);
                assert(text@.skip(i as int).skip(1) =~= text@.skip(i + 1));
            }
            i = i + 1;
        } else {
            let mut j = i + 1;
            while j < n && ascii::is_digit(text.get_char(j))
                invariant
                    n == text@.len(),
                    i < j <= n,
                    forall|k: int| i <= k < j ==> is_digit_char(text@[k]),
                decreases n - j,
            {
                j = j + 1;
            }
            let run = text.substring_char(i, j);
            let ghost rest = text@.skip(i as int);
            proof {
                assert forall|k: int| 0 <= k < j - i implies is_digit_char(rest[k]) by {
                    assert(rest[k] == text@[i + k]);
                }
                if j < n {
                    assert(rest[j - i] == text@[j as int]);
                }
                lemma_first_digit_run_take(rest, j - i);
                assert(rest.take(j - i) =~= text@.subrange(i as int, j as int));
                assert(rest.skip(j - i) =~= text@.skip(j as int));
                assert(first_digit_run(rest).len() == j - i >= 1);
            }
            let ghost old_dv = res.deep_view();
            res.push(String::from_str(run));
            proof {
                assert(res.deep_view() =~= old_dv.push(run@));
                assert(digit_runs_of(text@) =~= res.deep_view() + digit_runs_of(
                    text@.skip(j as int),
                ));
            }
            i = j;
        }
    }
    proof {
        assert(text@.skip(n as int) =~= Seq::<char>::empty());
        assert(res.deep_view() + Seq::<Seq<char>>::empty() =~= res.deep_view());
    }
    res
}

// ------------------------------------------------------------------
// Camel, Pascal, snake, kebab, screaming snake
// ------------------------------------------------------------------
/// A word-boundary separator for camel and Pascal case: whitespace,
/// underscore or hyphen.
pub open spec fn is_sep_char(c: char) -> bool {
    is_space_char(c) || c == '_' || c == '-'
}

/// Camel-style recasing: separators are dropped; a character right after
/// a separator is uppercased (ASCII), every other one lowercased; `cap`
/// says whether the next character starts a word.
pub open spec fn camelish(s: Seq<char>, cap: bool) -> Seq<char>
    decreases s.len(),
{
    if s.len() == 0 {
        Seq::empty()
    } else if is_sep_char(s[0]) {
        camelish(s.skip(1), true)
    } else {
        seq![
            if cap {
                ascii_upper_char_spec(s[0])
            } else {
                ascii_lower_char_spec(s[0])
            },
        ] + camelish(s.skip(1), false)
    }
}

fn camelish_exec(text: &str, initial_cap: bool) -> (result: String)
    ensures
        result@ == camelish(text@, initial_cap),
{
    let n = text.unicode_len();
    let mut out = String::new();
    let mut i: usize = 0;
    let mut cap = initial_cap;
    proof {
        assert(text@.skip(0) =~= text@);
        assert(out@ + camelish(text@, initial_cap) =~= camelish(text@, initial_cap));
    }
    while i < n
        invariant
            n == text@.len(),
            0 <= i <= n,
            camelish(text@, initial_cap) == out@ + camelish(text@.skip(i as int), cap),
        decreases n - i,
    {
        let c = text.get_char(i);
        proof {
            assert(text@.skip(i as int)[0] == text@[i as int]);
            assert(text@.skip(i as int).skip(1) =~= text@.skip(i + 1));
        }
        if ascii::is_space(c) || c == '_' || c == '-' {
            cap = true;
        } else {
            if cap {
                ascii::push_char(&mut out, ascii::ascii_upper_char(c));
                cap = false;
            } else {
                ascii::push_char(&mut out, ascii::ascii_lower_char(c));
            }
        }
        i = i + 1;
    }
    proof {
        assert(text@.skip(n as int) =~= Seq::<char>::empty());
        assert(out@ + Seq::<char>::empty() =~= out@);
    }
    out
}

/// camelCase: word boundaries are whitespace, `_` and `-`; the first word
/// starts lowercase, later words start uppercase.
pub fn to_camel_case(text: &str) -> (result: String)
    ensures
        result@ == camelish(text@, false),
{
    camelish_exec(text, false)
}

/// PascalCase: as camelCase, with the first word capitalized too.
pub fn to_pascal_case(text: &str) -> (result: String)
    ensures
        result@ == camelish(text@, true),
{
    camelish_exec(text, true)
}

/// One step of the snake/kebab recasing on accumulated output `acc`:
/// before an uppercase letter, a whitespace character or the foreign
/// separator, `sep` is inserted unless the output already ends with it;
/// whitespace and the foreign separator are dropped, everything else is
/// lowercased (ASCII).  `drop` is the separator of the other style.
pub open spec fn separator_step(acc: Seq<char>, c: char, first: bool, sep: char, drop: char) -> Seq<
    char,
> {
    let acc1 = if !first && (is_ascii_upper_char(c) || is_space_char(c) || c == drop) && !(
    acc.len() > 0 && acc.last() == sep) {
        acc.push(sep)
    } else {
        acc
    };
    if !is_space_char(c) && c != drop {
        acc1.push(ascii_lower_char_spec(c))
    } else {
        acc1
    }
}

/// The snake/kebab recasing of `s` from position `i` on, starting from
/// output `acc`.
pub open spec fn separator_case(s: Seq<char>, i: int, acc: Seq<char>, sep: char, drop: char) -> Seq<
    char,
>
    decreases s.len() - i,
{
    if i < 0 || i >= s.len() {
        acc
    } else {
        separator_case(s, i + 1, separator_step(acc, s[i], i == 0, sep, drop), sep, drop)
    }
}

fn separator_case_exec(text: &str, sep: char, drop: char) -> (result: String)
    ensures
        result@ == separator_case(text@, 0, Seq::empty(), sep, drop),
{
    let n = text.unicode_len();
    let mut out = String::new();
    let mut last: Option<char> = None;
    let mut i: usize = 0;
    while i < n
        invariant
            n == text@.len(),
            0 <= i <= n,
            separator_case(text@, 0, Seq::empty(), sep, drop) == separator_case(
                text@,
                i as int,
                out@,
                sep,
                drop,
            ),
            out@.len() == 0 <==> last is None,
            out@.len() > 0 ==> last == Some(out@.last()),
        decreases n - i,
    {
        let c = text.get_char(i);
        let ghost acc0 = out@;
        let is_up = {
            let u = c as u32;
            0x41 <= u && u <= 0x5a
        };
        let is_sp = ascii::is_space(c);
        if i > 0 && (is_up || is_sp || c == drop) {
            let ends_with_sep = match last {
                Some(l) => l == sep,
                None => false,
            };
            if !ends_with_sep {
                ascii::push_char(&mut out, sep);
                last = Some(sep);
            }
        }
        if !is_sp && c != drop {
            let lc = ascii::ascii_lower_char(c);
            ascii::push_char(&mut out, lc);
            last = Some(lc);
        }
        proof {
            assert(out@ == separator_step(acc0, text@[i as int], i == 0, sep, drop));
        }
        i = i + 1;
    }
    out
}

/// snake_case: lowercase with `_` at word boundaries; an uppercase letter,
/// whitespace or `-` opens a boundary, repeated boundaries collapse.
/// Underscores already in the input pass through unchanged, so an input
/// with doubled underscores keeps them.
pub fn to_snake_case(text: &str) -> (result: String)
    ensures
        result@ == separator_case(text@, 0, Seq::empty(), '_', '-'),
{
    separator_case_exec(text, '_', '-')
}

/// kebab-case: lowercase with `-` at word boundaries; an uppercase letter,
/// whitespace or `_` opens a boundary, repeated boundaries collapse.
/// Hyphens already in the input pass through unchanged.
pub fn to_kebab_case(text: &str) -> (result: String)
    ensures
        result@ == separator_case(text@, 0, Seq::empty(), '-', '_'),
{
    separator_case_exec(text, '-', '_')
}

/// ASCII uppercasing of every character.
pub open spec fn upper_ascii_seq(s: Seq<char>) -> Seq<char> {
    Seq::new(s.len(), |i: int| ascii_upper_char_spec(s[i]))
}

/// SCREAMING_SNAKE_CASE: the snake-case text uppercased (ASCII).
pub fn to_screaming_snake_case(text: &str) -> (result: String)
    ensures
        result@ == upper_ascii_seq(separator_case(text@, 0, Seq::empty(), '_', '-')),
{
    let snake = to_snake_case(text);
    let s = snake.as_str();
    let n = s.unicode_len();
    let mut out = String::new();
    let mut i: usize = 0;
    while i < n
        invariant
            n == s@.len(),
            0 <= i <= n,
            out@.len() == i,
            forall|j: int| 0 <= j < i ==> out@[j] == ascii_upper_char_spec(s@[j]),
        decreases n - i,
    {
        let c = s.get_char(i);
        ascii::push_char(&mut out, ascii::ascii_upper_char(c));
        i = i + 1;
    }
    proof {
        assert(out@ =~= upper_ascii_seq(s@));
    }
    out
}

} // verus!
