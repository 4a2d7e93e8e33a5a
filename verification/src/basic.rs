//! Basic string shaping: splitting, joining, case mapping and trimming.

use vstd::prelude::*;
use vstd::string::StrSliceExecFns;
use vstd::string::StringExecFns;

use crate::ascii;
use crate::ascii::is_space_char;
use crate::unicode;
use crate::unicode::{lower_of, upper_of};

verus! {

// ------------------------------------------------------------------
// Splitting at a delimiter
// ------------------------------------------------------------------
/// The delimiter `d` occurs in `s` at position `p`.
pub open spec fn delim_at(s: Seq<char>, d: Seq<char>, p: int) -> bool {
    0 <= p && p + d.len() <= s.len() && s.subrange(p, p + d.len()) == d
}

/// The position of the first occurrence of `d` in `s`, if any.
pub open spec fn first_delim(s: Seq<char>, d: Seq<char>) -> Option<int>
    decreases s.len(),
    when d.len() > 0
{
    if s.len() < d.len() {
        None
    } else if s.take(d.len() as int) == d {
        Some(0)
    } else {
        match first_delim(s.skip(1), d) {
            Some(k) => Some(k + 1),
            None => None,
        }
    }
}

proof fn lemma_first_delim_bounds(s: Seq<char>, d: Seq<char>)
    requires
        d.len() > 0,
    ensures
        first_delim(s, d) matches Some(k) ==> 0 <= k && k + d.len() <= s.len(),
    decreases s.len(),
{
    if s.len() >= d.len() && s.take(d.len() as int) != d {
        lemma_first_delim_bounds(s.skip(1), d);
    }
}

/// `first_delim` is the least position where the delimiter matches.
proof fn lemma_first_delim_found(s: Seq<char>, d: Seq<char>, q: int)
    requires
        d.len() > 0,
        delim_at(s, d, q),
        forall|p: int| 0 <= p < q ==> !delim_at(s, d, p),
    ensures
        first_delim(s, d) == Some(q),
    decreases s.len(),
{
    if q == 0 {
        assert(s.take(d.len() as int) =~= s.subrange(0, d.len() as int));
    } else {
        assert(!delim_at(s, d, 0));
        assert(s.take(d.len() as int) =~= s.subrange(0, d.len() as int));
        assert(s.take(d.len() as int) != d);
        let t = s.skip(1);
        assert(t.subrange(q - 1, q - 1 + d.len()) =~= s.subrange(q, q + d.len()));
        assert forall|p: int| 0 <= p < q - 1 implies !delim_at(t, d, p) by {
            assert(t.subrange(p, p + d.len()) =~= s.subrange(p + 1, p + 1 + d.len()));
            assert(!delim_at(s, d, p + 1));
        }
        lemma_first_delim_found(t, d, q - 1);
    }
}

/// When the delimiter occurs nowhere, `first_delim` is `None`.
proof fn lemma_first_delim_none(s: Seq<char>, d: Seq<char>)
    requires
        d.len() > 0,
        forall|p: int| 0 <= p ==> !delim_at(s, d, p),
    ensures
        first_delim(s, d) is None,
    decreases s.len(),
{
    if s.len() >= d.len() {
        assert(s.take(d.len() as int) =~= s.subrange(0, d.len() as int));
        assert(!delim_at(s, d, 0));
        let t = s.skip(1);
        assert forall|p: int| 0 <= p implies !delim_at(t, d, p) by {
            if p + d.len() <= t.len() {
                assert(t.subrange(p, p + d.len()) =~= s.subrange(p + 1, p + 1 + d.len()));
                assert(!delim_at(s, d, p + 1));
            }
        }
        lemma_first_delim_none(t, d);
    }
}

/// The segments of `s` around the non-overlapping occurrences of `d`,
/// found left to right; without any occurrence the whole of `s`.
pub open spec fn split_by(s: Seq<char>, d: Seq<char>) -> Seq<Seq<char>>
    decreases s.len(),
    when d.len() > 0
    via split_by_decreases
{
    match first_delim(s, d) {
        None => seq![s],
        Some(k) => seq![s.take(k)] + split_by(s.skip(k + d.len()), d),
    }
}

#[via_fn]
proof fn split_by_decreases(s: Seq<char>, d: Seq<char>) {
    lemma_first_delim_bounds(s, d);
}

/// Splits the text at each occurrence of the delimiter.
pub fn split_text(text: &str, delimiter: &str) -> (result: Vec<String>)
    requires
        delimiter@.len() > 0,
    ensures
        result.deep_view() == split_by(text@, delimiter@),
{
    let n = text.unicode_len();
    let m = delimiter.unicode_len();
    let mut res: Vec<String> = Vec::new();
    let mut start: usize = 0;
    let mut k: usize = 0;
    proof {
        assert(text@.skip(0) =~= text@);
        assert(res.deep_view() + split_by(text@, delimiter@) =~= split_by(text@, delimiter@));
    }
    while k < n
        invariant
            n == text@.len(),
            m == delimiter@.len(),
            m > 0,
            0 <= start <= k <= n,
            split_by(text@, delimiter@) == res.deep_view() + split_by(
                text@.skip(start as int),
                delimiter@,
            ),
            forall|p: int| start <= p < k ==> !delim_at(text@, delimiter@, p),
        decreases n - k,
    {
        let mut matches = m <= n && k <= n - m;
        if matches {
            let mut t: usize = 0;
            while t < m && matches
                invariant
                    n == text@.len(),
                    m == delimiter@.len(),
                    k + m <= n,
                    0 <= t <= m,
                    matches ==> forall|q: int| 0 <= q < t ==> text@[k + q] == delimiter@[q],
                    !matches ==> exists|q: int| 0 <= q < t && text@[k + q] != delimiter@[q],
                decreases m - t,
            {
                if text.get_char(k + t) != delimiter.get_char(t) {
                    matches = false;
                }
                t = t + 1;
            }
        }
        proof {
            if matches {
                assert(text@.subrange(k as int, k + m) =~= delimiter@);
                assert(delim_at(text@, delimiter@, k as int));
            } else {
                if k + m <= n {
                    assert(text@.subrange(k as int, k + m) != delimiter@) by {
                        let q = choose|q: int|
                            0 <= q < m && text@[k + q] != delimiter@[q];
                        assert(text@.subrange(k as int, k + m)[q] != delimiter@[q]);
                    }
                }
                assert(!delim_at(text@, delimiter@, k as int));
            }
        }
        if matches {
            let part = text.substring_char(start, k);
            let ghost rest = text@.skip(start as int);
            proof {
                assert(rest.subrange(k - start, k - start + m) =~= text@.subrange(
                    k as int,
                    k + m,
                ));
                assert(delim_at(rest, delimiter@, k - start));
                assert forall|p: int| 0 <= p < k - start implies !delim_at(rest, delimiter@, p) by {
                    assert(rest.subrange(p, p + m) =~= text@.subrange(start + p, start + p + m));
                    assert(!delim_at(text@, delimiter@, start + p));
                }
                lemma_first_delim_found(rest, delimiter@, k - start);
                assert(rest.take(k - start) =~= text@.subrange(start as int, k as int));
                assert(rest.skip(k - start + m) =~= text@.skip(k + m));
            }
            let ghost old_dv = res.deep_view();
            res.push(String::from_str(part));
            proof {
                assert(res.deep_view() =~= old_dv.push(part@));
                assert(split_by(text@, delimiter@) =~= res.deep_view() + split_by(
                    text@.skip(k + m),
                    delimiter@,
                ));
            }
            start = k + m;
            k = k + m;
        } else {
            k = k + 1;
        }
    }
    let tail = text.substring_char(start, n);
    let ghost rest = text@.skip(start as int);
    proof {
        assert forall|p: int| 0 <= p implies !delim_at(rest, delimiter@, p) by {
            if p + m <= rest.len() {
                assert(rest.subrange(p, p + m) =~= text@.subrange(start + p, start + p + m));
                assert(start + p + m <= n);
                assert(!delim_at(text@, delimiter@, start + p));
            }
        }
        lemma_first_delim_none(rest, delimiter@);
        assert(rest.take(rest.len() as int) =~= rest);
        assert(rest =~= text@.subrange(start as int, n as int));
    }
    let ghost old_dv = res.deep_view();
    res.push(String::from_str(tail));
    proof {
        assert(res.deep_view() =~= old_dv.push(tail@));
        assert(split_by(rest, delimiter@) =~= seq![rest]);
        assert(split_by(text@, delimiter@) =~= res.deep_view());
    }
    res
}

// ------------------------------------------------------------------
// Joining with a delimiter
// ------------------------------------------------------------------
/// The parts concatenated with the delimiter between neighbours.
pub open spec fn join_by(parts: Seq<Seq<char>>, d: Seq<char>) -> Seq<char>
    decreases parts.len(),
{
    if parts.len() == 0 {
        Seq::empty()
    } else if parts.len() == 1 {
        parts[0]
    } else {
        parts[0] + d + join_by(parts.skip(1), d)
    }
}

proof fn lemma_join_by_push(parts: Seq<Seq<char>>, d: Seq<char>, w: Seq<char>)
    ensures
        parts.len() == 0 ==> join_by(parts.push(w), d) == w,
        parts.len() > 0 ==> join_by(parts.push(w), d) == join_by(parts, d) + d + w,
    decreases parts.len(),
{
    if parts.len() == 0 {
        assert(parts.push(w)[0] == w);
        assert(join_by(parts.push(w), d) == w);
    } else if parts.len() == 1 {
        assert(parts.push(w).skip(1) =~= seq![w]);
        assert(join_by(seq![w], d) == w);
        assert(join_by(parts.push(w), d) =~= parts[0] + d + w);
    } else {
        lemma_join_by_push(parts.skip(1), d, w);
        assert(parts.push(w).skip(1) =~= parts.skip(1).push(w));
        assert(join_by(parts.push(w), d) =~= join_by(parts, d) + d + w);
    }
}

/// Joins the parts into one string with the delimiter between them.
pub fn join_text(parts: Vec<&str>, delimiter: &str) -> (result: String)
    ensures
        result@ == join_by(parts.deep_view(), delimiter@),
{
    let mut out = String::new();
    let mut k: usize = 0;
    while k < parts.len()
        invariant
            0 <= k <= parts.len(),
            out@ == join_by(parts.deep_view().take(k as int), delimiter@),
        decreases parts.len() - k,
    {
        if k > 0 {
            out.append(delimiter);
        }
        out.append(parts[k]);
        proof {
            let ps = parts.deep_view();
            lemma_join_by_push(ps.take(k as int), delimiter@, ps[k as int]);
            assert(ps.take(k as int).push(ps[k as int]) =~= ps.take(k + 1));
            assert(out@ =~= join_by(ps.take(k + 1), delimiter@));
        }
        k = k + 1;
    }
    proof {
        assert(parts.deep_view().take(parts.deep_view().len() as int) =~= parts.deep_view());
    }
    out
}

// ------------------------------------------------------------------
// Case mapping and trimming
// ------------------------------------------------------------------
/// Uppercases the text with the full Unicode mapping of `std`.
pub fn to_uppercase(text: &str) -> (result: String)
    ensures
        result@ == upper_of(text@),
{
    unicode::str_to_uppercase(text)
}

/// Lowercases the text with the full Unicode mapping of `std`.
pub fn to_lowercase(text: &str) -> (result: String)
    ensures
        result@ == lower_of(text@),
{
    unicode::str_to_lowercase(text)
}

/// `s` without its leading whitespace characters.
pub open spec fn trim_front(s: Seq<char>) -> Seq<char>
    decreases s.len(),
{
    if s.len() > 0 && is_space_char(s[0]) {
        trim_front(s.skip(1))
    } else {
        s
    }
}

/// `s` without its trailing whitespace characters.
pub open spec fn trim_back(s: Seq<char>) -> Seq<char>
    decreases s.len(),
{
    if s.len() > 0 && is_space_char(s.last()) {
        trim_back(s.drop_last())
    } else {
        s
    }
}

/// `s` without leading and trailing whitespace.
pub open spec fn trimmed(s: Seq<char>) -> Seq<char> {
    trim_back(trim_front(s))
}

proof fn lemma_trim_front_skip(s: Seq<char>, a: int)
    requires
        0 <= a <= s.len(),
        forall|k: int| 0 <= k < a ==> is_space_char(s[k]),
        a == s.len() || !is_space_char(s[a]),
    ensures
        trim_front(s) == s.skip(a),
    decreases a,
{
    if a == 0 {
        assert(s.skip(0) =~= s);
    } else {
        assert(is_space_char(s[0]));
        lemma_trim_front_skip(s.skip(1), a - 1);
        assert(s.skip(1).skip(a - 1) =~= s.skip(a));
    }
}

proof fn lemma_trim_back_take(s: Seq<char>, b: int)
    requires
        0 <= b <= s.len(),
        forall|k: int| b <= k < s.len() ==> is_space_char(s[k]),
        b == 0 || !is_space_char(s[b - 1]),
    ensures
        trim_back(s) == s.take(b),
    decreases s.len() - b,
{
    if b == s.len() {
        assert(s.take(b) =~= s);
    } else {
        assert(is_space_char(s.last()));
        lemma_trim_back_take(s.drop_last(), b);
        assert(s.drop_last().take(b) =~= s.take(b));
    }
}

/// Removes leading and trailing whitespace.
pub fn trim_whitespace(text: &str) -> (result: String)
    ensures
        result@ == trimmed(text@),
{
    let n = text.unicode_len();
    let mut a: usize = 0;
    while a < n && ascii::is_space(text.get_char(a))
        invariant
            n == text@.len(),
            0 <= a <= n,
            forall|k: int| 0 <= k < a ==> is_space_char(text@[k]),
        decreases n - a,
    {
        a = a + 1;
    }
    let mut b: usize = n;
    while b > a && ascii::is_space(text.get_char(b - 1))
        invariant
            n == text@.len(),
            a <= b <= n,
            forall|k: int| b <= k < n ==> is_space_char(text@[k]),
            a == n || !is_space_char(text@[a as int]),
        decreases b,
    {
        b = b - 1;
    }
    let part = text.substring_char(a, b);
    proof {
        lemma_trim_front_skip(text@, a as int);
        let rest = text@.skip(a as int);
        assert forall|k: int| b - a <= k < rest.len() implies is_space_char(rest[k]) by {
            assert(rest[k] == text@[a + k]);
        }
        if b > a {
            assert(rest[b - a - 1] == text@[b - 1]);
        }
        lemma_trim_back_take(rest, b - a);
        assert(rest.take(b - a) =~= text@.subrange(a as int, b as int));
    }
    String::from_str(part)
}

} // verus!