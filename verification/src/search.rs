//! Pattern search: five classical substring algorithms over bytes, a
//! multi-pattern Aho-Corasick automaton over characters, and regex
//! helpers.
//!
//! Offsets returned by the substring searches are byte offsets into the
//! UTF-8 encoding of the text.

use vstd::prelude::*;
use vstd::string::StringSliceAdditionalSpecFns;
use vstd::string::StrSliceExecFns;

verus! {

// ------------------------------------------------------------------
// First-occurrence specification
// ------------------------------------------------------------------
/// The pattern `p` occurs in `t` at byte offset `s`.
pub open spec fn is_match_at(t: Seq<u8>, p: Seq<u8>, s: int) -> bool {
    0 <= s && s + p.len() <= t.len() && t.subrange(s, s + p.len()) == p
}

/// `r` is the result a substring search owes: the offset of the first
/// occurrence, and `None` exactly when the pattern is empty or absent.
pub open spec fn found_first(t: Seq<u8>, p: Seq<u8>, r: Option<usize>) -> bool {
    match r {
        Some(s) => p.len() > 0 && is_match_at(t, p, s as int) && (forall|q: int|
            0 <= q < s ==> !is_match_at(t, p, q)),
        None => p.len() == 0 || (forall|q: int| !is_match_at(t, p, q)),
    }
}

/// Any two results meeting the search contract on the same input are
/// equal: all the searches of this module agree with one another.
pub proof fn lemma_search_agreement(t: Seq<u8>, p: Seq<u8>, r1: Option<usize>, r2: Option<usize>)
    requires
        found_first(t, p, r1),
        found_first(t, p, r2),
    ensures
        r1 == r2,
{
    match (r1, r2) {
        (Some(s1), Some(s2)) => {
            if s1 < s2 {
                assert(!is_match_at(t, p, s1 as int));
            } else if s2 < s1 {
                assert(!is_match_at(t, p, s2 as int));
            }
        },
        (Some(s1), None) => {
            assert(!is_match_at(t, p, s1 as int));
        },
        (None, Some(s2)) => {
            assert(!is_match_at(t, p, s2 as int));
        },
        (None, None) => {},
    }
}

// ------------------------------------------------------------------
// Boyer-Moore-Horspool
// ------------------------------------------------------------------
/// The last position before `i` where byte `c` stands in `p`, or `-1`.
pub open spec fn last_occ_before(p: Seq<u8>, c: u8, i: int) -> int
    decreases i,
{
    if i <= 0 {
        -1
    } else if p[i - 1] == c {
        i - 1
    } else {
        last_occ_before(p, c, i - 1)
    }
}

proof fn lemma_last_occ(p: Seq<u8>, c: u8, i: int)
    requires
        0 <= i <= p.len(),
    ensures
        -1 <= last_occ_before(p, c, i) < i,
        last_occ_before(p, c, i) >= 0 ==> p[last_occ_before(p, c, i)] == c,
        forall|j: int| last_occ_before(p, c, i) < j < i ==> p[j] != c,
    decreases i,
{
    if i > 0 {
        lemma_last_occ(p, c, i - 1);
    }
}

/// Finds the first occurrence with the Boyer-Moore-Horspool algorithm:
/// right-to-left comparison at each alignment and a shift table over the
/// last window byte.
pub fn boyer_moore_horspool_search(text: &str, pattern: &str) -> (result: Option<usize>)
    ensures
        found_first(text.spec_bytes(), pattern.spec_bytes(), result),
{
    let t = text.as_bytes();
    let p = pattern.as_bytes();
    let m = p.len();
    let n = t.len();
    if m == 0 || n == 0 || m > n {
        proof {
            if m != 0 {
                assert forall|q: int| !is_match_at(t@, p@, q) by {}
            }
        }
        return None;
    }
    let mut shift: Vec<usize> = Vec::new();
    let mut c: usize = 0;
    while c < 256
        invariant
            m == p@.len(),
            0 <= c <= 256,
            shift@.len() == c,
            forall|d: int| 0 <= d < c ==> shift@[d] == m,
        decreases 256 - c,
    {
        shift.push(m);
        c = c + 1;
    }
    let mut i: usize = 0;
    while i < m - 1
        invariant
            m == p@.len(),
            1 <= m,
            0 <= i <= m - 1,
            shift@.len() == 256,
            forall|d: int|
                0 <= d < 256 ==> #[trigger] shift@[d] as int == (if last_occ_before(
                    p@,
                    d as u8,
                    i as int,
                ) >= 0 {
                    m - 1 - last_occ_before(p@, d as u8, i as int)
                } else {
                    m as int
                }),
        decreases m - 1 - i,
    {
        let b = p[i];
        shift[b as usize] = m - 1 - i;
        i = i + 1;
    }
    proof {
        assert forall|d: int| 0 <= d < 256 implies 1 <= #[trigger] shift@[d] <= m by {
            lemma_last_occ(p@, d as u8, m - 1);
        }
    }
    let mut s: usize = 0;
    while s <= n - m
        invariant
            t@ == text.spec_bytes(),
            p@ == pattern.spec_bytes(),
            m == p@.len(),
            n == t@.len(),
            1 <= m <= n,
            0 <= s,
            shift@.len() == 256,
            forall|d: int|
                0 <= d < 256 ==> #[trigger] shift@[d] as int == (if last_occ_before(
                    p@,
                    d as u8,
                    (m - 1) as int,
                ) >= 0 {
                    m - 1 - last_occ_before(p@, d as u8, (m - 1) as int)
                } else {
                    m as int
                }),
            forall|d: int| 0 <= d < 256 ==> 1 <= #[trigger] shift@[d] <= m,
            forall|q: int| 0 <= q < s ==> !is_match_at(t@, p@, q),
        decreases n - s,
    {
        let mut j = m - 1;
        while j > 0 && p[j] == t[s + j]
            invariant
                m == p@.len(),
                n == t@.len(),
                s + m <= n,
                0 <= j <= m - 1,
                forall|k: int| j < k < m ==> p@[k] == t@[s + k],
            decreases j,
        {
            j = j - 1;
        }
        if j == 0 && p[0] == t[s] {
            proof {
                assert(t@.subrange(s as int, s + m) =~= p@);
            }
            return Some(s);
        }
        proof {
            assert(p@[j as int] != t@[s + j]);
            assert(!is_match_at(t@, p@, s as int)) by {
                if is_match_at(t@, p@, s as int) {
                    assert(t@.subrange(s as int, s + m)[j as int] == t@[s + j]);
                }
            }
        }
        let last_byte = t[s + m - 1];
        let shift_amt = shift[last_byte as usize];
        proof {
            let c = t@[s + m - 1];
            let l = last_occ_before(p@, c, (m - 1) as int);
            lemma_last_occ(p@, c, (m - 1) as int);
            assert forall|q: int| s < q < s + shift_amt implies !is_match_at(t@, p@, q) by {
                if is_match_at(t@, p@, q) {
                    let k = s + m - 1 - q;
                    assert(0 <= k < m);
                    assert(t@.subrange(q, q + m)[k] == t@[q + k]);
                    assert(p@[k] == c);
                    assert(k < m - 1);
                    assert(k <= l);
                    assert(shift_amt as int == m - 1 - l);
                    assert(q - s == m - 1 - k >= m - 1 - l);
                }
            }
        }
        s = s + shift_amt;
    }
    proof {
        assert forall|q: int| !is_match_at(t@, p@, q) by {
            if 0 <= q < s {
                assert(!is_match_at(t@, p@, q));
            }
        }
    }
    None
}

// ------------------------------------------------------------------
// Knuth-Morris-Pratt
// ------------------------------------------------------------------
/// `p[0 .. l]` is a proper border of `p[0 .. k]`: both a prefix and a
/// suffix of it, shorter than it.
pub open spec fn is_border(p: Seq<u8>, k: int, l: int) -> bool {
    0 <= l < k <= p.len() && p.subrange(0, l) == p.subrange(k - l, k)
}

/// A border of a border is a border of the whole prefix.
proof fn lemma_border_up(p: Seq<u8>, k: int, j: int, l: int)
    requires
        is_border(p, k, j),
        is_border(p, j, l),
    ensures
        is_border(p, k, l),
{
    assert forall|q: int| 0 <= q < l implies p.subrange(0, l)[q] == p.subrange(k - l, k)[q] by {
        let r = j - l + q;
        assert(p.subrange(0, l)[q] == p[q]);
        assert(p.subrange(j - l, j)[q] == p[r]);
        assert(p.subrange(0, l)[q] == p.subrange(j - l, j)[q]);
        assert(p.subrange(0, j)[r] == p[r]);
        assert(p.subrange(k - j, k)[r] == p[k - j + r]);
        assert(p.subrange(0, j)[r] == p.subrange(k - j, k)[r]);
        assert(p.subrange(k - l, k)[q] == p[k - l + q]);
        assert(k - l + q == k - j + r);
    }
    assert(p.subrange(0, l) =~= p.subrange(k - l, k));
}

/// A border shorter than another border is a border of that border.
proof fn lemma_border_down(p: Seq<u8>, k: int, j: int, l: int)
    requires
        is_border(p, k, j),
        is_border(p, k, l),
        l < j,
    ensures
        is_border(p, j, l),
{
    assert forall|q: int| 0 <= q < l implies p.subrange(0, l)[q] == p.subrange(j - l, j)[q] by {
        let r = j - l + q;
        assert(p.subrange(0, l)[q] == p[q]);
        assert(p.subrange(k - l, k)[q] == p[k - l + q]);
        assert(p.subrange(0, l)[q] == p.subrange(k - l, k)[q]);
        assert(p.subrange(0, j)[r] == p[r]);
        assert(p.subrange(k - j, k)[r] == p[k - j + r]);
        assert(p.subrange(0, j)[r] == p.subrange(k - j, k)[r]);
        assert(p.subrange(j - l, j)[q] == p[r]);
        assert(k - j + r == k - l + q);
    }
    assert(p.subrange(0, l) =~= p.subrange(j - l, j));
}

/// Extending a border of `p[0 .. k]` by one matching byte gives a border
/// of `p[0 .. k + 1]`, and conversely.
proof fn lemma_border_extend(p: Seq<u8>, k: int, l: int)
    requires
        0 <= l < k < p.len(),
    ensures
        (is_border(p, k, l) && p[l] == p[k]) <==> is_border(p, k + 1, l + 1),
{
    if is_border(p, k, l) && p[l] == p[k] {
        assert forall|q: int| 0 <= q < l + 1 implies #[trigger] p.subrange(0, l + 1)[q]
            == p.subrange(k - l, k + 1)[q] by {
            if q < l {
                assert(p.subrange(0, l)[q] == p.subrange(k - l, k)[q]);
            }
        }
        assert(p.subrange(0, l + 1) =~= p.subrange(k - l, k + 1));
    }
    if is_border(p, k + 1, l + 1) {
        assert forall|q: int| 0 <= q < l implies p.subrange(0, l)[q] == p.subrange(k - l, k)[q] by {
            assert(p.subrange(0, l + 1)[q] == p.subrange(k - l, k + 1)[q]);
        }
        assert(p.subrange(0, l) =~= p.subrange(k - l, k));
        assert(p.subrange(0, l + 1)[l] == p.subrange(k - l, k + 1)[l]);
    }
}

/// The longest-proper-prefix-suffix table entry for each prefix: a
/// border, and no longer border exists.
pub open spec fn lps_entry_ok(p: Seq<u8>, idx: int, v: int) -> bool {
    &&& (v == 0 || is_border(p, idx + 1, v))
    &&& forall|l: int| v < l < idx + 1 ==> !#[trigger] is_border(p, idx + 1, l)
}

/// Finds the first occurrence with the Knuth-Morris-Pratt algorithm:
/// a longest-prefix-suffix table over the pattern, then one left-to-right
/// scan of the text.
pub fn kmp_search(text: &str, pattern: &str) -> (result: Option<usize>)
    ensures
        found_first(text.spec_bytes(), pattern.spec_bytes(), result),
{
    let t = text.as_bytes();
    let p = pattern.as_bytes();
    let m = p.len();
    let n = t.len();
    if m == 0 || n == 0 || m > n {
        proof {
            if m != 0 {
                assert forall|q: int| !is_match_at(t@, p@, q) by {}
            }
        }
        return None;
    }
    let mut lps: Vec<usize> = Vec::new();
    let mut c: usize = 0;
    while c < m
        invariant
            0 <= c <= m,
            lps@.len() == c,
            forall|d: int| 0 <= d < c ==> lps@[d] == 0,
        decreases m - c,
    {
        lps.push(0);
        c = c + 1;
    }
    proof {
        assert forall|l: int| 0 < l < 1 implies !#[trigger] is_border(p@, 1, l) by {}
        assert(lps_entry_ok(p@, 0, 0));
    }
    let mut i: usize = 1;
    let mut j: usize = 0;
    while i < m
        invariant
            m == p@.len(),
            1 <= m,
            lps@.len() == m,
            1 <= i <= m,
            0 <= j < i,
            forall|d: int| 0 <= d < i ==> lps_entry_ok(p@, d, #[trigger] lps@[d] as int),
            j == 0 || is_border(p@, i as int, j as int),
            forall|l: int|
                j < l < i ==> !(is_border(p@, i as int, l) && p@[l] == p@[i as int]),
        decreases m - i, j,
    {
        if p[i] == p[j] {
            proof {
                let jj = j as int;
                let ii = i as int;
                if jj == 0 {
                    assert(p@.subrange(0, 0) =~= p@.subrange(ii, ii));
                    assert(is_border(p@, ii, 0) || ii == 0);
                }
                lemma_border_extend(p@, ii, jj);
                assert(is_border(p@, ii + 1, jj + 1));
                assert forall|l: int| jj + 1 < l < ii + 1 + 1 implies !#[trigger] is_border(
                    p@,
                    ii + 1,
                    l,
                ) by {
                    if l < ii + 1 && is_border(p@, ii + 1, l) {
                        lemma_border_extend(p@, ii, l - 1);
                        assert(is_border(p@, ii, l - 1) && p@[l - 1] == p@[ii]);
                    }
                }
                assert(lps_entry_ok(p@, ii, jj + 1));
            }
            j = j + 1;
            lps[i] = j;
            proof {
                assert forall|l: int| 0 < l < 1 implies !#[trigger] is_border(p@, 1, l) by {}
            }
            i = i + 1;
        } else if j != 0 {
            let jn = lps[j - 1];
            proof {
                let jj = j as int;
                let ii = i as int;
                let jni = jn as int;
                assert(lps_entry_ok(p@, jj - 1, jni));
                if jni > 0 {
                    assert(is_border(p@, jj, jni));
                    lemma_border_up(p@, ii, jj, jni);
                }
                assert forall|l: int|
                    jni < l < ii implies !(is_border(p@, ii, l) && p@[l] == p@[ii]) by {
                    if l < jj && is_border(p@, ii, l) {
                        lemma_border_down(p@, ii, jj, l);
                        assert(!is_border(p@, jj, l));
                    }
                    if l == jj {
                        assert(p@[jj] != p@[ii]);
                    }
                }
            }
            j = jn;
        } else {
            proof {
                let ii = i as int;
                assert(lps_entry_ok(p@, ii, 0)) by {
                    assert forall|l: int| 0 < l < ii + 1 implies !#[trigger] is_border(p@, ii + 1, l) by {
                        if is_border(p@, ii + 1, l) {
                            lemma_border_extend(p@, ii, l - 1);
                            if l == 1 {
                                assert(p@[0] == p@[ii]);
                            } else {
                                assert(is_border(p@, ii, l - 1) && p@[l - 1] == p@[ii]);
                            }
                        }
                    }
                }
            }
            lps[i] = 0;
            i = i + 1;
        }
    }
    // scan
    let mut i: usize = 0;
    let mut j: usize = 0;
    while i < n
        invariant
            t@ == text.spec_bytes(),
            p@ == pattern.spec_bytes(),
            m == p@.len(),
            n == t@.len(),
            1 <= m <= n,
            lps@.len() == m,
            forall|d: int| 0 <= d < m ==> lps_entry_ok(p@, d, #[trigger] lps@[d] as int),
            0 <= j <= i <= n,
            j < m,
            p@.subrange(0, j as int) == t@.subrange(i - j, i as int),
            forall|q: int| 0 <= q < i - j ==> !is_match_at(t@, p@, q),
        decreases n - i, j,
    {
        let mut advanced = false;
        if p[j] == t[i] {
            proof {
                let jj = j as int;
                let ii = i as int;
                assert forall|q: int| 0 <= q < jj + 1 implies #[trigger] p@.subrange(
                    0,
                    jj + 1,
                )[q] == t@.subrange(ii + 1 - (jj + 1), ii + 1)[q] by {
                    if q < jj {
                        assert(p@.subrange(0, jj)[q] == t@.subrange(ii - jj, ii)[q]);
                    }
                }
                assert(p@.subrange(0, jj + 1) =~= t@.subrange(ii - jj, ii + 1));
            }
            i = i + 1;
            j = j + 1;
            advanced = true;
        }
        if j == m {
            proof {
                assert(t@.subrange(i - j, i as int) == p@.subrange(0, m as int));
                assert(p@.subrange(0, m as int) =~= p@);
                assert(is_match_at(t@, p@, i - j));
            }
            return Some(i - j);
        }
        if i < n && p[j] != t[i] {
            if j != 0 {
                let jn = lps[j - 1];
                proof {
                    let jj = j as int;
                    let ii = i as int;
                    let jni = jn as int;
                    assert(lps_entry_ok(p@, jj - 1, jni));
                    assert(jni < jj);
                    // the kept prefix still matches the text
                    if jni > 0 {
                        assert(is_border(p@, jj, jni));
                        assert forall|q: int| 0 <= q < jni implies p@.subrange(0, jni)[q]
                            == t@.subrange(ii - jni, ii)[q] by {
                            assert(p@.subrange(0, jni)[q] == p@.subrange(jj - jni, jj)[q]);
                            assert(p@.subrange(jj - jni, jj)[q] == p@[jj - jni + q]);
                            assert(p@.subrange(0, jj)[jj - jni + q] == t@.subrange(
                                ii - jj,
                                ii,
                            )[jj - jni + q]);
                            assert(t@.subrange(ii - jj, ii)[jj - jni + q] == t@[ii - jni + q]);
                            assert(t@.subrange(ii - jni, ii)[q] == t@[ii - jni + q]);
                        }
                        assert(p@.subrange(0, jni) =~= t@.subrange(ii - jni, ii));
                    } else {
                        assert(p@.subrange(0, 0) =~= t@.subrange(ii, ii));
                    }
                    // no occurrence starts in (ii - jj, ii - jni)
                    assert forall|q: int| ii - jj <= q < ii - jni implies !is_match_at(
                        t@,
                        p@,
                        q,
                    ) by {
                        if is_match_at(t@, p@, q) {
                            let l = ii - q;
                            // the occurrence text matches the pattern prefix of length l
                            assert forall|r: int| 0 <= r < l implies p@.subrange(0, l)[r]
                                == t@.subrange(q, ii)[r] by {
                                assert(t@.subrange(q, q + m)[r] == p@[r]);
                                assert(t@.subrange(q, q + m)[r] == t@[q + r]);
                                assert(t@.subrange(q, ii)[r] == t@[q + r]);
                                assert(p@.subrange(0, l)[r] == p@[r]);
                            }
                            assert(p@.subrange(0, l) =~= t@.subrange(q, ii));
                            if l == jj {
                                // a full occurrence here would need the mismatching byte
                                assert(t@.subrange(q, q + m)[jj] == p@[jj]);
                                assert(t@.subrange(q, q + m)[jj] == t@[q + jj]);
                                assert(q + jj == ii);
                            } else {
                                // p[0..l] is a border of p[0..jj]
                                assert(0 < l < jj);
                                assert forall|r: int| 0 <= r < l implies p@.subrange(0, l)[r]
                                    == p@.subrange(jj - l, jj)[r] by {
                                    assert(p@.subrange(0, l)[r] == t@.subrange(q, ii)[r]);
                                    assert(t@.subrange(q, ii)[r] == t@[q + r]);
                                    assert(t@.subrange(ii - jj, ii)[jj - l + r] == t@[q + r]);
                                    assert(p@.subrange(0, jj)[jj - l + r] == t@.subrange(
                                        ii - jj,
                                        ii,
                                    )[jj - l + r]);
                                    assert(p@.subrange(0, jj)[jj - l + r] == p@[jj - l + r]);
                                    assert(p@.subrange(jj - l, jj)[r] == p@[jj - l + r]);
                                }
                                assert(p@.subrange(0, l) =~= p@.subrange(jj - l, jj));
                                assert(is_border(p@, jj, l));
                                assert(lps_entry_ok(p@, jj - 1, jni));
                                assert(jni < l < (jj - 1) + 1);
                                assert(!is_border(p@, (jj - 1) + 1, l));
                                assert(!is_border(p@, jj, l));
                            }
                        }
                    }
                }
                j = jn;
            } else {
                proof {
                    let ii = i as int;
                    assert forall|q: int| 0 <= q < ii + 1 implies !is_match_at(t@, p@, q) by {
                        if q == ii && is_match_at(t@, p@, q) {
                            assert(t@.subrange(q, q + m)[0] == p@[0]);
                            assert(t@.subrange(q, q + m)[0] == t@[q]);
                        }
                    }
                    assert(p@.subrange(0, 0) =~= t@.subrange(ii + 1, ii + 1));
                }
                i = i + 1;
            }
        }
    }
    proof {
        assert forall|q: int| !is_match_at(t@, p@, q) by {
            if 0 <= q {
                if q < i - j {
                } else if is_match_at(t@, p@, q) {
                    assert(q + m <= n);
                    assert(i - j <= q);
                    assert(j < m);
                    assert(q < i - j + m);
                }
            }
        }
    }
    None
}

// ------------------------------------------------------------------
// Rabin-Karp
// ------------------------------------------------------------------
/// The polynomial value of a byte string with base 256, unreduced.
pub open spec fn rk_poly(s: Seq<u8>) -> int
    decreases s.len(),
{
    if s.len() == 0 {
        0
    } else {
        rk_poly(s.drop_last()) * 256 + s.last()
    }
}

/// The rolling hash: the polynomial value modulo the prime 101.
pub open spec fn rk_hash(s: Seq<u8>) -> int {
    rk_poly(s) % 101
}

/// Prepending a byte adds its value times the matching power of the
/// base.
proof fn lemma_rk_poly_prepend(c: u8, rest: Seq<u8>)
    ensures
        rk_poly(seq![c] + rest) == (c as int) * vstd::arithmetic::power::pow(256, rest.len())
            + rk_poly(rest),
    decreases rest.len(),
{
    reveal(vstd::arithmetic::power::pow);
    vstd::arithmetic::power::lemma_pow_positive(256, rest.len());
    if rest.len() == 0 {
        assert(seq![c] + rest =~= seq![c]);
        assert(rk_poly(seq![c].drop_last()) == 0) by {
            assert(seq![c].drop_last() =~= Seq::<u8>::empty());
        }
        assert(vstd::arithmetic::power::pow(256, 0) == 1);
    } else {
        lemma_rk_poly_prepend(c, rest.drop_last());
        assert((seq![c] + rest).drop_last() =~= seq![c] + rest.drop_last());
        assert((seq![c] + rest).last() == rest.last());
        let e = (rest.len() - 1) as nat;
        assert(vstd::arithmetic::power::pow(256, rest.len()) == 256
            * vstd::arithmetic::power::pow(256, e)) by {
            vstd::arithmetic::power::lemma_pow1(256);
            assert(vstd::arithmetic::power::pow(256, rest.len()) == 256
                * vstd::arithmetic::power::pow(256, (rest.len() - 1) as nat));
        }
        assert(rk_poly(seq![c] + rest) == ((c as int) * vstd::arithmetic::power::pow(256, e)
            + rk_poly(rest.drop_last())) * 256 + rest.last());
        assert(((c as int) * vstd::arithmetic::power::pow(256, e) + rk_poly(rest.drop_last()))
            * 256 == (c as int) * (256 * vstd::arithmetic::power::pow(256, e)) + rk_poly(
            rest.drop_last(),
        ) * 256) by (nonlinear_arith);
    }
}

/// One rolling step of the Rabin-Karp hash: dropping the window's first
/// byte and appending the next one yields the next window's hash.
proof fn lemma_rk_roll(t: Seq<u8>, s: int, m: int, th: int, h: int)
    requires
        0 <= s,
        1 <= m,
        s + 1 + m <= t.len(),
        th == rk_hash(t.subrange(s, s + m)),
        h == vstd::arithmetic::power::pow(256, (m - 1) as nat) % 101,
    ensures
        0 <= ((t[s] as int) * h) % 101 <= 100,
        (256 * (th + 101 - ((t[s] as int) * h) % 101) + t[s + m]) % 101 == rk_hash(
            t.subrange(s + 1, s + 1 + m),
        ),
{
    let w = t.subrange(s, s + m);
    let wn = t.subrange(s + 1, s + 1 + m);
    let c = t[s] as int;
    let b = t[s + m] as int;
    let pw = vstd::arithmetic::power::pow(256, (m - 1) as nat);
    vstd::arithmetic::power::lemma_pow_positive(256, (m - 1) as nat);
    assert(w =~= seq![t[s]] + w.skip(1));
    lemma_rk_poly_prepend(t[s], w.skip(1));
    assert(w.skip(1).len() == m - 1);
    assert(rk_poly(w) == c * pw + rk_poly(w.skip(1)));
    assert(wn.drop_last() =~= w.skip(1));
    assert(wn.last() == t[s + m]);
    assert(rk_poly(wn) == rk_poly(w.skip(1)) * 256 + b);
    let a = rk_poly(w);
    let d = rk_poly(w.skip(1));
    vstd::arithmetic::div_mod::lemma_mul_mod_noop_right(c, pw, 101);
    assert((c * h) % 101 == (c * pw) % 101);
    vstd::arithmetic::div_mod::lemma_sub_mod_noop(a, c * pw, 101);
    assert((a % 101 - (c * pw) % 101) % 101 == (a - c * pw) % 101);
    assert(a - c * pw == d);
    vstd::arithmetic::div_mod::lemma_mod_add_multiples_vanish(a % 101 - (c * pw) % 101, 101);
    assert((a % 101 + 101 - (c * pw) % 101) % 101 == d % 101);
    let x = a % 101 + 101 - (c * pw) % 101;
    vstd::arithmetic::div_mod::lemma_mul_mod_noop_left(x, 256, 101);
    vstd::arithmetic::div_mod::lemma_mul_mod_noop_left(d, 256, 101);
    assert((x * 256) % 101 == ((x % 101) * 256) % 101);
    assert(((d % 101) * 256) % 101 == (d * 256) % 101);
    assert((x % 101) == d % 101);
    assert((x * 256) % 101 == (d * 256) % 101);
    vstd::arithmetic::div_mod::lemma_add_mod_noop(x * 256, b, 101);
    vstd::arithmetic::div_mod::lemma_add_mod_noop(d * 256, b, 101);
    assert((x * 256 + b) % 101 == (d * 256 + b) % 101);
    assert(256 * x == x * 256) by (nonlinear_arith);
    assert((256 * x + b) % 101 == rk_hash(wn));
    vstd::arithmetic::div_mod::lemma_mod_bound(c * pw, 101);
    assert(th == a % 101);
    assert(256 * (th + 101 - ((t[s] as int) * h) % 101) + t[s + m] == 256 * x + b);
}

/// Finds the first occurrence with the Rabin-Karp algorithm: a rolling
/// hash filters the alignments and a byte comparison confirms them.
#[verifier::rlimit(60)]
pub fn rabin_karp_search(text: &str, pattern: &str) -> (result: Option<usize>)
    ensures
        found_first(text.spec_bytes(), pattern.spec_bytes(), result),
{
    let t = text.as_bytes();
    let p = pattern.as_bytes();
    let m = p.len();
    let n = t.len();
    if m == 0 || n == 0 || m > n {
        proof {
            if m != 0 {
                assert forall|q: int| !is_match_at(t@, p@, q) by {}
            }
        }
        return None;
    }
    // h = 256^(m-1) mod 101
    let mut h: u64 = 1;
    let mut k: usize = 0;
    proof {
        reveal(vstd::arithmetic::power::pow);
        vstd::arithmetic::power::lemma_pow0(256);
        vstd::arithmetic::div_mod::lemma_small_mod(1nat, 101nat);
    }
    while k < m - 1
        invariant
            0 <= k <= m - 1,
            h as int == vstd::arithmetic::power::pow(256, k as nat) % 101,
            h < 101,
        decreases m - 1 - k,
    {
        proof {
            reveal(vstd::arithmetic::power::pow);
            let pk = vstd::arithmetic::power::pow(256, k as nat);
            vstd::arithmetic::power::lemma_pow_positive(256, k as nat);
            vstd::arithmetic::div_mod::lemma_mul_mod_noop_left(pk, 256, 101);
            assert(vstd::arithmetic::power::pow(256, (k + 1) as nat) == 256 * pk);
            assert(((h as int) * 256) % 101 == (pk * 256) % 101);
            assert((pk * 256) % 101 == (256 * pk) % 101) by (nonlinear_arith);
            vstd::arithmetic::div_mod::lemma_mod_bound(256 * pk, 101);
        }
        h = (h * 256) % 101;
        k = k + 1;
    }
    // initial hashes of the pattern and the first window
    let mut ph: u64 = 0;
    let mut th: u64 = 0;
    let mut i: usize = 0;
    proof {
        assert(p@.take(0) =~= Seq::<u8>::empty());
        assert(t@.take(0) =~= Seq::<u8>::empty());
        vstd::arithmetic::div_mod::lemma_small_mod(0nat, 101nat);
    }
    while i < m
        invariant
            m == p@.len(),
            n == t@.len(),
            1 <= m <= n,
            0 <= i <= m,
            ph as int == rk_hash(p@.take(i as int)),
            th as int == rk_hash(t@.take(i as int)),
            ph < 101,
            th < 101,
        decreases m - i,
    {
        proof {
            let pp = p@.take(i + 1);
            let tt = t@.take(i + 1);
            assert(pp.drop_last() =~= p@.take(i as int));
            assert(tt.drop_last() =~= t@.take(i as int));
            let a = rk_poly(p@.take(i as int));
            vstd::arithmetic::div_mod::lemma_mul_mod_noop_left(a, 256, 101);
            vstd::arithmetic::div_mod::lemma_add_mod_noop(
                (a % 101) * 256,
                p@[i as int] as int,
                101,
            );
            vstd::arithmetic::div_mod::lemma_add_mod_noop(a * 256, p@[i as int] as int, 101);
            vstd::arithmetic::div_mod::lemma_mod_twice((a % 101) * 256, 101);
            let b = rk_poly(t@.take(i as int));
            vstd::arithmetic::div_mod::lemma_mul_mod_noop_left(b, 256, 101);
            vstd::arithmetic::div_mod::lemma_add_mod_noop(
                (b % 101) * 256,
                t@[i as int] as int,
                101,
            );
            vstd::arithmetic::div_mod::lemma_add_mod_noop(b * 256, t@[i as int] as int, 101);
            vstd::arithmetic::div_mod::lemma_mod_twice((b % 101) * 256, 101);
            vstd::arithmetic::div_mod::lemma_mod_bound(a * 256 + p@[i as int], 101);
            vstd::arithmetic::div_mod::lemma_mod_bound(b * 256 + t@[i as int], 101);
        }
        ph = (ph * 256 + (p[i] as u64)) % 101;
        th = (th * 256 + (t[i] as u64)) % 101;
        i = i + 1;
    }
    proof {
        assert(p@.take(m as int) =~= p@);
        assert(t@.take(m as int) =~= t@.subrange(0, m as int));
    }
    let mut s: usize = 0;
    while s <= n - m
        invariant
            t@ == text.spec_bytes(),
            p@ == pattern.spec_bytes(),
            m == p@.len(),
            n == t@.len(),
            1 <= m <= n,
            0 <= s <= n - m + 1,
            h as int == vstd::arithmetic::power::pow(256, (m - 1) as nat) % 101,
            h < 101,
            ph as int == rk_hash(p@),
            s + m <= n ==> th as int == rk_hash(t@.subrange(s as int, s + m)),
            ph < 101,
            th < 101,
            forall|q: int| 0 <= q < s ==> !is_match_at(t@, p@, q),
        decreases n - s,
    {
        if ph == th {
            let mut j: usize = 0;
            let mut all_eq = true;
            while j < m
                invariant
                    m == p@.len(),
                    n == t@.len(),
                    s + m <= n,
                    0 <= j <= m,
                    all_eq == forall|r: int| 0 <= r < j ==> p@[r] == t@[s + r],
                decreases m - j,
            {
                if p[j] != t[s + j] {
                    all_eq = false;
                }
                j = j + 1;
            }
            if all_eq {
                proof {
                    assert(t@.subrange(s as int, s + m) =~= p@);
                }
                return Some(s);
            }
            proof {
                assert(!is_match_at(t@, p@, s as int)) by {
                    if is_match_at(t@, p@, s as int) {
                        let r = choose|r: int| 0 <= r < m && p@[r] != t@[s + r];
                        assert(t@.subrange(s as int, s + m)[r] == t@[s + r]);
                    }
                }
            }
        } else {
            proof {
                assert(!is_match_at(t@, p@, s as int)) by {
                    if is_match_at(t@, p@, s as int) {
                        assert(t@.subrange(s as int, s + m) == p@);
                    }
                }
            }
        }
        if s < n - m {
            proof {
                lemma_rk_roll(t@, s as int, m as int, th as int, h as int);
            }
            let ts: u64 = t[s] as u64;
            proof {
                assert((ts as int) * (h as int) <= 255 * 100) by (nonlinear_arith)
                    requires
                        ts <= 255,
                        h <= 100,
                ;
            }
            let tsh = ts * h;
            let r = tsh % 101;
            th = (256 * (th + 101 - r) + (t[s + m] as u64)) % 101;
        }
        s = s + 1;
    }
    proof {
        assert forall|q: int| !is_match_at(t@, p@, q) by {
            if 0 <= q < s {
                assert(!is_match_at(t@, p@, q));
            }
        }
    }
    None
}

// ------------------------------------------------------------------
// Z algorithm
// ------------------------------------------------------------------
/// The length of the longest common prefix of two byte strings.
pub open spec fn lcp_len(a: Seq<u8>, b: Seq<u8>) -> int
    decreases a.len(),
{
    if a.len() == 0 || b.len() == 0 || a[0] != b[0] {
        0
    } else {
        1 + lcp_len(a.skip(1), b.skip(1))
    }
}

/// The Z value at `i`: how far the suffix of `s` starting at `i`
/// matches a prefix of `s`.
pub open spec fn zval(s: Seq<u8>, i: int) -> int {
    lcp_len(s, s.skip(i))
}

proof fn lemma_lcp_props(a: Seq<u8>, b: Seq<u8>)
    ensures
        0 <= lcp_len(a, b) <= a.len(),
        lcp_len(a, b) <= b.len(),
        forall|q: int| 0 <= q < lcp_len(a, b) ==> a[q] == b[q],
        lcp_len(a, b) < a.len() && lcp_len(a, b) < b.len() ==> a[lcp_len(a, b)] != b[lcp_len(
            a,
            b,
        )],
    decreases a.len(),
{
    if a.len() > 0 && b.len() > 0 && a[0] == b[0] {
        lemma_lcp_props(a.skip(1), b.skip(1));
        let l = lcp_len(a, b);
        assert forall|q: int| 0 <= q < l implies a[q] == b[q] by {
            if q > 0 {
                assert(a.skip(1)[q - 1] == b.skip(1)[q - 1]);
            }
        }
        if l < a.len() && l < b.len() {
            assert(a.skip(1)[l - 1] != b.skip(1)[l - 1]);
        }
    }
}

proof fn lemma_lcp_exact(a: Seq<u8>, b: Seq<u8>, k: int)
    requires
        0 <= k <= a.len(),
        k <= b.len(),
        forall|q: int| 0 <= q < k ==> a[q] == b[q],
        k == a.len() || k == b.len() || a[k] != b[k],
    ensures
        lcp_len(a, b) == k,
    decreases k,
{
    if k == 0 {
        if a.len() > 0 && b.len() > 0 {
            assert(a[0] != b[0]);
        } else {
            lemma_lcp_props(a, b);
        }
    } else {
        assert(a[0] == b[0]);
        assert forall|q: int| 0 <= q < k - 1 implies a.skip(1)[q] == b.skip(1)[q] by {
            assert(a[q + 1] == b[q + 1]);
        }
        if k < a.len() && k < b.len() {
            assert(a.skip(1)[k - 1] == a[k]);
            assert(b.skip(1)[k - 1] == b[k]);
        }
        lemma_lcp_exact(a.skip(1), b.skip(1), k - 1);
    }
}

/// A Z value of at least the pattern length at position `i` of the
/// concatenation `p + t` is an occurrence of `p` at `i - m` in `t`.
proof fn lemma_z_match(p: Seq<u8>, t: Seq<u8>, i: int)
    requires
        p.len() <= i < p.len() + t.len(),
        p.len() > 0,
    ensures
        (zval(p + t, i) >= p.len()) <==> is_match_at(t, p, i - p.len()),
{
    let c = p + t;
    let m = p.len() as int;
    let ln = c.len() as int;
    lemma_lcp_props(c, c.skip(i));
    if zval(c, i) >= m {
        assert(m <= ln - i);
        assert forall|q: int| 0 <= q < m implies t.subrange(i - m, i - m + m)[q] == p[q] by {
            assert(c[q] == c.skip(i)[q]);
            assert(c[q] == p[q]);
            assert(c.skip(i)[q] == c[i + q]);
            assert(c[i + q] == t[i - m + q]);
        }
        assert(t.subrange(i - m, i - m + m) =~= p);
    }
    if is_match_at(t, p, i - m) {
        assert forall|q: int| 0 <= q < m implies c[q] == c.skip(i)[q] by {
            assert(t.subrange(i - m, i - m + m)[q] == t[i - m + q]);
            assert(c.skip(i)[q] == c[i + q]);
            assert(c[i + q] == t[i - m + q]);
            assert(c[q] == p[q]);
        }
        if zval(c, i) < m {
            let l = zval(c, i);
            assert(l < ln && l < ln - i);
            assert(c[l] != c.skip(i)[l]);
        }
    }
}

/// Finds the first occurrence with the Z algorithm: the Z array of the
/// pattern-text concatenation marks each alignment whose Z value reaches
/// the pattern length.
#[verifier::rlimit(60)]
pub fn z_algorithm_search(text: &str, pattern: &str) -> (result: Option<usize>)
    ensures
        found_first(text.spec_bytes(), pattern.spec_bytes(), result),
{
    let t = text.as_bytes();
    let p = pattern.as_bytes();
    let m = p.len();
    let n = t.len();
    if m == 0 || n == 0 || m > n {
        proof {
            if m != 0 {
                assert forall|q: int| !is_match_at(t@, p@, q) by {}
            }
        }
        return None;
    }
    let mut cv: Vec<u8> = pattern.as_bytes_vec();
    let mut w: usize = 0;
    while w < n
        invariant
            m == p@.len(),
            n == t@.len(),
            0 <= w <= n,
            cv@ == p@ + t@.take(w as int),
        decreases n - w,
    {
        cv.push(t[w]);
        proof {
            assert(cv@ =~= p@ + t@.take(w + 1));
        }
        w = w + 1;
    }
    proof {
        assert(t@.take(n as int) =~= t@);
        assert(cv@ == p@ + t@);
    }
    let ln = cv.len();
    let mut z: Vec<usize> = Vec::new();
    let mut w2: usize = 0;
    while w2 < ln
        invariant
            0 <= w2 <= ln,
            z@.len() == w2,
        decreases ln - w2,
    {
        z.push(0);
        w2 = w2 + 1;
    }
    let mut l: usize = 0;
    let mut r: usize = 0;
    let mut i: usize = 1;
    while i < ln
        invariant
            m == p@.len(),
            n == t@.len(),
            cv@ == p@ + t@,
            1 <= m,
            ln == cv@.len() == m + n,
            z@.len() == ln,
            1 <= i <= ln,
            0 <= l < i,
            l == 0 ==> r == 0,
            l <= r + 1,
            r < ln,
            forall|q: int| 0 <= q < r + 1 - l ==> #[trigger] cv@[l + q] == cv@[q],
            forall|j: int| 1 <= j < i ==> #[trigger] z@[j] as int == zval(cv@, j),
        decreases ln - i,
    {
        if i > r {
            l = i;
            r = i;
            while r < ln && cv[r] == cv[r - l]
                invariant
                    cv@.len() == ln,
                    l == i,
                    i <= r <= ln,
                    forall|q: int| 0 <= q < r - l ==> #[trigger] cv@[l + q] == cv@[q],
                decreases ln - r,
            {
                r = r + 1;
            }
            z[i] = r - l;
            proof {
                assert forall|q: int| 0 <= q < r - l implies cv@[q] == cv@.skip(i as int)[q] by {
                    assert(cv@.skip(i as int)[q] == cv@[i + q]);
                }
                if r < ln {
                    assert(cv@.skip(i as int)[r - l] == cv@[r as int]);
                }
                lemma_lcp_exact(cv@, cv@.skip(i as int), r - l);
            }
            r = r - 1;
        } else {
            let k = i - l;
            proof {
                assert(l >= 1);
                assert(1 <= k < i);
            }
            let zk = z[k];
            if zk < r - i + 1 {
                z[i] = zk;
                proof {
                    let ii = i as int;
                    let ki = k as int;
                    let zki = zk as int;
                    assert(zki == zval(cv@, ki));
                    lemma_lcp_props(cv@, cv@.skip(ki));
                    // the mismatch bounding zval(k) lies inside the window
                    assert(zki < ln - ki);
                    assert(cv@[zki] != cv@.skip(ki)[zki]);
                    assert(cv@.skip(ki)[zki] == cv@[ki + zki]);
                    assert forall|q: int| 0 <= q < zki implies cv@[q] == cv@.skip(ii)[q] by {
                        assert(cv@[q] == cv@.skip(ki)[q]);
                        assert(cv@.skip(ki)[q] == cv@[ki + q]);
                        assert(cv@[l + (ki + q)] == cv@[ki + q]);
                        assert(cv@.skip(ii)[q] == cv@[ii + q]);
                        assert(l + ki + q == ii + q);
                    }
                    assert(cv@.skip(ii)[zki] == cv@[ii + zki]);
                    assert(cv@[l + (ki + zki)] == cv@[ki + zki]);
                    assert(l + ki + zki == ii + zki);
                    assert(cv@[ii + zki] != cv@[zki]);
                    lemma_lcp_exact(cv@, cv@.skip(ii), zki);
                }
            } else {
                proof {
                    let ii = i as int;
                    let ki = k as int;
                    let zki = zk as int;
                    assert(zki == zval(cv@, ki));
                    lemma_lcp_props(cv@, cv@.skip(ki));
                    assert forall|q: int| 0 <= q < r + 1 - ii implies #[trigger] cv@[ii + q] == cv@[q] by {
                        assert(cv@[l + (ki + q)] == cv@[ki + q]);
                        assert(l + ki + q == ii + q);
                        assert(cv@[q] == cv@.skip(ki)[q]);
                        assert(cv@.skip(ki)[q] == cv@[ki + q]);
                    }
                }
                l = i;
                while r < ln && cv[r] == cv[r - l]
                    invariant
                        cv@.len() == ln,
                        l == i,
                        i <= r <= ln,
                        forall|q: int| 0 <= q < r - l ==> #[trigger] cv@[l + q] == cv@[q],
                    decreases ln - r,
                {
                    r = r + 1;
                }
                z[i] = r - l;
                proof {
                    assert forall|q: int| 0 <= q < r - l implies cv@[q] == cv@.skip(
                        i as int,
                    )[q] by {
                        assert(cv@.skip(i as int)[q] == cv@[i + q]);
                    }
                    if r < ln {
                        assert(cv@.skip(i as int)[r - l] == cv@[r as int]);
                    }
                    lemma_lcp_exact(cv@, cv@.skip(i as int), r - l);
                }
                r = r - 1;
            }
        }
        i = i + 1;
    }
    // scan for the first position whose Z value covers the pattern
    let mut j: usize = m;
    while j < ln
        invariant
            t@ == text.spec_bytes(),
            p@ == pattern.spec_bytes(),
            m == p@.len(),
            n == t@.len(),
            cv@ == p@ + t@,
            1 <= m <= n,
            ln == cv@.len() == m + n,
            z@.len() == ln,
            m <= j <= ln,
            forall|jj: int| 1 <= jj < ln ==> #[trigger] z@[jj] as int == zval(cv@, jj),
            forall|q: int| 0 <= q < j - m ==> !is_match_at(t@, p@, q),
        decreases ln - j,
    {
        if z[j] >= m {
            proof {
                lemma_z_match(p@, t@, j as int);
            }
            return Some(j - m);
        }
        proof {
            lemma_z_match(p@, t@, j as int);
        }
        j = j + 1;
    }
    proof {
        assert forall|q: int| !is_match_at(t@, p@, q) by {
            if 0 <= q < n - m + 1 {
                assert(!is_match_at(t@, p@, q));
            }
        }
    }
    None
}

// ------------------------------------------------------------------
// Boyer-Moore (bad-character rule only)
// ------------------------------------------------------------------
/// The rightmost position up to `j` where pattern and text disagree at
/// alignment `s`, or `-1` when they agree everywhere up to `j`.
pub open spec fn bm_mismatch(t: Seq<u8>, p: Seq<u8>, s: int, j: int) -> int
    decreases j + 1,
{
    if j < 0 {
        -1
    } else if p[j] != t[s + j] {
        j
    } else {
        bm_mismatch(t, p, s, j - 1)
    }
}

/// The bad-character table value: `m - 1 - i` for the last position `i`
/// of the byte in the pattern, `m` for absent bytes.
pub open spec fn bm_bad(p: Seq<u8>, c: u8) -> int {
    let l = last_occ_before(p, c, p.len() as int);
    if l >= 0 {
        p.len() - 1 - l
    } else {
        p.len() as int
    }
}

/// The alignment the Boyer-Moore scan reports, starting from `s`: a
/// full right-to-left agreement stops the scan; otherwise the alignment
/// advances by `max(1, j - bad(text byte at the mismatch))`.
pub open spec fn bm_find_from(t: Seq<u8>, p: Seq<u8>, s: int) -> Option<int>
    decreases t.len() - s,
    when 0 <= s && p.len() >= 1
    via bm_find_from_decreases
{
    if s + p.len() > t.len() {
        None
    } else {
        let j = bm_mismatch(t, p, s, p.len() - 1);
        if j < 0 {
            Some(s)
        } else {
            let d = j - bm_bad(p, t[s + j]);
            bm_find_from(t, p, s + (if d > 1 {
                d
            } else {
                1
            }))
        }
    }
}

/// What `boyer_moore_search` returns.  The bad-character shift may pass
/// over an occurrence, so this is not always the first occurrence; what
/// it reports is always a real one.
pub open spec fn bm_find(t: Seq<u8>, p: Seq<u8>) -> Option<int> {
    if p.len() == 0 || t.len() == 0 || p.len() > t.len() {
        None
    } else {
        bm_find_from(t, p, 0)
    }
}

#[via_fn]
proof fn bm_find_from_decreases(t: Seq<u8>, p: Seq<u8>, s: int) {
    if 0 <= s && p.len() >= 1 && s + p.len() <= t.len() {
        let j = bm_mismatch(t, p, s, p.len() - 1);
        lemma_bm_mismatch(t, p, s, p.len() - 1);
        if j >= 0 {
            lemma_last_occ(p, t[s + j], p.len() as int);
            assert(bm_bad(p, t[s + j]) >= 0);
        }
    }
}

proof fn lemma_bm_mismatch(t: Seq<u8>, p: Seq<u8>, s: int, j: int)
    requires
        0 <= s,
        -1 <= j < p.len(),
        s + p.len() <= t.len(),
    ensures
        -1 <= bm_mismatch(t, p, s, j) <= j,
        bm_mismatch(t, p, s, j) >= 0 ==> p[bm_mismatch(t, p, s, j)] != t[s + bm_mismatch(
            t,
            p,
            s,
            j,
        )],
        forall|k: int| bm_mismatch(t, p, s, j) < k <= j ==> p[k] == t[s + k],
    decreases j + 1,
{
    if j >= 0 {
        lemma_bm_mismatch(t, p, s, j - 1);
    }
}

/// Every alignment the Boyer-Moore scan reports is an occurrence.
pub proof fn lemma_bm_find_sound(t: Seq<u8>, p: Seq<u8>)
    ensures
        bm_find(t, p) matches Some(s) ==> is_match_at(t, p, s),
        (p.len() > 0 && (forall|q: int| !is_match_at(t, p, q))) ==> bm_find(t, p) is None,
{
    if p.len() >= 1 && t.len() >= 1 && p.len() <= t.len() {
        lemma_bm_find_from_sound(t, p, 0);
    }
}

proof fn lemma_bm_find_from_sound(t: Seq<u8>, p: Seq<u8>, s: int)
    requires
        0 <= s,
        p.len() >= 1,
    ensures
        bm_find_from(t, p, s) matches Some(r) ==> is_match_at(t, p, r),
    decreases t.len() - s,
{
    if s + p.len() <= t.len() {
        let j = bm_mismatch(t, p, s, p.len() - 1);
        lemma_bm_mismatch(t, p, s, p.len() - 1);
        if j < 0 {
            assert(t.subrange(s, s + p.len()) =~= p);
        } else {
            lemma_last_occ(p, t[s + j], p.len() as int);
            assert(bm_bad(p, t[s + j]) >= 0);
            let d = j - bm_bad(p, t[s + j]);
            lemma_bm_find_from_sound(
                t,
                p,
                s + (if d > 1 {
                    d
                } else {
                    1
                }),
            );
        }
    }
}

/// Finds an occurrence with the Boyer-Moore algorithm restricted to the
/// bad-character rule, with the shift `max(1, j - bad_char[text byte])`.
/// Any offset it returns is a real occurrence; the aggressive shift can
/// pass over an earlier one, so the result is exactly `bm_find`, not
/// always the first occurrence.
pub fn boyer_moore_search(text: &str, pattern: &str) -> (result: Option<usize>)
    ensures
        match result {
            Some(s) => bm_find(text.spec_bytes(), pattern.spec_bytes()) == Some(s as int)
                && is_match_at(text.spec_bytes(), pattern.spec_bytes(), s as int),
            None => bm_find(text.spec_bytes(), pattern.spec_bytes()) is None,
        },
{
    let t = text.as_bytes();
    let p = pattern.as_bytes();
    let m = p.len();
    let n = t.len();
    if m == 0 || n == 0 || m > n {
        return None;
    }
    let mut bad: Vec<usize> = Vec::new();
    let mut c: usize = 0;
    while c < 256
        invariant
            m == p@.len(),
            0 <= c <= 256,
            bad@.len() == c,
            forall|d: int| 0 <= d < c ==> bad@[d] == m,
        decreases 256 - c,
    {
        bad.push(m);
        c = c + 1;
    }
    let mut i: usize = 0;
    while i < m
        invariant
            m == p@.len(),
            1 <= m,
            0 <= i <= m,
            bad@.len() == 256,
            forall|d: int|
                0 <= d < 256 ==> #[trigger] bad@[d] as int == (if last_occ_before(
                    p@,
                    d as u8,
                    i as int,
                ) >= 0 {
                    m - 1 - last_occ_before(p@, d as u8, i as int)
                } else {
                    m as int
                }),
        decreases m - i,
    {
        let b = p[i];
        bad[b as usize] = m - 1 - i;
        i = i + 1;
    }
    let mut s: usize = 0;
    while s <= n - m
        invariant
            t@ == text.spec_bytes(),
            p@ == pattern.spec_bytes(),
            m == p@.len(),
            n == t@.len(),
            1 <= m <= n,
            0 <= s,
            bad@.len() == 256,
            forall|d: int| 0 <= d < 256 ==> #[trigger] bad@[d] as int == bm_bad(p@, d as u8),
            bm_find(t@, p@) == bm_find_from(t@, p@, s as int),
        decreases n - s,
    {
        let mut j = m - 1;
        while j > 0 && p[j] == t[s + j]
            invariant
                m == p@.len(),
                n == t@.len(),
                s + m <= n,
                0 <= j <= m - 1,
                forall|k: int| j < k < m ==> p@[k] == t@[s + k],
            decreases j,
        {
            j = j - 1;
        }
        if j == 0 && p[0] == t[s] {
            proof {
                lemma_bm_mismatch(t@, p@, s as int, m - 1);
                assert(bm_mismatch(t@, p@, s as int, m - 1) < 0) by {
                    let jm = bm_mismatch(t@, p@, s as int, m - 1);
                    if jm >= 0 {
                        assert(p@[jm] == t@[s + jm]);
                    }
                }
                assert(t@.subrange(s as int, s + m) =~= p@);
            }
            return Some(s);
        }
        proof {
            assert(p@[j as int] != t@[s + j]);
            lemma_bm_mismatch(t@, p@, s as int, m - 1);
            assert(bm_mismatch(t@, p@, s as int, m - 1) == j) by {
                let jm = bm_mismatch(t@, p@, s as int, m - 1);
                if jm > j {
                    assert(p@[jm] == t@[s + jm]);
                } else if jm < j {
                    assert(p@[j as int] == t@[s + j]);
                }
            }
        }
        let bc = bad[t[s + j] as usize];
        let shift_amt: usize = if j > bc {
            j - bc
        } else {
            1
        };
        proof {
            let d = j - bm_bad(p@, t@[s + j]);
            assert(shift_amt as int == (if d > 1 {
                d
            } else {
                1
            }));
        }
        s = s + shift_amt;
    }
    proof {
        assert(bm_find_from(t@, p@, s as int) is None);
    }
    None
}

// ------------------------------------------------------------------
// Aho-Corasick
// ------------------------------------------------------------------
/// The pattern `p` occurs in the character sequence `t` at offset `s`.
pub open spec fn char_match_at(t: Seq<char>, p: Seq<char>, s: int) -> bool {
    0 <= s && s + p.len() <= t.len() && t.subrange(s, s + p.len()) == p
}

/// A reported pair is sound: the found word is one of the patterns and
/// stands in the text at the reported offset.
pub open spec fn ac_result_ok(t: Seq<char>, pats: Seq<Seq<char>>, st: int, found: Seq<char>) -> bool {
    exists|idx: int| 0 <= idx < pats.len() && found == #[trigger] pats[idx] && char_match_at(t, pats[idx], st)
}

/// A suffix of a suffix is a suffix.
proof fn lemma_suffix_trans(a: Seq<char>, b: Seq<char>, c: Seq<char>)
    requires
        a.is_suffix_of(b),
        b.is_suffix_of(c),
    ensures
        a.is_suffix_of(c),
{
    assert forall|q: int| 0 <= q < a.len() implies a[q] == c.skip(c.len() - a.len())[q] by {
        assert(a[q] == b.skip(b.len() - a.len())[q]);
        assert(b.skip(b.len() - a.len())[q] == b[b.len() - a.len() + q]);
        assert(b[b.len() - a.len() + q] == c.skip(c.len() - b.len())[b.len() - a.len() + q]);
        assert(c.skip(c.len() - b.len())[b.len() - a.len() + q] == c[c.len() - a.len() + q]);
        assert(c.skip(c.len() - a.len())[q] == c[c.len() - a.len() + q]);
    }
    assert(a =~= c.skip(c.len() - a.len()));
}

/// Appending the same character keeps the suffix relation.
proof fn lemma_suffix_push(a: Seq<char>, b: Seq<char>, c: char)
    requires
        a.is_suffix_of(b),
    ensures
        a.push(c).is_suffix_of(b.push(c)),
{
    let ap = a.push(c);
    let bp = b.push(c);
    assert forall|q: int| 0 <= q < ap.len() implies ap[q] == bp.skip(bp.len() - ap.len())[q] by {
        assert(bp.skip(bp.len() - ap.len())[q] == bp[bp.len() - ap.len() + q]);
        if q < a.len() {
            assert(a[q] == b.skip(b.len() - a.len())[q]);
            assert(b.skip(b.len() - a.len())[q] == b[b.len() - a.len() + q]);
        }
    }
    assert(ap =~= bp.skip(bp.len() - ap.len()));
}

/// The automaton's well-formedness, tying every state to the word it
/// spells (its label): edges extend labels by one character, failure
/// links lead to strictly shorter suffixes, and every recorded output is
/// a pattern that ends wherever its state is reached.
pub open spec fn ac_wf(
    edges: Seq<(usize, char, usize)>,
    fail: Seq<usize>,
    outs: Seq<(usize, usize)>,
    labels: Seq<Seq<char>>,
    pats: Seq<Seq<char>>,
) -> bool {
    &&& labels.len() >= 1
    &&& fail.len() == labels.len()
    &&& labels[0] == Seq::<char>::empty()
    &&& forall|e: int|
        0 <= e < edges.len() ==> (#[trigger] edges[e]).0 < labels.len() && edges[e].2
            < labels.len() && edges[e].2 != 0 && labels[edges[e].2 as int] == labels[
            edges[e].0 as int].push(edges[e].1)
    &&& forall|s: int|
        0 <= s < fail.len() ==> (#[trigger] fail[s]) < labels.len() && labels[
            fail[s] as int].is_suffix_of(labels[s]) && (s != 0 ==> labels[fail[s] as int].len()
            < labels[s].len())
    &&& forall|o: int|
        0 <= o < outs.len() ==> (#[trigger] outs[o]).0 < labels.len() && outs[o].1 < pats.len()
            && pats[outs[o].1 as int].is_suffix_of(labels[outs[o].0 as int])
}

/// The state `u` has an outgoing edge labelled `c`.
pub open spec fn has_c_edge(edges: Seq<(usize, char, usize)>, u: int, c: char) -> bool {
    exists|e: int| 0 <= e < edges.len() && (#[trigger] edges[e]).0 == u && edges[e].1 == c
}

/// Some edge leads into state `s`.
pub open spec fn has_in_edge(edges: Seq<(usize, char, usize)>, s: int) -> bool {
    exists|e: int| 0 <= e < edges.len() && (#[trigger] edges[e]).2 as int == s
}

/// State `v` stands somewhere in the queue.
pub open spec fn in_queue(q: Seq<usize>, v: int) -> bool {
    exists|j: int| 0 <= j < q.len() && (#[trigger] q[j]) as int == v
}

/// State `v` stands among the first `h` queue entries.
pub open spec fn in_queue_prefix(q: Seq<usize>, h: int, v: int) -> bool {
    exists|j: int| 0 <= j < h && j < q.len() && (#[trigger] q[j]) as int == v
}

/// The trie is deterministic: one edge per state and character, one
/// in-edge per state, distinct labels, and every state but the root is
/// some edge's target.
pub open spec fn ac_trie(edges: Seq<(usize, char, usize)>, labels: Seq<Seq<char>>) -> bool {
    &&& forall|e1: int, e2: int|
        0 <= e1 < edges.len() && 0 <= e2 < edges.len() && (#[trigger] edges[e1]).0 == (
        #[trigger] edges[e2]).0 && edges[e1].1 == edges[e2].1 ==> e1 == e2
    &&& forall|e1: int, e2: int|
        0 <= e1 < edges.len() && 0 <= e2 < edges.len() && (#[trigger] edges[e1]).2 == (
        #[trigger] edges[e2]).2 ==> e1 == e2
    &&& forall|s1: int, s2: int|
        0 <= s1 < labels.len() && 0 <= s2 < labels.len() && #[trigger] labels[s1] == #[trigger]
        labels[s2] ==> s1 == s2
    &&& forall|s: int| 0 < s < labels.len() ==> #[trigger] has_in_edge(edges, s)
}

/// Every pattern is spelled by some state of the trie.
pub open spec fn pats_are_nodes(labels: Seq<Seq<char>>, pats: Seq<Seq<char>>) -> bool {
    forall|k: int|
        0 <= k < pats.len() ==> exists|v: int|
            0 <= v < labels.len() && #[trigger] labels[v] == #[trigger] pats[k]
}

/// Pattern `k` is recorded as an output of the very state that spells
/// it.
#[verifier::opaque]
pub open spec fn pat_out_exact(
    outs: Seq<(usize, usize)>,
    labels: Seq<Seq<char>>,
    pats: Seq<Seq<char>>,
    k: int,
) -> bool {
    exists|o: int|
        0 <= o < outs.len() && (#[trigger] outs[o]).1 as int == k && labels[outs[o].0 as int]
            == pats[k]
}

/// The failure link of `v` reaches the longest proper suffix of `v`'s
/// label that is itself a state's label.
pub open spec fn fail_longest(
    fail: Seq<usize>,
    labels: Seq<Seq<char>>,
    v: int,
) -> bool {
    forall|u: int|
        0 <= u < labels.len() && (#[trigger] labels[u]).is_suffix_of(labels[v]) && labels[u].len()
            < labels[v].len() ==> labels[u].len() <= labels[fail[v] as int].len()
}

/// Every non-empty pattern that is a suffix of `v`'s label is recorded
/// as an output of `v`.
pub open spec fn outs_complete(
    outs: Seq<(usize, usize)>,
    labels: Seq<Seq<char>>,
    pats: Seq<Seq<char>>,
    v: int,
) -> bool {
    forall|k: int|
        0 <= k < pats.len() && (#[trigger] pats[k]).len() > 0 && pats[k].is_suffix_of(labels[v])
            ==> exists|o: int|
            0 <= o < outs.len() && (#[trigger] outs[o]).0 == v && outs[o].1 == k
}

/// A state whose failure link and output set are final.
#[verifier::opaque]
pub open spec fn node_done(
    fail: Seq<usize>,
    outs: Seq<(usize, usize)>,
    labels: Seq<Seq<char>>,
    pats: Seq<Seq<char>>,
    v: int,
) -> bool {
    fail_longest(fail, labels, v) && outs_complete(outs, labels, pats, v)
}

/// Everything the scan relies on: the well-formed deterministic trie,
/// every pattern spelled by a state, and every state's failure link and
/// output set final.
pub open spec fn ac_ready(
    edges: Seq<(usize, char, usize)>,
    fail: Seq<usize>,
    outs: Seq<(usize, usize)>,
    labels: Seq<Seq<char>>,
    pats: Seq<Seq<char>>,
) -> bool {
    &&& ac_wf(edges, fail, outs, labels, pats)
    &&& ac_trie(edges, labels)
    &&& pats_are_nodes(labels, pats)
    &&& forall|v: int| 0 <= v < labels.len() ==> node_done(fail, outs, labels, pats, v)
}

/// Two suffixes of one sequence: the shorter is a suffix of the longer.
proof fn lemma_suffix_of_suffix(a: Seq<char>, b: Seq<char>, c: Seq<char>)
    requires
        a.is_suffix_of(c),
        b.is_suffix_of(c),
        a.len() <= b.len(),
    ensures
        a.is_suffix_of(b),
{
    assert forall|q: int| 0 <= q < a.len() implies a[q] == b.skip(b.len() - a.len())[q] by {
        assert(a[q] == c.skip(c.len() - a.len())[q]);
        assert(c.skip(c.len() - a.len())[q] == c[c.len() - a.len() + q]);
        assert(b[b.len() - a.len() + q] == c.skip(c.len() - b.len())[b.len() - a.len() + q]);
        assert(c.skip(c.len() - b.len())[b.len() - a.len() + q] == c[c.len() - a.len() + q]);
        assert(b.skip(b.len() - a.len())[q] == b[b.len() - a.len() + q]);
    }
    assert(a =~= b.skip(b.len() - a.len()));
}

/// A non-empty suffix shortened by its last character is a suffix of the
/// host shortened by its last character.
proof fn lemma_suffix_drop_last(w: Seq<char>, y: Seq<char>)
    requires
        w.is_suffix_of(y),
        w.len() >= 1,
    ensures
        w.drop_last().is_suffix_of(y.drop_last()),
        w.last() == y.last(),
{
    assert(w.last() == y.skip(y.len() - w.len())[w.len() - 1]);
    assert(y.skip(y.len() - w.len())[w.len() - 1] == y[y.len() - 1]);
    let wd = w.drop_last();
    let yd = y.drop_last();
    assert forall|q: int| 0 <= q < wd.len() implies wd[q] == yd.skip(yd.len() - wd.len())[q] by {
        assert(wd[q] == w[q]);
        assert(w[q] == y.skip(y.len() - w.len())[q]);
        assert(y.skip(y.len() - w.len())[q] == y[y.len() - w.len() + q]);
        assert(yd.skip(yd.len() - wd.len())[q] == yd[yd.len() - wd.len() + q]);
        assert(yd[yd.len() - wd.len() + q] == y[y.len() - w.len() + q]);
    }
    assert(wd =~= yd.skip(yd.len() - wd.len()));
}

/// How many entries of a boolean sequence are set.
pub open spec fn count_true(s: Seq<bool>) -> int
    decreases s.len(),
{
    if s.len() == 0 {
        0
    } else {
        count_true(s.drop_last()) + (if s.last() {
            1int
        } else {
            0int
        })
    }
}

proof fn lemma_count_true_le(s: Seq<bool>)
    ensures
        0 <= count_true(s) <= s.len(),
    decreases s.len(),
{
    if s.len() > 0 {
        lemma_count_true_le(s.drop_last());
    }
}

/// Setting one unset entry raises the count by one.
proof fn lemma_count_true_set(s: Seq<bool>, i: int)
    requires
        0 <= i < s.len(),
        !s[i],
    ensures
        count_true(s.update(i, true)) == count_true(s) + 1,
    decreases s.len(),
{
    let t = s.update(i, true);
    if i == s.len() - 1 {
        assert(t.drop_last() =~= s.drop_last());
    } else {
        assert(t.drop_last() =~= s.drop_last().update(i, true));
        lemma_count_true_set(s.drop_last(), i);
        assert(t.last() == s.last());
    }
}

/// An unset entry keeps the count strictly below the length.
proof fn lemma_count_true_lt(s: Seq<bool>, i: int)
    requires
        0 <= i < s.len(),
        !s[i],
    ensures
        count_true(s) < s.len(),
    decreases s.len(),
{
    if i == s.len() - 1 {
        lemma_count_true_le(s.drop_last());
    } else {
        lemma_count_true_lt(s.drop_last(), i);
    }
}

/// The target of the edge from `s` labelled `c`, if one is recorded.
fn ac_find_edge(edges: &Vec<(usize, char, usize)>, s: usize, c: char) -> (r: Option<usize>)
    ensures
        r matches Some(t) ==> exists|e: int|
            0 <= e < edges@.len() && #[trigger] edges@[e] == (s, c, t),
        r is None ==> !has_c_edge(edges@, s as int, c),
{
    let mut e: usize = 0;
    while e < edges.len()
        invariant
            0 <= e <= edges@.len(),
            forall|d: int| 0 <= d < e ==> !((#[trigger] edges@[d]).0 == s && edges@[d].1 == c),
        decreases edges@.len() - e,
    {
        let (src, ch, tgt) = edges[e];
        proof {
            assert(edges@[e as int] == (src, ch, tgt));
        }
        if src == s && ch == c {
            return Some(tgt);
        }
        e = e + 1;
    }
    None
}

proof fn lemma_in_queue_push(q: Seq<usize>, x: usize, v: int)
    requires
        in_queue(q, v),
    ensures
        in_queue(q.push(x), v),
{
    let j = choose|j: int| 0 <= j < q.len() && (#[trigger] q[j]) as int == v;
    assert(q.push(x)[j] as int == v);
}

proof fn lemma_in_queue_prefix_push(q: Seq<usize>, h: int, x: usize, v: int)
    requires
        in_queue_prefix(q, h, v),
    ensures
        in_queue_prefix(q.push(x), h, v),
{
    let j = choose|j: int| 0 <= j < h && j < q.len() && (#[trigger] q[j]) as int == v;
    assert(q.push(x)[j] as int == v);
}

/// Appending one fresh state to the queue keeps every queue-membership
/// fact: marked states are exactly the queued ones, the root's children
/// stay queued, children of popped states stay queued, and the popped
/// prefix is untouched.
proof fn lemma_ac_enqueue_frames(
    edges: Seq<(usize, char, usize)>,
    labels: Seq<Seq<char>>,
    q: Seq<usize>,
    x: usize,
    old_enq: Seq<bool>,
    enq: Seq<bool>,
    n: int,
    head0: int,
    e2: int,
    state: usize,
    done: Set<int>,
)
    requires
        n == old_enq.len() == enq.len(),
        (x as int) < n,
        !old_enq[x as int],
        enq == old_enq.update(x as int, true),
        forall|v: int| 0 <= v < n ==> ((#[trigger] old_enq[v]) <==> in_queue(q, v)),
        forall|e: int|
            0 <= e < edges.len() && (#[trigger] edges[e]).0 == 0 ==> in_queue(
                q,
                edges[e].2 as int,
            ),
        forall|j: int, d: int|
            0 <= j < head0 && 0 <= d < edges.len() && (#[trigger] edges[d]).0 == #[trigger] q[j]
                ==> done.contains(edges[d].2 as int) && in_queue(q, edges[d].2 as int),
        forall|d: int|
            0 <= d < e2 && (#[trigger] edges[d]).0 == state ==> done.contains(edges[d].2 as int)
                && in_queue(q, edges[d].2 as int),
        forall|u: int|
            0 < u < n && (#[trigger] labels[u]).len() < labels[state as int].len()
                ==> in_queue_prefix(q, head0, u),
        (state as int) < labels.len(),
        0 <= head0 <= q.len(),
    ensures
        forall|v: int| 0 <= v < n ==> ((#[trigger] enq[v]) <==> in_queue(q.push(x), v)),
        forall|e: int|
            0 <= e < edges.len() && (#[trigger] edges[e]).0 == 0 ==> in_queue(
                q.push(x),
                edges[e].2 as int,
            ),
        forall|j: int, d: int|
            0 <= j < head0 && 0 <= d < edges.len() && (#[trigger] edges[d]).0 == #[trigger]
            q.push(x)[j] ==> done.contains(edges[d].2 as int) && in_queue(
                q.push(x),
                edges[d].2 as int,
            ),
        forall|d: int|
            0 <= d < e2 && (#[trigger] edges[d]).0 == state ==> done.contains(edges[d].2 as int)
                && in_queue(q.push(x), edges[d].2 as int),
        forall|u: int|
            0 < u < n && (#[trigger] labels[u]).len() < labels[state as int].len()
                ==> in_queue_prefix(q.push(x), head0, u),
{
    let qp = q.push(x);
    assert forall|v: int| 0 <= v < n implies ((#[trigger] enq[v]) <==> in_queue(qp, v)) by {
        if v == x as int {
            assert(qp[qp.len() - 1] as int == v);
        } else {
            if in_queue(qp, v) {
                let j = choose|j: int| 0 <= j < qp.len() && (#[trigger] qp[j]) as int == v;
                assert(j < q.len());
                assert(q[j] as int == v);
            }
            if in_queue(q, v) {
                lemma_in_queue_push(q, x, v);
            }
        }
    }
    assert forall|e: int|
        0 <= e < edges.len() && (#[trigger] edges[e]).0 == 0 implies in_queue(
        qp,
        edges[e].2 as int,
    ) by {
        lemma_in_queue_push(q, x, edges[e].2 as int);
    }
    assert forall|j: int, d: int|
        0 <= j < head0 && 0 <= d < edges.len() && (#[trigger] edges[d]).0 == #[trigger] qp[j]
        implies done.contains(edges[d].2 as int) && in_queue(qp, edges[d].2 as int) by {
        assert(qp[j] == q[j]);
        lemma_in_queue_push(q, x, edges[d].2 as int);
    }
    assert forall|d: int|
        0 <= d < e2 && (#[trigger] edges[d]).0 == state implies done.contains(
        edges[d].2 as int,
    ) && in_queue(qp, edges[d].2 as int) by {
        lemma_in_queue_push(q, x, edges[d].2 as int);
    }
    assert forall|u: int|
        0 < u < n && (#[trigger] labels[u]).len() < labels[state as int].len() implies
        in_queue_prefix(qp, head0, u) by {
        lemma_in_queue_prefix_push(q, head0, x, u);
    }
}

/// The computed failure link of the fresh state `next` reaches its
/// longest proper suffix state: any longer suffix state's parent would
/// be a longer suffix state of `state` with a `c` edge, which the chase
/// ruled out.
proof fn lemma_ac_fail_next(
    edges: Seq<(usize, char, usize)>,
    labels: Seq<Seq<char>>,
    state: int,
    c: char,
    next: int,
    fexit: int,
    found: bool,
    fnext: int,
)
    requires
        ac_trie(edges, labels),
        labels.len() >= 1,
        labels[0] == Seq::<char>::empty(),
        forall|e: int|
            0 <= e < edges.len() ==> (#[trigger] edges[e]).0 < labels.len() && edges[e].2
                < labels.len() && edges[e].2 != 0 && labels[edges[e].2 as int] == labels[
                edges[e].0 as int].push(edges[e].1),
        0 <= state < labels.len(),
        0 <= next < labels.len(),
        0 <= fexit < labels.len(),
        0 <= fnext < labels.len(),
        labels[next] == labels[state].push(c),
        labels[fexit].is_suffix_of(labels[state]),
        found ==> labels[fnext] == labels[fexit].push(c),
        !found ==> fnext == 0 && fexit == 0 && !has_c_edge(edges, 0, c),
        forall|u: int|
            0 <= u < labels.len() && (#[trigger] labels[u]).is_suffix_of(labels[state])
                && labels[u].len() < labels[state].len() && labels[u].len() > labels[
                fexit].len() ==> !has_c_edge(edges, u, c),
    ensures
        forall|u: int|
            0 <= u < labels.len() && (#[trigger] labels[u]).is_suffix_of(labels[next])
                && labels[u].len() < labels[next].len() ==> labels[u].len() <= labels[
                fnext].len(),
{
    assert forall|u: int|
        0 <= u < labels.len() && (#[trigger] labels[u]).is_suffix_of(labels[next]) && labels[
            u].len() < labels[next].len() implies labels[u].len() <= labels[fnext].len() by {
        if labels[u].len() >= 1 {
            assert(u != 0);
            assert(has_in_edge(edges, u));
            let eu = choose|eu: int|
                0 <= eu < edges.len() && (#[trigger] edges[eu]).2 as int == u;
            let pu = edges[eu].0 as int;
            assert(labels[u] == labels[pu].push(edges[eu].1));
            lemma_suffix_drop_last(labels[u], labels[next]);
            assert(labels[next].last() == c);
            assert(labels[u].last() == c);
            assert(edges[eu].1 == c);
            assert(labels[u].drop_last() =~= labels[pu]);
            assert(labels[next].drop_last() =~= labels[state]);
            assert(labels[pu].is_suffix_of(labels[state]));
            assert(labels[pu].len() < labels[state].len());
            assert(has_c_edge(edges, pu, c));
            if found {
                if labels[pu].len() > labels[fexit].len() {
                    assert(!has_c_edge(edges, pu, c));
                }
                assert(labels[u].len() <= labels[fexit].len() + 1);
            } else {
                if pu == 0 {
                    assert(!has_c_edge(edges, 0, c));
                } else {
                    assert(labels[pu].len() > 0);
                    assert(!has_c_edge(edges, pu, c));
                }
            }
        }
    }
}

/// After copying the failure state's outputs onto `next`, the outputs of
/// `next` are complete: a pattern equal to its label was recorded when
/// the pattern was inserted, and a shorter suffix pattern was already an
/// output of the failure state.
proof fn lemma_ac_outs_next(
    outs: Seq<(usize, usize)>,
    pre_outs: Seq<(usize, usize)>,
    labels: Seq<Seq<char>>,
    pats: Seq<Seq<char>>,
    next: usize,
    fnext: usize,
)
    requires
        forall|s1: int, s2: int|
            0 <= s1 < labels.len() && 0 <= s2 < labels.len() && #[trigger] labels[s1]
                == #[trigger] labels[s2] ==> s1 == s2,
        (next as int) < labels.len(),
        (fnext as int) < labels.len(),
        labels[fnext as int].is_suffix_of(labels[next as int]),
        labels[fnext as int].len() < labels[next as int].len(),
        pre_outs.len() <= outs.len(),
        forall|d: int| 0 <= d < pre_outs.len() ==> #[trigger] outs[d] == pre_outs[d],
        forall|o: int|
            0 <= o < outs.len() ==> (#[trigger] outs[o]).0 < labels.len() && outs[o].1
                < pats.len(),
        forall|kk: int| 0 <= kk < pats.len() ==> #[trigger] pat_out_exact(outs, labels, pats, kk),
        forall|o: int|
            0 <= o < pre_outs.len() ==> (#[trigger] pre_outs[o]).0 < labels.len() && pre_outs[
                o].1 < pats.len() && pats[pre_outs[o].1 as int].is_suffix_of(
                labels[pre_outs[o].0 as int],
            ),
        outs_complete(pre_outs, labels, pats, fnext as int),
        forall|u: int|
            0 <= u < labels.len() && (#[trigger] labels[u]).is_suffix_of(labels[next as int])
                && labels[u].len() < labels[next as int].len() ==> labels[u].len() <= labels[
                fnext as int].len(),
        forall|d: int|
            0 <= d < pre_outs.len() && (#[trigger] pre_outs[d]).0 == fnext ==> exists|jx: int|
                0 <= jx < outs.len() && #[trigger] outs[jx] == (next, pre_outs[d].1),
    ensures
        outs_complete(outs, labels, pats, next as int),
{
    reveal(pat_out_exact);
    assert forall|kk: int|
        0 <= kk < pats.len() && (#[trigger] pats[kk]).len() > 0 && pats[kk].is_suffix_of(
            labels[next as int],
        ) implies exists|ox: int|
        0 <= ox < outs.len() && (#[trigger] outs[ox]).0 == next as int && outs[ox].1 == kk by {
        if pats[kk].len() == labels[next as int].len() {
            assert(pats[kk] =~= labels[next as int]);
            assert(pat_out_exact(outs, labels, pats, kk));
            let ox = choose|ox: int|
                0 <= ox < outs.len() && (#[trigger] outs[ox]).1 as int == kk && labels[
                    outs[ox].0 as int] == pats[kk];
            assert(outs[ox].0 as int == next as int);
        } else {
            assert(pats[kk].is_suffix_of(labels[fnext as int])) by {
                assert(pat_out_exact(outs, labels, pats, kk));
                let ox = choose|ox: int|
                    0 <= ox < outs.len() && (#[trigger] outs[ox]).1 as int == kk && labels[
                        outs[ox].0 as int] == pats[kk];
                let v = outs[ox].0 as int;
                assert(labels[v].is_suffix_of(labels[next as int]));
                assert(labels[v].len() < labels[next as int].len());
                // a shorter suffix state sits at or below the failure link
                lemma_ac_shorter_suffix(labels, pats, next as int, fnext as int, v, kk);
            }
            let od = choose|od: int|
                0 <= od < pre_outs.len() && (#[trigger] pre_outs[od]).0 == fnext && pre_outs[
                    od].1 as int == kk;
            let jx = choose|jx: int|
                0 <= jx < outs.len() && #[trigger] outs[jx] == (next, pre_outs[od].1);
            assert(outs[jx].0 == next as int && outs[jx].1 as int == kk);
        }
    }
}

/// A suffix state no longer than the failure state is a suffix of the
/// failure state's label.
proof fn lemma_ac_shorter_suffix(
    labels: Seq<Seq<char>>,
    pats: Seq<Seq<char>>,
    next: int,
    fnext: int,
    v: int,
    kk: int,
)
    requires
        0 <= next < labels.len(),
        0 <= fnext < labels.len(),
        0 <= v < labels.len(),
        0 <= kk < pats.len(),
        labels[v] == pats[kk],
        labels[v].is_suffix_of(labels[next]),
        labels[v].len() < labels[next].len(),
        labels[fnext].is_suffix_of(labels[next]),
        labels[v].len() <= labels[fnext].len(),
    ensures
        pats[kk].is_suffix_of(labels[fnext]),
{
    lemma_suffix_of_suffix(labels[v], labels[fnext], labels[next]);
}

/// When the breadth-first pass moves on, every state with a label
/// shorter than the new head's label has already been taken from the
/// queue: its parent was popped earlier, so it was enqueued, and the
/// length ordering of the queue puts it before the new head.
proof fn lemma_ac_b4_advance(
    edges: Seq<(usize, char, usize)>,
    labels: Seq<Seq<char>>,
    queue: Seq<usize>,
    n: int,
    head0: int,
    state: int,
)
    requires
        ac_trie(edges, labels),
        labels.len() == n,
        n >= 1,
        labels[0] == Seq::<char>::empty(),
        forall|e: int|
            0 <= e < edges.len() ==> (#[trigger] edges[e]).0 < labels.len() && edges[e].2
                < labels.len() && edges[e].2 != 0 && labels[edges[e].2 as int] == labels[
                edges[e].0 as int].push(edges[e].1),
        0 <= head0,
        head0 + 1 < queue.len(),
        queue[head0] as int == state,
        0 <= state < n,
        forall|q: int|
            0 <= q < queue.len() ==> (#[trigger] queue[q]) < n && queue[q] != 0 && labels[
                queue[q] as int].len() >= 1,
        forall|j1: int, j2: int|
            0 <= j1 <= j2 < queue.len() ==> labels[#[trigger] queue[j1] as int].len() <= labels[
                #[trigger] queue[j2] as int].len(),
        forall|j: int|
            0 <= j < queue.len() ==> labels[#[trigger] queue[j] as int].len() <= labels[
                state].len() + 1,
        forall|e: int|
            0 <= e < edges.len() && (#[trigger] edges[e]).0 == 0 ==> in_queue(
                queue,
                edges[e].2 as int,
            ),
        forall|j: int, d: int|
            0 <= j < head0 + 1 && 0 <= d < edges.len() && (#[trigger] edges[d]).0 == #[trigger]
            queue[j] ==> in_queue(queue, edges[d].2 as int),
        forall|u: int|
            0 < u < n && (#[trigger] labels[u]).len() < labels[state].len() ==> in_queue_prefix(
                queue,
                head0,
                u,
            ),
    ensures
        forall|u: int|
            0 < u < n && (#[trigger] labels[u]).len() < labels[queue[head0 + 1] as int].len()
                ==> in_queue_prefix(queue, head0 + 1, u),
{
    let lnew = labels[queue[head0 + 1] as int].len();
    assert forall|u: int|
        0 < u < n && (#[trigger] labels[u]).len() < lnew implies in_queue_prefix(
        queue,
        head0 + 1,
        u,
    ) by {
        if labels[u].len() < labels[state].len() {
            let j = choose|j: int|
                0 <= j < head0 && j < queue.len() && (#[trigger] queue[j]) as int == u;
            assert(queue[j] as int == u);
        } else {
            assert(labels[u].len() <= labels[state].len());
            assert(in_queue(queue, u)) by {
                assert(has_in_edge(edges, u));
                let eu = choose|eu: int|
                    0 <= eu < edges.len() && (#[trigger] edges[eu]).2 as int == u;
                let pu = edges[eu].0 as int;
                assert(labels[u] == labels[pu].push(edges[eu].1));
                if labels[u].len() == 1 {
                    assert(labels[pu].len() == 0);
                    assert(labels[pu] == labels[0]);
                    assert(pu == 0);
                } else {
                    assert(pu != 0) by {
                        if pu == 0 {
                            assert(labels[u].len() == 1);
                        }
                    }
                    assert(labels[pu].len() < labels[state].len());
                    assert(in_queue_prefix(queue, head0, pu));
                    let j = choose|j: int|
                        0 <= j < head0 && j < queue.len() && (#[trigger] queue[j]) as int
                            == pu;
                    assert(edges[eu].0 == queue[j]);
                }
            }
            let j = choose|j: int| 0 <= j < queue.len() && (#[trigger] queue[j]) as int == u;
            assert(j != head0 + 1);
            if j > head0 + 1 {
                assert(labels[queue[head0 + 1] as int].len() <= labels[queue[j] as int].len());
            }
        }
    }
}

/// After the breadth-first pass, every state stood in the queue: its
/// parent chain leads back to the root, whose children were enqueued
/// first, and every dequeued state enqueued its children.
proof fn lemma_ac_enqueued(
    edges: Seq<(usize, char, usize)>,
    labels: Seq<Seq<char>>,
    queue: Seq<usize>,
    v: int,
)
    requires
        ac_trie(edges, labels),
        labels.len() >= 1,
        labels[0] == Seq::<char>::empty(),
        forall|e: int|
            0 <= e < edges.len() ==> (#[trigger] edges[e]).0 < labels.len() && edges[e].2
                < labels.len() && edges[e].2 != 0 && labels[edges[e].2 as int] == labels[
                edges[e].0 as int].push(edges[e].1),
        forall|e: int|
            0 <= e < edges.len() && (#[trigger] edges[e]).0 == 0 ==> in_queue(
                queue,
                edges[e].2 as int,
            ),
        forall|j: int, d: int|
            0 <= j < queue.len() && 0 <= d < edges.len() && (#[trigger] edges[d]).0 == #[trigger]
            queue[j] ==> in_queue(queue, edges[d].2 as int),
        0 < v < labels.len(),
        labels[v].len() >= 1,
    ensures
        in_queue(queue, v),
    decreases labels[v].len(),
{
    assert(has_in_edge(edges, v));
    let e = choose|e: int| 0 <= e < edges.len() && (#[trigger] edges[e]).2 as int == v;
    let p = edges[e].0 as int;
    assert(labels[v] == labels[p].push(edges[e].1));
    if labels[p].len() == 0 {
        assert(labels[p] == labels[0]);
        assert(p == 0);
    } else {
        assert(p != 0) by {
            if p == 0 {
                assert(labels[p].len() == 0);
            }
        }
        lemma_ac_enqueued(edges, labels, queue, p);
        let j = choose|j: int| 0 <= j < queue.len() && (#[trigger] queue[j]) as int == p;
        assert(edges[e].0 == queue[j]);
    }
}

/// Chases the failure links of `state` until a state with a `c` edge or
/// the root: on exit no longer suffix state of `state`'s label has a `c`
/// edge.
#[verifier::rlimit(100)]
fn ac_chase(
    edges: &Vec<(usize, char, usize)>,
    fail: &Vec<usize>,
    outs: &Vec<(usize, usize)>,
    state: usize,
    c: char,
    Ghost(labels): Ghost<Seq<Seq<char>>>,
    Ghost(pats): Ghost<Seq<Seq<char>>>,
    Ghost(done): Ghost<Set<int>>,
) -> (r: (usize, Option<usize>))
    requires
        ac_wf(edges@, fail@, outs@, labels, pats),
        ac_trie(edges@, labels),
        fail@.len() == labels.len(),
        (state as int) < labels.len(),
        state != 0,
        labels[state as int].len() >= 1,
        forall|v: int|
            done.contains(v) ==> 0 <= v < labels.len() && node_done(
                fail@,
                outs@,
                labels,
                pats,
                v,
            ),
        forall|v: int|
            0 <= v < labels.len() && (#[trigger] labels[v]).len() <= labels[
                state as int].len() ==> done.contains(v),
    ensures
        (r.0 as int) < labels.len(),
        labels[r.0 as int].is_suffix_of(labels[state as int]),
        labels[r.0 as int].len() < labels[state as int].len(),
        forall|u: int|
            0 <= u < labels.len() && (#[trigger] labels[u]).is_suffix_of(labels[state as int])
                && labels[u].len() < labels[state as int].len() && labels[u].len() > labels[
                r.0 as int].len() ==> !has_c_edge(edges@, u, c),
        (r.1 matches Some(t) ==> exists|e: int|
            0 <= e < edges@.len() && #[trigger] edges@[e] == (r.0, c, t)),
        (r.1 is None ==> !has_c_edge(edges@, r.0 as int, c) && r.0 == 0),
{
    let ghost n = labels.len();
    // chase the failure links for a state with a `c` edge
    let mut f = fail[state];
    let mut via: Option<usize> = ac_find_edge(&edges, f, c);
    proof {
    reveal(node_done);
    assert(done.contains(state as int));
    assert(node_done(fail@, outs@, labels, pats, state as int));
    assert(fail_longest(fail@, labels, state as int));
    }
    while via.is_none() && f != 0
    invariant
        ac_wf(edges@, fail@, outs@, labels, pats),
        ac_trie(edges@, labels),
        n == fail@.len() == labels.len(),
        state < n,
        state != 0,
        f < n,
        labels[f as int].is_suffix_of(labels[state as int]),
        labels[f as int].len() < labels[state as int].len(),
        forall|v: int|
            done.contains(v) ==> 0 <= v < n && node_done(
                fail@,
                outs@,
                labels,
                pats,
                v,
            ),
        forall|v: int|
            0 <= v < n && (#[trigger] labels[v]).len() <= labels[
                state as int].len() ==> done.contains(v),
        forall|u: int|
            0 <= u < n && (#[trigger] labels[u]).is_suffix_of(
                labels[state as int],
            ) && labels[u].len() < labels[state as int].len() && labels[
                u].len() > labels[f as int].len() ==> !has_c_edge(
                edges@,
                u,
                c,
            ),
        (via matches Some(t) ==> exists|e: int|
            0 <= e < edges@.len() && #[trigger] edges@[e] == (f, c, t)),
        (via is None ==> !has_c_edge(edges@, f as int, c)),
    decreases labels[f as int].len(),
    {
    proof {
        lemma_suffix_trans(
            labels[fail@[f as int] as int],
            labels[f as int],
            labels[state as int],
        );
        let ghost fold = f as int;
        reveal(node_done);
        assert(done.contains(fold));
        assert(node_done(fail@, outs@, labels, pats, fold));
        assert(fail_longest(fail@, labels, fold));
        // states between the old and the new chase point
        // would be longer suffix states than the failure
        // link allows, or the point itself, which has no
        // `c` edge
        assert forall|u: int|
            0 <= u < n && (#[trigger] labels[u]).is_suffix_of(
                labels[state as int],
            ) && labels[u].len() < labels[state as int].len() && labels[
                u].len() > labels[fail@[fold] as int].len() implies !has_c_edge(
            edges@,
            u,
            c,
        ) by {
            if labels[u].len() > labels[fold].len() {
            } else if labels[u].len() == labels[fold].len() {
                lemma_suffix_of_suffix(
                    labels[u],
                    labels[fold],
                    labels[state as int],
                );
                assert(labels[u] =~= labels[fold]);
                assert(u == fold);
            } else {
                lemma_suffix_of_suffix(
                    labels[u],
                    labels[fold],
                    labels[state as int],
                );
                assert(labels[u].len() <= labels[fail@[fold] as int].len());
            }
        }
    }
        f = fail[f];
        via = ac_find_edge(&edges, f, c);
    }
    (f, via)
}

/// Processes one trie edge `state --c--> next` of the breadth-first
/// pass: chases the failure links of `state` for a state with a `c`
/// edge, sets the failure link of `next`, copies the failure state's
/// outputs onto `next`, and enqueues `next` once.
#[verifier::rlimit(100)]
fn ac_process_child(
    edges: &Vec<(usize, char, usize)>,
    fail: &mut Vec<usize>,
    outs: &mut Vec<(usize, usize)>,
    queue: &mut Vec<usize>,
    enqueued: &mut Vec<bool>,
    state: usize,
    c: char,
    next: usize,
    Ghost(labels): Ghost<Seq<Seq<char>>>,
    Ghost(pats): Ghost<Seq<Seq<char>>>,
    Ghost(done_in): Ghost<Set<int>>,
) -> (done_out: Ghost<Set<int>>)
    requires
    ac_wf(edges@, old(fail)@, old(outs)@, labels, pats),
    ac_trie(edges@, labels),
    forall|kk: int|
        0 <= kk < pats.len() ==> #[trigger] pat_out_exact(old(outs)@, labels, pats, kk),
    old(fail)@.len() == labels.len() == old(enqueued)@.len(),
    old(queue)@.len() <= labels.len(),
    old(queue)@.len() == count_true(old(enqueued)@),
    forall|v: int|
        0 <= v < labels.len() ==> ((#[trigger] old(enqueued)@[v]) <==> in_queue(
            old(queue)@,
            v,
        )),
    (state as int) < labels.len(),
    state != 0,
    labels[state as int].len() >= 1,
    (next as int) < labels.len(),
    next != 0,
    labels[next as int] == labels[state as int].push(c),
    forall|v: int|
        done_in.contains(v) ==> 0 <= v < labels.len() && node_done(
            old(fail)@,
            old(outs)@,
            labels,
            pats,
            v,
        ),
    forall|v: int|
        0 <= v < labels.len() && labels[v].len() <= 1 ==> done_in.contains(v),
    forall|v: int|
        0 <= v < labels.len() && (#[trigger] labels[v]).len() <= labels[
            state as int].len() ==> done_in.contains(v),
    ensures
    final(fail)@.len() == old(fail)@.len(),
    forall|v: int|
        0 <= v < labels.len() && v != next as int ==> #[trigger] final(fail)@[v] == old(
            fail,
        )@[v],
    old(outs)@.len() <= final(outs)@.len(),
    forall|d: int|
        0 <= d < old(outs)@.len() ==> #[trigger] final(outs)@[d] == old(outs)@[d],
    forall|d: int|
        old(outs)@.len() <= d < final(outs)@.len() ==> (#[trigger] final(outs)@[d]).0
            == next,
    ac_wf(edges@, final(fail)@, final(outs)@, labels, pats),
    forall|kk: int|
        0 <= kk < pats.len() ==> #[trigger] pat_out_exact(final(outs)@, labels, pats, kk),
    done_out@ == done_in.insert(next as int),
    forall|v: int|
        done_out@.contains(v) ==> 0 <= v < labels.len() && node_done(
            final(fail)@,
            final(outs)@,
            labels,
            pats,
            v,
        ),
    final(enqueued)@.len() == old(enqueued)@.len(),
    (final(queue)@ == old(queue)@ && final(enqueued)@ == old(enqueued)@) || (final(queue)@
        == old(queue)@.push(next) && final(enqueued)@ == old(enqueued)@.update(
        next as int,
        true,
    ) && !old(enqueued)@[next as int]),
    in_queue(final(queue)@, next as int),
    final(queue)@.len() == count_true(final(enqueued)@),
    final(queue)@.len() <= labels.len(),
    forall|v: int|
        0 <= v < labels.len() ==> ((#[trigger] final(enqueued)@[v]) <==> in_queue(
            final(queue)@,
            v,
        )),
{
    let ghost mut done: Set<int> = done_in;
    let ghost n = labels.len();
    let (f, via) = ac_chase(
        &edges,
        &fail,
        &outs,
        state,
        c,
        Ghost(labels),
        Ghost(pats),
        Ghost(done),
    );
    let fnext: usize = match via {
        Some(t) => t,
        None => 0,
    };
    proof {
        if via is Some {
            let t = via->0;
            let ee = choose|ee: int|
                0 <= ee < edges@.len() && #[trigger] edges@[ee] == (f, c, t);
            assert(labels[t as int] == labels[f as int].push(c));
            lemma_suffix_push(labels[f as int], labels[state as int], c);
            assert(labels[fnext as int].is_suffix_of(labels[next as int]));
            assert(labels[fnext as int].len() < labels[next as int].len());
        } else {
            assert(labels[0].is_suffix_of(labels[next as int])) by {
                assert(labels[next as int].skip(labels[next as int].len() - 0)
                    =~= Seq::<char>::empty());
            }
            assert(labels[0].len() < labels[next as int].len());
        }
    }
    let ghost old_fail = fail@;
    fail[next] = fnext;
    proof {
        assert(fail@ =~= old_fail.update(next as int, fnext));
        // the new failure link reaches the longest proper
        // suffix state
        lemma_ac_fail_next(
            edges@,
            labels,
            state as int,
            c,
            next as int,
            f as int,
            via is Some,
            fnext as int,
        );
        // every other state's finality is untouched
        assert forall|v: int| done.contains(v) && v != next as int implies
            node_done(fail@, outs@, labels, pats, v) by {
            reveal(node_done);
            assert(node_done(old_fail, outs@, labels, pats, v));
            assert(fail@[v] == old_fail[v]);
        }
    }
    // extend the outputs of `next` with those of its failure state
    let ghost pre_outs = outs@;
    let olen = outs.len();
    let mut o: usize = 0;
    while o < olen
        invariant
            ac_wf(edges@, fail@, outs@, labels, pats),
            ac_trie(edges@, labels),
            n == fail@.len() == labels.len(),
            next < n,
            fnext < n,
            labels[fnext as int].is_suffix_of(labels[next as int]),
            olen == pre_outs.len() <= outs@.len(),
            forall|d: int| 0 <= d < olen ==> #[trigger] outs@[d] == pre_outs[d],
            0 <= o <= olen,
            forall|kk: int|
                0 <= kk < pats.len() ==> #[trigger] pat_out_exact(
                    outs@,
                    labels,
                    pats,
                    kk,
                ),
            forall|v: int|
                done.contains(v) ==> 0 <= v < n && (v == next as int || node_done(
                    fail@,
                    outs@,
                    labels,
                    pats,
                    v,
                )),
            forall|v: int|
                0 <= v < n && (#[trigger] labels[v]).len() <= labels[
                    state as int].len() ==> done.contains(v),
            forall|d: int|
                0 <= d < o && (#[trigger] pre_outs[d]).0 == fnext ==> exists|
                    jx: int,
                |
                    0 <= jx < outs@.len() && #[trigger] outs@[jx] == (
                    next,
                    pre_outs[d].1,
                    ),
            forall|d: int|
                olen <= d < outs@.len() ==> (#[trigger] outs@[d]).0 == next,
        decreases olen - o,
    {
        let (os, ok) = outs[o];
        let ghost mid_outs = outs@;
        if os == fnext {
            proof {
                assert(outs@[o as int] == (os, ok));
                lemma_suffix_trans(
                    pats[ok as int],
                    labels[fnext as int],
                    labels[next as int],
                );
            }
            outs.push((next, ok));
            proof {
                assert(outs@[outs@.len() - 1] == (next, ok));
                assert forall|kk: int| 0 <= kk < pats.len() implies #[trigger]
                    pat_out_exact(outs@, labels, pats, kk) by {
                    reveal(pat_out_exact);
                    assert(pat_out_exact(mid_outs, labels, pats, kk));
                    let ox = choose|ox: int|
                        0 <= ox < mid_outs.len() && (#[trigger] mid_outs[
                            ox]).1 as int == kk && labels[mid_outs[ox].0 as int]
                            == pats[kk];
                    assert(outs@[ox] == mid_outs[ox]);
                }
                assert forall|v: int|
                    done.contains(v) && v != next as int implies node_done(
                    fail@,
                    outs@,
                    labels,
                    pats,
                    v,
                ) by {
                    reveal(node_done);
                    assert(node_done(fail@, mid_outs, labels, pats, v));
                    assert forall|kk: int|
                        0 <= kk < pats.len() && (#[trigger] pats[kk]).len() > 0
                            && pats[kk].is_suffix_of(labels[v]) implies exists|
                        ox: int,
                    |
                        0 <= ox < outs@.len() && (#[trigger] outs@[ox]).0 == v
                            && outs@[ox].1 == kk by {
                        let ox = choose|ox: int|
                            0 <= ox < mid_outs.len() && (#[trigger] mid_outs[
                                ox]).0 == v && mid_outs[ox].1 == kk;
                        assert(outs@[ox] == mid_outs[ox]);
                    }
                }
            }
        }
        proof {
            assert forall|d: int|
                0 <= d < o + 1 && (#[trigger] pre_outs[d]).0 == fnext implies
                exists|jx: int|
                    0 <= jx < outs@.len() && #[trigger] outs@[jx] == (
                    next,
                    pre_outs[d].1,
                    ) by {
                if d < o {
                    let jx = choose|jx: int|
                        0 <= jx < mid_outs.len() && #[trigger] mid_outs[jx] == (
                        next,
                        pre_outs[d].1,
                        );
                    assert(outs@[jx] == mid_outs[jx]);
                } else {
                    assert(pre_outs[d] == (os, ok));
                    assert(outs@[outs@.len() - 1] == (next, ok));
                }
            }
        }
        o = o + 1;
    }
    proof {
        // the outputs of `next` are now complete
        assert(done.contains(fnext as int)) by {
            assert(labels[fnext as int].len() <= labels[state as int].len());
        }
        assert(fnext != next) by {
            assert(labels[fnext as int].len() < labels[next as int].len());
        }
        assert(outs_complete(pre_outs, labels, pats, fnext as int)) by {
            reveal(node_done);
            assert(node_done(fail@, outs@, labels, pats, fnext as int));
            assert forall|kk: int|
                0 <= kk < pats.len() && (#[trigger] pats[kk]).len() > 0 && pats[
                kk].is_suffix_of(labels[fnext as int]) implies exists|ox: int|
                0 <= ox < pre_outs.len() && (#[trigger] pre_outs[ox]).0 == fnext
                    && pre_outs[ox].1 == kk by {
                let ox = choose|ox: int|
                    0 <= ox < outs@.len() && (#[trigger] outs@[ox]).0
                        == fnext as int && outs@[ox].1 == kk;
                assert(ox < olen);
                assert(pre_outs[ox] == outs@[ox]);
            }
        }
        assert forall|ox: int| 0 <= ox < pre_outs.len() implies (#[trigger]
            pre_outs[ox]).0 < labels.len() && pre_outs[ox].1 < pats.len() && pats[
            pre_outs[ox].1 as int].is_suffix_of(labels[pre_outs[ox].0 as int]) by {
            assert(pre_outs[ox] == outs@[ox]);
        }
        assert forall|ox: int| 0 <= ox < outs@.len() implies (#[trigger] outs@[
            ox]).0 < labels.len() && outs@[ox].1 < pats.len() by {}
        lemma_ac_outs_next(outs@, pre_outs, labels, pats, next, fnext);
        done = done.insert(next as int);
        assert forall|v: int| done.contains(v) implies 0 <= v < n && node_done(
            fail@,
            outs@,
            labels,
            pats,
            v,
        ) by {
            reveal(node_done);
            if v == next as int {
                assert(fail_longest(fail@, labels, v));
                assert(outs_complete(outs@, labels, pats, v));
            }
        }
    }
    if !enqueued[next] {
        proof {
            lemma_count_true_lt(enqueued@, next as int);
            lemma_count_true_set(enqueued@, next as int);
        }
        let ghost old_q = queue@;
        let ghost old_enq = enqueued@;
        enqueued[next] = true;
        queue.push(next);
        proof {
            assert(enqueued@ =~= old_enq.update(next as int, true));
            lemma_count_true_le(enqueued@);
            assert(queue@[queue@.len() - 1] == next);
            assert(in_queue(queue@, next as int));
            assert forall|v: int| 0 <= v < labels.len() implies ((#[trigger] enqueued@[v])
                <==> in_queue(queue@, v)) by {
                if v == next as int {
                    assert(queue@[queue@.len() - 1] as int == v);
                } else {
                    if in_queue(queue@, v) {
                        let j = choose|j: int|
                            0 <= j < queue@.len() && (#[trigger] queue@[j]) as int == v;
                        assert(j < old_q.len());
                        assert(old_q[j] as int == v);
                    }
                    if in_queue(old_q, v) {
                        lemma_in_queue_push(old_q, next, v);
                    }
                }
            }
        }
    } else {
        proof {
            assert(in_queue(queue@, next as int));
        }
    }
    Ghost(done)
}

/// Builds the Aho-Corasick automaton for the patterns: a trie, failure
/// links computed by a breadth-first pass over the trie, and output sets
/// extended along the failure links.
#[verifier::rlimit(100)]
fn ac_build(patterns: &Vec<&str>) -> (r: (
    Vec<(usize, char, usize)>,
    Vec<usize>,
    Vec<(usize, usize)>,
    Ghost<Seq<Seq<char>>>,
))
    ensures
        ac_ready(r.0@, r.1@, r.2@, r.3@, patterns.deep_view()),
{
    let ghost pats = patterns.deep_view();
    let mut edges: Vec<(usize, char, usize)> = Vec::new();
    let mut fail: Vec<usize> = vec![0];
    let mut outs: Vec<(usize, usize)> = Vec::new();
    let ghost mut labels: Seq<Seq<char>> = seq![Seq::<char>::empty()];
    // trie construction
    let mut k: usize = 0;
    while k < patterns.len()
        invariant
            pats == patterns.deep_view(),
            fail@.len() == labels.len(),
            forall|s: int| 0 <= s < fail@.len() ==> #[trigger] fail@[s] == 0,
            ac_wf(edges@, fail@, outs@, labels, pats),
            ac_trie(edges@, labels),
            forall|kk: int| 0 <= kk < k ==> #[trigger] pat_out_exact(outs@, labels, pats, kk),
        decreases patterns.len() - k,
    {
        let pat = patterns[k];
        let plen = pat.unicode_len();
        let mut cur: usize = 0;
        let mut ci: usize = 0;
        proof {
            assert(pat@.take(0) =~= Seq::<char>::empty());
        }
        while ci < plen
            invariant
                pats == patterns.deep_view(),
                k < patterns@.len(),
                pat@ == pats[k as int],
                plen == pat@.len(),
                0 <= ci <= plen,
                fail@.len() == labels.len(),
                forall|s: int| 0 <= s < fail@.len() ==> #[trigger] fail@[s] == 0,
                ac_wf(edges@, fail@, outs@, labels, pats),
                ac_trie(edges@, labels),
                forall|kk: int|
                    0 <= kk < k ==> #[trigger] pat_out_exact(outs@, labels, pats, kk),
                cur < labels.len(),
                labels[cur as int] == pat@.take(ci as int),
            decreases plen - ci,
        {
            let c = pat.get_char(ci);
            proof {
                assert(pat@.take(ci + 1) =~= pat@.take(ci as int).push(pat@[ci as int]));
            }
            match ac_find_edge(&edges, cur, c) {
                Some(t) => {
                    proof {
                        let e = choose|e: int|
                            0 <= e < edges@.len() && #[trigger] edges@[e] == (cur, c, t);
                        assert(labels[t as int] == labels[cur as int].push(c));
                    }
                    cur = t;
                },
                None => {
                    let newid = fail.len();
                    let ghost old_edges = edges@;
                    let ghost old_labels = labels;
                    fail.push(0);
                    proof {
                        labels = labels.push(labels[cur as int].push(c));
                    }
                    edges.push((cur, c, newid));
                    proof {
                        assert(labels[newid as int] == labels[cur as int].push(c));
                        // the trie stays deterministic with distinct labels
                        assert forall|e1: int, e2: int|
                            0 <= e1 < edges@.len() && 0 <= e2 < edges@.len() && (
                            #[trigger] edges@[e1]).0 == (#[trigger] edges@[e2]).0 && edges@[
                            e1].1 == edges@[e2].1 implies e1 == e2 by {
                            if e1 != e2 {
                                if e1 == edges@.len() - 1 || e2 == edges@.len() - 1 {
                                    assert(has_c_edge(old_edges, cur as int, c));
                                }
                            }
                        }
                        assert forall|e1: int, e2: int|
                            0 <= e1 < edges@.len() && 0 <= e2 < edges@.len() && (
                            #[trigger] edges@[e1]).2 == (#[trigger] edges@[e2]).2 implies e1
                            == e2 by {
                            if e1 != e2 {
                                if e1 == edges@.len() - 1 {
                                    assert(old_edges[e2].2 < old_labels.len());
                                }
                                if e2 == edges@.len() - 1 {
                                    assert(old_edges[e1].2 < old_labels.len());
                                }
                            }
                        }
                        assert forall|s1: int, s2: int|
                            0 <= s1 < labels.len() && 0 <= s2 < labels.len() && #[trigger]
                            labels[s1] == #[trigger] labels[s2] implies s1 == s2 by {
                            if s1 != s2 {
                                let fresh = labels.len() - 1;
                                if s1 == fresh || s2 == fresh {
                                    let v = if s1 == fresh {
                                        s2
                                    } else {
                                        s1
                                    };
                                    assert(labels[v] == labels[cur as int].push(c));
                                    assert(labels[v].len() >= 1);
                                    assert(v != 0);
                                    assert(has_in_edge(old_edges, v));
                                    let e = choose|e: int|
                                        0 <= e < old_edges.len() && (#[trigger] old_edges[
                                        e]).2 as int == v;
                                    let src = old_edges[e].0 as int;
                                    let ch = old_edges[e].1;
                                    assert(labels[v] == old_labels[src].push(ch));
                                    assert(old_labels[src].push(ch).last() == ch);
                                    assert(labels[cur as int].push(c).last() == c);
                                    assert(ch == c);
                                    assert(old_labels[src].push(ch).drop_last()
                                        =~= old_labels[src]);
                                    assert(labels[cur as int].push(c).drop_last() =~= labels[
                                        cur as int]);
                                    assert(old_labels[src] == old_labels[cur as int]);
                                    assert(src == cur as int);
                                    assert(edges@[e] == old_edges[e]);
                                    assert(has_c_edge(old_edges, cur as int, c));
                                }
                            }
                        }
                        assert forall|kk: int| 0 <= kk < k implies #[trigger] pat_out_exact(
                            outs@,
                            labels,
                            pats,
                            kk,
                        ) by {
                            reveal(pat_out_exact);
                            assert(pat_out_exact(outs@, old_labels, pats, kk));
                            let o = choose|o: int|
                                0 <= o < outs@.len() && (#[trigger] outs@[o]).1 as int == kk
                                    && old_labels[outs@[o].0 as int] == pats[kk];
                            assert(labels[outs@[o].0 as int] == old_labels[outs@[o].0 as int]);
                        }
                        assert forall|v: int| 0 < v < labels.len() implies #[trigger]
                            has_in_edge(edges@, v) by {
                            if v < labels.len() - 1 {
                                assert(has_in_edge(old_edges, v));
                                let e = choose|e: int|
                                    0 <= e < old_edges.len() && (#[trigger] old_edges[
                                    e]).2 as int == v;
                                assert(edges@[e] == old_edges[e]);
                            } else {
                                assert(edges@[edges@.len() - 1].2 as int == v);
                            }
                        }
                        assert(labels[0] == Seq::<char>::empty());
                        assert forall|s: int| 0 <= s < fail@.len() implies (#[trigger] fail@[s])
                            < labels.len() && labels[fail@[s] as int].is_suffix_of(labels[s]) && (
                        s != 0 ==> labels[fail@[s] as int].len() < labels[s].len()) by {
                            assert(fail@[s] == 0);
                            assert(labels[s].skip(labels[s].len() - 0) =~= Seq::<char>::empty());
                            if s != 0 {
                                if s < labels.len() - 1 {
                                } else {
                                    assert(labels[s].len() >= 1);
                                }
                            }
                        }
                    }
                    cur = newid;
                },
            }
            ci = ci + 1;
        }
        proof {
            assert(pat@.take(plen as int) =~= pat@);
        }
        let ghost old_outs = outs@;
        outs.push((cur, k));
        proof {
            assert(labels[cur as int].skip(0) =~= labels[cur as int]);
            assert(pats[k as int].is_suffix_of(labels[cur as int]));
            assert forall|kk: int| 0 <= kk < k + 1 implies #[trigger] pat_out_exact(
                outs@,
                labels,
                pats,
                kk,
            ) by {
                reveal(pat_out_exact);
                if kk < k {
                    assert(pat_out_exact(old_outs, labels, pats, kk));
                    let o = choose|o: int|
                        0 <= o < old_outs.len() && (#[trigger] old_outs[o]).1 as int == kk
                            && labels[old_outs[o].0 as int] == pats[kk];
                    assert(outs@[o] == old_outs[o]);
                } else {
                    assert(outs@[outs@.len() - 1] == (cur, k));
                    assert(labels[cur as int] == pats[k as int]);
                }
            }
        }
        k = k + 1;
    }
    // failure links, in breadth-first order over the trie
    let n = fail.len();
    let mut queue: Vec<usize> = Vec::new();
    let mut enqueued: Vec<bool> = Vec::new();
    let mut w3: usize = 0;
    while w3 < n
        invariant
            0 <= w3 <= n,
            enqueued@.len() == w3,
            forall|d: int| 0 <= d < w3 ==> !(#[trigger] enqueued@[d]),
            count_true(enqueued@) == 0,
        decreases n - w3,
    {
        let ghost old_enq = enqueued@;
        enqueued.push(false);
        proof {
            assert(enqueued@.drop_last() =~= old_enq);
        }
        w3 = w3 + 1;
    }
    let ghost mut done: Set<int> = Set::new(|v: int| 0 <= v < labels.len() && labels[v].len() <= 1);
    proof {
        // the root and every single-character state are already final
        assert forall|v: int| done.contains(v) implies 0 <= v < n && node_done(
            fail@,
            outs@,
            labels,
            pats,
            v,
        ) by {
            reveal(node_done);
            reveal(pat_out_exact);
            assert forall|u: int|
                0 <= u < labels.len() && (#[trigger] labels[u]).is_suffix_of(labels[v])
                    && labels[u].len() < labels[v].len() implies labels[u].len() <= labels[
                fail@[v] as int].len() by {}
            assert forall|kk: int|
                0 <= kk < pats.len() && (#[trigger] pats[kk]).len() > 0 && pats[
                kk].is_suffix_of(labels[v]) implies exists|o: int|
                0 <= o < outs@.len() && (#[trigger] outs@[o]).0 == v && outs@[o].1 == kk by {
                assert(pats[kk].len() == labels[v].len());
                assert(pats[kk] =~= labels[v]);
                assert(pat_out_exact(outs@, labels, pats, kk));
                let o = choose|o: int|
                    0 <= o < outs@.len() && (#[trigger] outs@[o]).1 as int == kk && labels[
                        outs@[o].0 as int] == pats[kk];
                assert(outs@[o].0 == v);
            }
        }
    }
    let mut e: usize = 0;
    while e < edges.len()
        invariant
            ac_wf(edges@, fail@, outs@, labels, pats),
            ac_trie(edges@, labels),
            forall|kk: int|
                0 <= kk < pats.len() ==> #[trigger] pat_out_exact(outs@, labels, pats, kk),
            n == fail@.len() == labels.len() == enqueued@.len(),
            queue@.len() <= n,
            0 <= e <= edges@.len(),
            forall|q: int|
                0 <= q < queue@.len() ==> #[trigger] queue@[q] < n && queue@[q] != 0 && labels[
                    queue@[q] as int].len() == 1,
            queue@.len() == count_true(enqueued@),
            forall|v: int| 0 <= v < n ==> ((#[trigger] enqueued@[v]) <==> in_queue(queue@, v)),
            forall|j1: int, j2: int|
                0 <= j1 < j2 < queue@.len() ==> #[trigger] queue@[j1] != #[trigger] queue@[j2],
            forall|d: int|
                0 <= d < e && (#[trigger] edges@[d]).0 == 0 ==> in_queue(
                    queue@,
                    edges@[d].2 as int,
                ),
            forall|v: int| done.contains(v) ==> 0 <= v < n && node_done(fail@, outs@, labels, pats, v),
            forall|v: int| 0 <= v < n && labels[v].len() <= 1 ==> done.contains(v),
        decreases edges@.len() - e,
    {
        let (src, _c, tgt) = edges[e];
        proof {
            assert(edges@[e as int] == (src, _c, tgt));
        }
        if src == 0 {
            if !enqueued[tgt] {
                proof {
                    lemma_count_true_lt(enqueued@, tgt as int);
                    lemma_count_true_set(enqueued@, tgt as int);
                }
                let ghost old_q = queue@;
                let ghost old_enq = enqueued@;
                enqueued[tgt] = true;
                queue.push(tgt);
                proof {
                    lemma_count_true_le(enqueued@);
                    assert(labels[tgt as int] == labels[0].push(_c));
                    assert forall|v: int| 0 <= v < n implies ((#[trigger] enqueued@[v])
                        <==> in_queue(queue@, v)) by {
                        if v == tgt as int {
                            assert(queue@[queue@.len() - 1] as int == v);
                        } else {
                            if in_queue(queue@, v) {
                                let j = choose|j: int|
                                    0 <= j < queue@.len() && (#[trigger] queue@[j]) as int == v;
                                assert(j < old_q.len());
                                assert(old_q[j] as int == v);
                            }
                            if in_queue(old_q, v) {
                                let j = choose|j: int|
                                    0 <= j < old_q.len() && (#[trigger] old_q[j]) as int == v;
                                assert(queue@[j] as int == v);
                            }
                        }
                    }
                    assert forall|d: int|
                        0 <= d < e + 1 && (#[trigger] edges@[d]).0 == 0 implies in_queue(
                        queue@,
                        edges@[d].2 as int,
                    ) by {
                        if d < e {
                            assert(in_queue(old_q, edges@[d].2 as int));
                            let j = choose|j: int|
                                0 <= j < old_q.len() && (#[trigger] old_q[j]) as int == edges@[
                                    d].2 as int;
                            assert(queue@[j] as int == edges@[d].2 as int);
                        } else {
                            assert(queue@[queue@.len() - 1] == tgt);
                        }
                    }
                }
            } else {
                proof {
                    assert(in_queue(queue@, tgt as int));
                }
            }
        }
        e = e + 1;
    }
    let mut head: usize = 0;
    proof {
        if queue@.len() > 0 {
            assert forall|u: int|
                0 < u < n && (#[trigger] labels[u]).len() < labels[queue@[0] as int].len()
                    implies in_queue_prefix(queue@, 0, u) by {
                assert(labels[queue@[0] as int].len() == 1);
                assert(labels[u].len() == 0);
                assert(labels[u] =~= labels[0]);
                assert(u == 0);
            }
        }
    }
    while head < queue.len()
        invariant
            ac_wf(edges@, fail@, outs@, labels, pats),
            ac_trie(edges@, labels),
            forall|kk: int|
                0 <= kk < pats.len() ==> #[trigger] pat_out_exact(outs@, labels, pats, kk),
            n == fail@.len() == labels.len() == enqueued@.len(),
            queue@.len() <= n,
            0 <= head <= queue@.len(),
            forall|q: int|
                0 <= q < queue@.len() ==> #[trigger] queue@[q] < n && queue@[q] != 0 && labels[
                    queue@[q] as int].len() >= 1,
            queue@.len() == count_true(enqueued@),
            forall|v: int| 0 <= v < n ==> ((#[trigger] enqueued@[v]) <==> in_queue(queue@, v)),
            forall|j1: int, j2: int|
                0 <= j1 < j2 < queue@.len() ==> #[trigger] queue@[j1] != #[trigger] queue@[j2],
            forall|j1: int, j2: int|
                0 <= j1 <= j2 < queue@.len() ==> labels[#[trigger] queue@[j1] as int].len()
                    <= labels[#[trigger] queue@[j2] as int].len(),
            head == 0 ==> forall|j: int|
                0 <= j < queue@.len() ==> labels[#[trigger] queue@[j] as int].len() == 1,
            head >= 1 ==> forall|j: int|
                0 <= j < queue@.len() ==> labels[#[trigger] queue@[j] as int].len() <= labels[
                    queue@[head - 1] as int].len() + 1,
            forall|d: int|
                0 <= d < edges@.len() && (#[trigger] edges@[d]).0 == 0 ==> in_queue(
                    queue@,
                    edges@[d].2 as int,
                ),
            forall|v: int| done.contains(v) ==> 0 <= v < n && node_done(fail@, outs@, labels, pats, v),
            forall|v: int| 0 <= v < n && labels[v].len() <= 1 ==> done.contains(v),
            forall|j: int, d: int|
                0 <= j < head && 0 <= d < edges@.len() && (#[trigger] edges@[d]).0 == #[trigger]
                queue@[j] ==> done.contains(edges@[d].2 as int) && in_queue(
                    queue@,
                    edges@[d].2 as int,
                ),
            head < queue@.len() ==> forall|u: int|
                0 < u < n && (#[trigger] labels[u]).len() < labels[queue@[head as int] as int].len()
                    ==> in_queue_prefix(queue@, head as int, u),
        decreases n - head,
    {
        let state = queue[head];
        let ghost head0 = head as int;
        proof {
            assert(queue@[head0] == state);
            // every state with a label no longer than this one is final
            assert forall|u: int|
                0 <= u < n && (#[trigger] labels[u]).len() <= labels[state as int].len()
                    implies done.contains(u) by {
                if labels[u].len() >= 2 {
                    assert(u != 0);
                    assert(has_in_edge(edges@, u));
                    let eu = choose|eu: int|
                        0 <= eu < edges@.len() && (#[trigger] edges@[eu]).2 as int == u;
                    let pu = edges@[eu].0 as int;
                    assert(labels[u] == labels[pu].push(edges@[eu].1));
                    assert(labels[pu].len() < labels[state as int].len());
                    assert(pu != 0) by {
                        if pu == 0 {
                            assert(labels[u].len() == 1);
                        }
                    }
                    assert(in_queue_prefix(queue@, head0, pu));
                    let j = choose|j: int|
                        0 <= j < head0 && j < queue@.len() && (#[trigger] queue@[j]) as int
                            == pu;
                    assert(done.contains(edges@[eu].2 as int));
                }
            }
        }
        head = head + 1;
        let mut e2: usize = 0;
        while e2 < edges.len()
            invariant
                ac_wf(edges@, fail@, outs@, labels, pats),
                ac_trie(edges@, labels),
                forall|kk: int|
                    0 <= kk < pats.len() ==> #[trigger] pat_out_exact(outs@, labels, pats, kk),
                n == fail@.len() == labels.len() == enqueued@.len(),
                queue@.len() <= n,
                state < n,
                state != 0,
                labels[state as int].len() >= 1,
                0 <= e2 <= edges@.len(),
                0 <= head0,
                head == head0 + 1,
                head <= queue@.len(),
                queue@[head0] == state,
                forall|q: int|
                    0 <= q < queue@.len() ==> #[trigger] queue@[q] < n && queue@[q] != 0
                        && labels[queue@[q] as int].len() >= 1,
                queue@.len() == count_true(enqueued@),
                forall|v: int|
                    0 <= v < n ==> ((#[trigger] enqueued@[v]) <==> in_queue(queue@, v)),
                forall|j1: int, j2: int|
                    0 <= j1 < j2 < queue@.len() ==> #[trigger] queue@[j1] != #[trigger] queue@[
                        j2],
                forall|j1: int, j2: int|
                    0 <= j1 <= j2 < queue@.len() ==> labels[#[trigger] queue@[j1] as int].len()
                        <= labels[#[trigger] queue@[j2] as int].len(),
                forall|j: int|
                    0 <= j < queue@.len() ==> labels[#[trigger] queue@[j] as int].len()
                        <= labels[state as int].len() + 1,
                forall|d: int|
                    0 <= d < edges@.len() && (#[trigger] edges@[d]).0 == 0 ==> in_queue(
                        queue@,
                        edges@[d].2 as int,
                    ),
                forall|v: int|
                    done.contains(v) ==> 0 <= v < n && node_done(
                        fail@,
                        outs@,
                        labels,
                        pats,
                        v,
                    ),
                forall|v: int| 0 <= v < n && labels[v].len() <= 1 ==> done.contains(v),
                forall|v: int|
                    0 <= v < n && (#[trigger] labels[v]).len() <= labels[state as int].len()
                        ==> done.contains(v),
                forall|j: int, d: int|
                    0 <= j < head0 && 0 <= d < edges@.len() && (#[trigger] edges@[d]).0
                        == #[trigger] queue@[j] ==> done.contains(edges@[d].2 as int)
                        && in_queue(queue@, edges@[d].2 as int),
                forall|d: int|
                    0 <= d < e2 && (#[trigger] edges@[d]).0 == state ==> done.contains(
                        edges@[d].2 as int,
                    ) && in_queue(queue@, edges@[d].2 as int),
                forall|u: int|
                    0 < u < n && (#[trigger] labels[u]).len() < labels[state as int].len()
                        ==> in_queue_prefix(queue@, head0, u),
            decreases edges@.len() - e2,
        {
            let (src, c, next) = edges[e2];
            if src == state {
                proof {
                    assert(edges@[e2 as int] == (src, c, next));
                    assert(labels[next as int] == labels[state as int].push(c));
                }
                let ghost old_q2 = queue@;
                let ghost old_enq2 = enqueued@;
                let done2 = ac_process_child(
                    &edges,
                    &mut fail,
                    &mut outs,
                    &mut queue,
                    &mut enqueued,
                    state,
                    c,
                    next,
                    Ghost(labels),
                    Ghost(pats),
                    Ghost(done),
                );
                proof {
                    done = done2@;
                    if queue@ != old_q2 {
                        assert(queue@ == old_q2.push(next));
                        assert(!old_enq2[next as int]);
                        assert(!in_queue(old_q2, next as int));
                        assert(queue@[head0] == old_q2[head0]);
                        assert(labels[next as int].len() == labels[state as int].len() + 1);
                        lemma_ac_enqueue_frames(
                            edges@,
                            labels,
                            old_q2,
                            next,
                            old_enq2,
                            enqueued@,
                            n as int,
                            head0,
                            e2 as int,
                            state,
                            done,
                        );
                        assert forall|j1: int, j2: int|
                            0 <= j1 < j2 < queue@.len() implies #[trigger] queue@[j1]
                                != #[trigger] queue@[j2] by {
                            if j2 == queue@.len() - 1 {
                                assert(queue@[j1] == old_q2[j1]);
                                if queue@[j1] == next {
                                    assert(in_queue(old_q2, next as int));
                                }
                            } else {
                                assert(queue@[j1] == old_q2[j1]);
                                assert(queue@[j2] == old_q2[j2]);
                            }
                        }
                    }
                    assert forall|d: int|
                        0 <= d < e2 + 1 && (#[trigger] edges@[d]).0 == state implies
                        done.contains(edges@[d].2 as int) && in_queue(
                        queue@,
                        edges@[d].2 as int,
                    ) by {
                        if d < e2 {
                            assert(in_queue(old_q2, edges@[d].2 as int));
                            if queue@ != old_q2 {
                                lemma_in_queue_push(old_q2, next, edges@[d].2 as int);
                            }
                        } else {
                            assert(edges@[d].2 == next);
                        }
                    }
                }
            }
            e2 = e2 + 1;
        }
        proof {
            // the head has moved: everything shorter than the new head
            // label has already been taken from the queue
            if head < queue.len() {
                lemma_ac_b4_advance(edges@, labels, queue@, n as int, head0, state as int);
            }
        }
    }
    proof {
        // every state is reached by the pass, so every state is final
        assert forall|v: int| 0 <= v < n implies node_done(fail@, outs@, labels, pats, v) by {
            if labels[v].len() >= 2 {
                assert(v != 0);
                assert(has_in_edge(edges@, v));
                let eu = choose|eu: int|
                    0 <= eu < edges@.len() && (#[trigger] edges@[eu]).2 as int == v;
                let pu = edges@[eu].0 as int;
                assert(labels[v] == labels[pu].push(edges@[eu].1));
                assert(labels[pu].len() >= 1);
                assert(pu != 0) by {
                    if pu == 0 {
                        assert(labels[v].len() == 1);
                    }
                }
                lemma_ac_enqueued(edges@, labels, queue@, pu);
                let j = choose|j: int|
                    0 <= j < queue@.len() && (#[trigger] queue@[j]) as int == pu;
                assert(done.contains(edges@[eu].2 as int));
            } else {
                assert(done.contains(v));
            }
        }
        assert forall|kk: int| 0 <= kk < pats.len() implies exists|v: int|
            0 <= v < labels.len() && #[trigger] labels[v] == #[trigger] pats[kk] by {
            reveal(pat_out_exact);
            assert(pat_out_exact(outs@, labels, pats, kk));
            let ox = choose|ox: int|
                0 <= ox < outs@.len() && (#[trigger] outs@[ox]).1 as int == kk && labels[
                    outs@[ox].0 as int] == pats[kk];
            assert(labels[outs@[ox].0 as int] == pats[kk]);
        }
    }
    (edges, fail, outs, Ghost(labels))
}

/// A reported record: some entry of `results` pairs offset `q` with
/// pattern `idx`.
pub open spec fn ac_reported<'a>(
    results: Seq<(usize, &'a str)>,
    pats: Seq<Seq<char>>,
    idx: int,
    q: int,
) -> bool {
    exists|j: int|
        0 <= j < results.len() && (#[trigger] results[j]).0 as int == q && results[j].1@ == pats[
            idx]
}

proof fn lemma_ac_reported_push<'a>(
    results: Seq<(usize, &'a str)>,
    x: (usize, &'a str),
    pats: Seq<Seq<char>>,
    idx: int,
    q: int,
)
    requires
        ac_reported(results, pats, idx, q),
    ensures
        ac_reported(results.push(x), pats, idx, q),
{
    let j = choose|j: int|
        0 <= j < results.len() && (#[trigger] results[j]).0 as int == q && results[j].1@ == pats[
            idx];
    assert(results.push(x)[j] == results[j]);
}

/// One scan step of the automaton: from the longest suffix state of the
/// text read so far to the longest suffix state after one more
/// character, following the failure links until a `c` edge or the root.
#[verifier::rlimit(100)]
fn ac_transition(
    edges: &Vec<(usize, char, usize)>,
    fail: &Vec<usize>,
    outs: &Vec<(usize, usize)>,
    cur: usize,
    c: char,
    Ghost(labels): Ghost<Seq<Seq<char>>>,
    Ghost(pats): Ghost<Seq<Seq<char>>>,
    Ghost(x): Ghost<Seq<char>>,
) -> (t: usize)
    requires
        ac_ready(edges@, fail@, outs@, labels, pats),
        fail@.len() == labels.len(),
        (cur as int) < labels.len(),
        labels[cur as int].is_suffix_of(x),
        forall|v: int|
            0 <= v < labels.len() && (#[trigger] labels[v]).is_suffix_of(x) ==> labels[v].len()
                <= labels[cur as int].len(),
    ensures
        (t as int) < labels.len(),
        labels[t as int].is_suffix_of(x.push(c)),
        forall|v: int|
            0 <= v < labels.len() && (#[trigger] labels[v]).is_suffix_of(x.push(c)) ==> labels[
                v].len() <= labels[t as int].len(),
{
    let mut f = cur;
    let mut via: Option<usize> = ac_find_edge(edges, f, c);
    while via.is_none() && f != 0
        invariant
            ac_ready(edges@, fail@, outs@, labels, pats),
            fail@.len() == labels.len(),
            (f as int) < labels.len(),
            labels[f as int].is_suffix_of(x),
            forall|u: int|
                0 <= u < labels.len() && (#[trigger] labels[u]).is_suffix_of(x) && labels[
                    u].len() > labels[f as int].len() ==> !has_c_edge(edges@, u, c),
            (via matches Some(tt) ==> exists|e: int|
                0 <= e < edges@.len() && #[trigger] edges@[e] == (f, c, tt)),
            (via is None ==> !has_c_edge(edges@, f as int, c)),
        decreases labels[f as int].len(),
    {
        proof {
            reveal(node_done);
            let fold = f as int;
            assert(node_done(fail@, outs@, labels, pats, fold));
            assert(fail_longest(fail@, labels, fold));
            lemma_suffix_trans(labels[fail@[fold] as int], labels[fold], x);
            assert forall|u: int|
                0 <= u < labels.len() && (#[trigger] labels[u]).is_suffix_of(x) && labels[
                    u].len() > labels[fail@[fold] as int].len() implies !has_c_edge(
                edges@,
                u,
                c,
            ) by {
                if labels[u].len() > labels[fold].len() {
                } else if labels[u].len() == labels[fold].len() {
                    lemma_suffix_of_suffix(labels[u], labels[fold], x);
                    assert(labels[u] =~= labels[fold]);
                    assert(u == fold);
                } else {
                    lemma_suffix_of_suffix(labels[u], labels[fold], x);
                    assert(labels[u].len() <= labels[fail@[fold] as int].len());
                }
            }
        }
        f = fail[f];
        via = ac_find_edge(edges, f, c);
    }
    let t: usize = match via {
        Some(tt) => tt,
        None => 0,
    };
    proof {
        let xp = x.push(c);
        if via is Some {
            let tt = via->0;
            let ee = choose|ee: int|
                0 <= ee < edges@.len() && #[trigger] edges@[ee] == (f, c, tt);
            assert(labels[t as int] == labels[f as int].push(c));
            lemma_suffix_push(labels[f as int], x, c);
        } else {
            assert(f == 0);
            assert(labels[0].is_suffix_of(xp)) by {
                assert(xp.skip(xp.len() - 0) =~= Seq::<char>::empty());
            }
        }
        assert forall|v: int|
            0 <= v < labels.len() && (#[trigger] labels[v]).is_suffix_of(xp) implies labels[
            v].len() <= labels[t as int].len() by {
            if labels[v].len() >= 1 {
                assert(v != 0);
                assert(has_in_edge(edges@, v));
                let ev = choose|ev: int|
                    0 <= ev < edges@.len() && (#[trigger] edges@[ev]).2 as int == v;
                let pv = edges@[ev].0 as int;
                assert(labels[v] == labels[pv].push(edges@[ev].1));
                lemma_suffix_drop_last(labels[v], xp);
                assert(xp.drop_last() =~= x);
                assert(labels[v].last() == c);
                assert(edges@[ev].1 == c);
                assert(labels[v].drop_last() =~= labels[pv]);
                assert(labels[pv].is_suffix_of(x));
                assert(has_c_edge(edges@, pv, c));
                if via is Some {
                    if labels[pv].len() > labels[f as int].len() {
                        assert(!has_c_edge(edges@, pv, c));
                    }
                    assert(labels[v].len() <= labels[f as int].len() + 1);
                } else {
                    if pv == 0 {
                        assert(!has_c_edge(edges@, 0, c));
                    } else {
                        assert(labels[pv].len() > 0);
                        assert(labels[pv].len() > labels[f as int].len());
                        assert(!has_c_edge(edges@, pv, c));
                    }
                }
            }
        }
    }
    t
}

/// The match records the search owes, in reporting order, from end
/// position `e` and pattern index `k` on: end positions ascending, and
/// at one end position the pattern indices ascending, one `(start,
/// pattern index)` pair for every occurrence of a pattern.
pub open spec fn ac_canon_from(t: Seq<char>, pats: Seq<Seq<char>>, e: int, k: int) -> Seq<
    (int, int),
>
    decreases t.len() + 1 - e, pats.len() - k,
{
    if e > t.len() {
        Seq::empty()
    } else if k < 0 || k >= pats.len() {
        ac_canon_from(t, pats, e + 1, 0)
    } else if pats[k].len() > 0 && e - pats[k].len() >= 0 && char_match_at(
        t,
        pats[k],
        e - pats[k].len(),
    ) {
        seq![(e - pats[k].len(), k)] + ac_canon_from(t, pats, e, k + 1)
    } else {
        ac_canon_from(t, pats, e, k + 1)
    }
}

/// The records correspond position by position to the emitted `(start,
/// pattern index)` pairs.
pub open spec fn ac_corresponds<'a>(
    results: Seq<(usize, &'a str)>,
    emitted: Seq<(int, int)>,
    pats: Seq<Seq<char>>,
) -> bool {
    &&& results.len() == emitted.len()
    &&& forall|j: int|
        0 <= j < emitted.len() ==> 0 <= (#[trigger] emitted[j]).1 < pats.len() && results[
            j].0 as int == emitted[j].0 && results[j].1@ == pats[emitted[j].1]
}

/// Whether pattern `k` is recorded as an output of state `s`.
fn ac_has_out(outs: &Vec<(usize, usize)>, s: usize, k: usize) -> (r: bool)
    ensures
        r == exists|o: int| 0 <= o < outs@.len() && #[trigger] outs@[o] == (s, k),
{
    let mut o: usize = 0;
    while o < outs.len()
        invariant
            0 <= o <= outs@.len(),
            forall|d: int| 0 <= d < o ==> #[trigger] outs@[d] != (s, k),
        decreases outs@.len() - o,
    {
        let (os, ok) = outs[o];
        proof {
            assert(outs@[o as int] == (os, ok));
        }
        if os == s && ok == k {
            return true;
        }
        o = o + 1;
    }
    false
}

/// Finds all pattern occurrences with the Aho-Corasick automaton.  Every
/// reported pair `(start, pattern)` is one of the given patterns standing
/// in the text at that character offset; every occurrence of a non-empty
/// pattern yields exactly one record; matches come in order of their end
/// positions, and matches sharing an end position in pattern-list order.
pub fn aho_corasick_search<'a>(text: &'a str, patterns: Vec<&'a str>) -> (results: Vec<
    (usize, &'a str),
>)
    ensures
        forall|j: int|
            0 <= j < results@.len() ==> ac_result_ok(
                text@,
                patterns.deep_view(),
                (#[trigger] results@[j]).0 as int,
                results@[j].1@,
            ),
        forall|j1: int, j2: int|
            0 <= j1 < j2 < results@.len() ==> (#[trigger] results@[j1]).0 + results@[j1].1@.len()
                <= (#[trigger] results@[j2]).0 + results@[j2].1@.len(),
        forall|idx: int, q: int|
            0 <= idx < patterns@.len() && patterns.deep_view()[idx].len() > 0 && #[trigger]
            char_match_at(text@, patterns.deep_view()[idx], q) ==> ac_reported(
                results@,
                patterns.deep_view(),
                idx,
                q,
            ),
        (forall|kk: int|
            0 <= kk < patterns@.len() ==> (#[trigger] patterns.deep_view()[kk]).len() > 0)
            ==> ({
            let canon = ac_canon_from(text@, patterns.deep_view(), 1, 0);
            &&& results@.len() == canon.len()
            &&& (forall|j: int|
                0 <= j < canon.len() ==> (#[trigger] results@[j]).0 as int == canon[j].0
                    && results@[j].1@ == patterns.deep_view()[canon[j].1])
        }),
{
    let (edges, fail, outs, Ghost(labels)) = ac_build(&patterns);
    let ghost pats = patterns.deep_view();
    let ghost ne = forall|kk: int| 0 <= kk < pats.len() ==> (#[trigger] pats[kk]).len() > 0;
    let mut plens: Vec<usize> = Vec::new();
    let mut k: usize = 0;
    while k < patterns.len()
        invariant
            0 <= k <= patterns@.len(),
            plens@.len() == k,
            forall|d: int| 0 <= d < k ==> #[trigger] plens@[d] == patterns@[d]@.len(),
        decreases patterns.len() - k,
    {
        plens.push(patterns[k].unicode_len());
        k = k + 1;
    }
    let n = text.unicode_len();
    let mut results: Vec<(usize, &'a str)> = Vec::new();
    let ghost mut emitted: Seq<(int, int)> = Seq::empty();
    let mut cur: usize = 0;
    let mut i: usize = 0;
    proof {
        assert(labels[0].is_suffix_of(text@.take(0))) by {
            assert(text@.take(0).skip(0) =~= Seq::<char>::empty());
        }
        assert(Seq::<(int, int)>::empty() + ac_canon_from(text@, pats, 1, 0) =~= ac_canon_from(
            text@,
            pats,
            1,
            0,
        ));
    }
    while i < n
        invariant
            pats == patterns.deep_view(),
            ne == (forall|kk: int|
                0 <= kk < pats.len() ==> (#[trigger] pats[kk]).len() > 0),
            ac_ready(edges@, fail@, outs@, labels, pats),
            fail@.len() == labels.len(),
            plens@.len() == patterns@.len(),
            forall|d: int| 0 <= d < plens@.len() ==> #[trigger] plens@[d] == patterns@[d]@.len(),
            n == text@.len(),
            0 <= i <= n,
            cur < labels.len(),
            labels[cur as int].is_suffix_of(text@.take(i as int)),
            forall|v: int|
                0 <= v < labels.len() && (#[trigger] labels[v]).is_suffix_of(
                    text@.take(i as int),
                ) ==> labels[v].len() <= labels[cur as int].len(),
            forall|idx: int, q: int|
                0 <= idx < pats.len() && pats[idx].len() > 0 && q + pats[idx].len() <= i
                    && #[trigger] char_match_at(text@, pats[idx], q) ==> ac_reported(
                    results@,
                    pats,
                    idx,
                    q,
                ),
            forall|j: int|
                0 <= j < results@.len() ==> ac_result_ok(
                    text@,
                    pats,
                    (#[trigger] results@[j]).0 as int,
                    results@[j].1@,
                ),
            forall|j: int|
                0 <= j < results@.len() ==> (#[trigger] results@[j]).0 + results@[j].1@.len()
                    <= i,
            forall|j1: int, j2: int|
                0 <= j1 < j2 < results@.len() ==> (#[trigger] results@[j1]).0 + results@[
                    j1].1@.len() <= (#[trigger] results@[j2]).0 + results@[j2].1@.len(),
            ac_corresponds(results@, emitted, pats),
            ne ==> ac_canon_from(text@, pats, 1, 0) == emitted + ac_canon_from(
                text@,
                pats,
                i + 1,
                0,
            ),
        decreases n - i,
    {
        let c = text.get_char(i);
        let ghost xprev = text@.take(i as int);
        cur = ac_transition(
            &edges,
            &fail,
            &outs,
            cur,
            c,
            Ghost(labels),
            Ghost(pats),
            Ghost(xprev),
        );
        proof {
            assert(text@.take(i + 1) =~= xprev.push(c));
        }
        // report, in pattern order, every pattern recorded at the
        // reached state
        let mut k2: usize = 0;
        while k2 < patterns.len()
            invariant
                pats == patterns.deep_view(),
                ne == (forall|kk: int|
                    0 <= kk < pats.len() ==> (#[trigger] pats[kk]).len() > 0),
                ac_ready(edges@, fail@, outs@, labels, pats),
                fail@.len() == labels.len(),
                plens@.len() == patterns@.len(),
                forall|d: int|
                    0 <= d < plens@.len() ==> #[trigger] plens@[d] == patterns@[d]@.len(),
                n == text@.len(),
                i < n,
                cur < labels.len(),
                labels[cur as int].is_suffix_of(text@.take(i + 1)),
                forall|v: int|
                    0 <= v < labels.len() && (#[trigger] labels[v]).is_suffix_of(
                        text@.take(i + 1),
                    ) ==> labels[v].len() <= labels[cur as int].len(),
                0 <= k2 <= patterns@.len(),
                forall|idx: int, q: int|
                    0 <= idx < pats.len() && pats[idx].len() > 0 && q + pats[idx].len() <= i
                        && #[trigger] char_match_at(text@, pats[idx], q) ==> ac_reported(
                        results@,
                        pats,
                        idx,
                        q,
                    ),
                forall|idx: int|
                    0 <= idx < k2 && (#[trigger] pats[idx]).len() > 0 && i + 1 - pats[
                        idx].len() >= 0 && char_match_at(
                        text@,
                        pats[idx],
                        i + 1 - pats[idx].len(),
                    ) ==> ac_reported(results@, pats, idx, i + 1 - pats[idx].len()),
                forall|j: int|
                    0 <= j < results@.len() ==> ac_result_ok(
                        text@,
                        pats,
                        (#[trigger] results@[j]).0 as int,
                        results@[j].1@,
                    ),
                forall|j: int|
                    0 <= j < results@.len() ==> (#[trigger] results@[j]).0 + results@[
                        j].1@.len() <= i + 1,
                forall|j1: int, j2: int|
                    0 <= j1 < j2 < results@.len() ==> (#[trigger] results@[j1]).0 + results@[
                        j1].1@.len() <= (#[trigger] results@[j2]).0 + results@[j2].1@.len(),
                ac_corresponds(results@, emitted, pats),
                ne ==> ac_canon_from(text@, pats, 1, 0) == emitted + ac_canon_from(
                    text@,
                    pats,
                    i + 1,
                    k2 as int,
                ),
            decreases patterns@.len() - k2,
        {
            let has = ac_has_out(&outs, cur, k2);
            proof {
                let pk = pats[k2 as int];
                let tk = text@.take(i + 1);
                if has {
                    let o = choose|o: int|
                        0 <= o < outs@.len() && #[trigger] outs@[o] == (cur, k2);
                    assert(pk.is_suffix_of(labels[cur as int]));
                    lemma_suffix_trans(pk, labels[cur as int], tk);
                    assert(pk.len() <= i + 1);
                    let q = i + 1 - pk.len();
                    assert forall|r: int| 0 <= r < pk.len() implies text@.subrange(
                        q,
                        q + pk.len(),
                    )[r] == pk[r] by {
                        assert(pk[r] == tk.skip(tk.len() - pk.len())[r]);
                        assert(tk.skip(tk.len() - pk.len())[r] == tk[tk.len() - pk.len() + r]);
                        assert(tk[tk.len() - pk.len() + r] == text@[q + r]);
                        assert(text@.subrange(q, q + pk.len())[r] == text@[q + r]);
                    }
                    assert(text@.subrange(q, q + pk.len()) =~= pk);
                    assert(char_match_at(text@, pk, q));
                } else {
                    if pk.len() > 0 && i + 1 - pk.len() >= 0 && char_match_at(
                        text@,
                        pk,
                        i + 1 - pk.len(),
                    ) {
                        let q = i + 1 - pk.len();
                        assert(pk.is_suffix_of(tk)) by {
                            assert forall|r: int| 0 <= r < pk.len() implies pk[r] == tk.skip(
                                tk.len() - pk.len(),
                            )[r] by {
                                assert(text@.subrange(q, q + pk.len()) == pk);
                                assert(text@.subrange(q, q + pk.len())[r] == text@[q + r]);
                                assert(tk.skip(tk.len() - pk.len())[r] == tk[tk.len()
                                    - pk.len() + r]);
                                assert(tk[tk.len() - pk.len() + r] == text@[q + r]);
                            }
                            assert(pk =~= tk.skip(tk.len() - pk.len()));
                        }
                        let v = choose|v: int|
                            0 <= v < labels.len() && #[trigger] labels[v] == #[trigger] pats[
                                k2 as int];
                        assert(labels[v].len() <= labels[cur as int].len());
                        lemma_suffix_of_suffix(labels[v], labels[cur as int], tk);
                        assert(pk.is_suffix_of(labels[cur as int]));
                        reveal(node_done);
                        assert(node_done(fail@, outs@, labels, pats, cur as int));
                        assert(outs_complete(outs@, labels, pats, cur as int));
                        let ox = choose|ox: int|
                            0 <= ox < outs@.len() && (#[trigger] outs@[ox]).0 == cur as int
                                && outs@[ox].1 == k2 as int;
                        assert(outs@[ox] == (cur, k2));
                    }
                }
            }
            if has {
                let plen = plens[k2];
                let start = i + 1 - plen;
                let ghost old_results = results@;
                let ghost old_emitted = emitted;
                results.push((start, patterns[k2]));
                proof {
                    emitted = emitted.push((start as int, k2 as int));
                    assert(pats[k2 as int] == patterns@[k2 as int]@);
                    assert(ac_result_ok(text@, pats, start as int, patterns@[k2 as int]@));
                    assert forall|j: int| 0 <= j < results@.len() implies ac_result_ok(
                        text@,
                        pats,
                        (#[trigger] results@[j]).0 as int,
                        results@[j].1@,
                    ) by {
                        if j < old_results.len() {
                            assert(results@[j] == old_results[j]);
                        } else {
                            assert(results@[j] == (start, patterns@[k2 as int]));
                        }
                    }
                    assert(results@.last().0 + results@.last().1@.len() == i + 1);
                    assert forall|j: int| 0 <= j < results@.len() implies (#[trigger] results@[
                        j]).0 + results@[j].1@.len() <= i + 1 by {
                        if j < old_results.len() {
                            assert(results@[j] == old_results[j]);
                        }
                    }
                    assert forall|j1: int, j2: int|
                        0 <= j1 < j2 < results@.len() implies (#[trigger] results@[j1]).0
                            + results@[j1].1@.len() <= (#[trigger] results@[j2]).0 + results@[
                            j2].1@.len() by {
                        if j2 < old_results.len() {
                            assert(results@[j1] == old_results[j1]);
                            assert(results@[j2] == old_results[j2]);
                        } else {
                            assert(results@[j1] == old_results[j1]);
                        }
                    }
                    assert forall|idx: int, q: int|
                        0 <= idx < pats.len() && pats[idx].len() > 0 && q + pats[idx].len()
                            <= i && #[trigger] char_match_at(text@, pats[idx], q) implies
                        ac_reported(results@, pats, idx, q) by {
                        lemma_ac_reported_push(
                            old_results,
                            (start, patterns@[k2 as int]),
                            pats,
                            idx,
                            q,
                        );
                    }
                    assert forall|idx: int|
                        0 <= idx < k2 + 1 && (#[trigger] pats[idx]).len() > 0 && i + 1 - pats[
                            idx].len() >= 0 && char_match_at(
                            text@,
                            pats[idx],
                            i + 1 - pats[idx].len(),
                        ) implies ac_reported(results@, pats, idx, i + 1 - pats[idx].len()) by {
                        if idx < k2 {
                            lemma_ac_reported_push(
                                old_results,
                                (start, patterns@[k2 as int]),
                                pats,
                                idx,
                                i + 1 - pats[idx].len(),
                            );
                        } else {
                            assert(results@[results@.len() - 1] == (
                                start,
                                patterns@[k2 as int],
                            ));
                            assert(results@[results@.len() - 1].0 as int == i + 1 - pats[
                                k2 as int].len());
                        }
                    }
                    assert(ac_corresponds(results@, emitted, pats)) by {
                        assert forall|j: int|
                            0 <= j < emitted.len() implies 0 <= (#[trigger] emitted[j]).1
                                < pats.len() && results@[j].0 as int == emitted[j].0
                                && results@[j].1@ == pats[emitted[j].1] by {
                            if j < old_emitted.len() {
                                assert(emitted[j] == old_emitted[j]);
                                assert(results@[j] == old_results[j]);
                            } else {
                                assert(emitted[j] == (start as int, k2 as int));
                                assert(results@[j] == (start, patterns@[k2 as int]));
                            }
                        }
                    }
                    if ne {
                        assert(ac_canon_from(text@, pats, i + 1, k2 as int) == seq![
                            (start as int, k2 as int),
                        ] + ac_canon_from(text@, pats, i + 1, k2 + 1));
                        assert(old_emitted + (seq![(start as int, k2 as int)]
                            + ac_canon_from(text@, pats, i + 1, k2 + 1)) =~= emitted
                            + ac_canon_from(text@, pats, i + 1, k2 + 1));
                    }
                }
            } else {
                proof {
                    if ne {
                        assert(pats[k2 as int].len() > 0);
                        assert(ac_canon_from(text@, pats, i + 1, k2 as int) == ac_canon_from(
                            text@,
                            pats,
                            i + 1,
                            k2 + 1,
                        ));
                    }
                }
            }
            k2 = k2 + 1;
        }
        proof {
            if ne {
                assert(ac_canon_from(text@, pats, i + 1, patterns@.len() as int)
                    == ac_canon_from(text@, pats, i + 2, 0));
            }
        }
        i = i + 1;
    }
    proof {
        if ne {
            assert(ac_canon_from(text@, pats, n + 1, 0) == Seq::<(int, int)>::empty());
            assert(emitted + Seq::<(int, int)>::empty() =~= emitted);
            assert(ac_canon_from(text@, pats, 1, 0) == emitted);
            let canon = ac_canon_from(text@, pats, 1, 0);
            assert(results@.len() == canon.len());
            assert forall|j: int| 0 <= j < canon.len() implies (#[trigger] results@[j]).0 as int
                == canon[j].0 && results@[j].1@ == pats[canon[j].1] by {
                assert(emitted[j] == canon[j]);
            }
        }
        assert forall|idx: int, q: int|
            0 <= idx < patterns@.len() && patterns.deep_view()[idx].len() > 0 && #[trigger]
            char_match_at(text@, patterns.deep_view()[idx], q) implies ac_reported(
            results@,
            patterns.deep_view(),
            idx,
            q,
        ) by {
            assert(q + pats[idx].len() <= n);
        }
    }
    results
}

/// Boyer-Moore agrees with the other four searches on every input where
/// its bad-character shift does not step over an occurrence: when the
/// alignment it reports is the first occurrence, and when it reports
/// nothing only because there is nothing to find.
pub proof fn lemma_boyer_moore_agreement(t: Seq<u8>, p: Seq<u8>, r: Option<usize>)
    requires
        found_first(t, p, r),
        p.len() > 0,
        match bm_find(t, p) {
            Some(s) => forall|q: int| 0 <= q < s ==> !is_match_at(t, p, q),
            None => forall|q: int| !is_match_at(t, p, q),
        },
    ensures
        match bm_find(t, p) {
            Some(s) => r matches Some(s2) && s2 as int == s,
            None => r is None,
        },
{
    lemma_bm_find_sound(t, p);
    match bm_find(t, p) {
        Some(s) => {
            assert(is_match_at(t, p, s));
            match r {
                Some(s2) => {
                    if s2 < s {
                        assert(!is_match_at(t, p, s2 as int));
                    } else if s < s2 {
                        assert(!is_match_at(t, p, s));
                    }
                },
                None => {
                    assert(!is_match_at(t, p, s));
                },
            }
        },
        None => {
            if r is Some {
                assert(!is_match_at(t, p, r->0 as int));
            }
        },
    }
}

// ------------------------------------------------------------------
// Degenerate inputs
// ------------------------------------------------------------------
/// An empty pattern, an empty text or a pattern longer than the text
/// make every substring search return not-found.
pub proof fn lemma_search_degenerate(t: Seq<u8>, p: Seq<u8>, r: Option<usize>)
    requires
        found_first(t, p, r),
        p.len() == 0 || t.len() == 0 || p.len() > t.len(),
    ensures
        r is None,
{
    if r is Some {
        assert(is_match_at(t, p, r->0 as int));
    }
}

// ------------------------------------------------------------------
// Regex helpers
// ------------------------------------------------------------------
/// Whether `regex::Regex::new` accepts the pattern, a function of the
/// pattern alone.
pub uninterp spec fn regex_valid(pattern: Seq<char>) -> bool;

/// The first capture group of the first match, as `regex::Regex::captures`
/// finds it; `None` when the pattern does not compile, has no group or
/// does not match.  A function of text and pattern alone.
pub uninterp spec fn regex_first_capture(text: Seq<char>, pattern: Seq<char>) -> Option<Seq<char>>;

/// The text with all non-overlapping matches replaced, as
/// `regex::Regex::replace_all` computes it.  A function of its three
/// arguments alone.
pub uninterp spec fn regex_replaced(text: Seq<char>, pattern: Seq<char>, replacement: Seq<
    char,
>) -> Seq<char>;

/// The number of non-overlapping matches, as `regex::Regex::find_iter`
/// yields them.  A function of text and pattern alone.
pub uninterp spec fn regex_match_count(text: Seq<char>, pattern: Seq<char>) -> int;

/// Relies on `regex::Regex::new` and `Regex::captures`: the first capture
/// group of the first match, with compile failure and no-match folded
/// into `None`.
#[verifier::external_body]
fn regex_capture_impl(text: &str, pattern: &str) -> (r: Option<String>)
    ensures
        (r is Some) == (regex_first_capture(text@, pattern@) is Some),
        r is Some ==> r->0@ == regex_first_capture(text@, pattern@)->0,
{
    let re = regex::Regex::new(pattern).ok()?;
    re.captures(text).and_then(|caps| caps.get(1).map(|m| m.as_str().to_string()))
}

/// Relies on `regex::Regex::new` and `Regex::replace_all`: `Some` exactly
/// when the pattern compiles, then the text with every match replaced.
#[verifier::external_body]
fn regex_replace_impl(text: &str, pattern: &str, replacement: &str) -> (r: Option<String>)
    ensures
        (r is Some) == regex_valid(pattern@),
        r is Some ==> r->0@ == regex_replaced(text@, pattern@, replacement@),
{
    match regex::Regex::new(pattern) {
        Ok(re) => Some(re.replace_all(text, replacement).to_string()),
        Err(_) => None,
    }
}

/// Relies on `regex::Regex::new` and `Regex::find_iter`: `Some` exactly
/// when the pattern compiles, then the number of non-overlapping matches.
#[verifier::external_body]
fn regex_count_impl(text: &str, pattern: &str) -> (r: Option<usize>)
    ensures
        (r is Some) == regex_valid(pattern@),
        r is Some ==> r->0 as int == regex_match_count(text@, pattern@),
{
    match regex::Regex::new(pattern) {
        Ok(re) => Some(re.find_iter(text).count()),
        Err(_) => None,
    }
}

/// The first capture group of the first match of the pattern, or `None`
/// when the pattern does not compile, has no group or does not match.
pub fn find_pattern(text: &str, pattern: &str) -> (result: Option<String>)
    ensures
        (result is Some) == (regex_first_capture(text@, pattern@) is Some),
        result is Some ==> result->0@ == regex_first_capture(text@, pattern@)->0,
{
    regex_capture_impl(text, pattern)
}

/// Replaces all non-overlapping matches of the pattern.  A pattern that
/// does not compile leaves the text unchanged.
pub fn replace_pattern(text: &str, pattern: &str, replacement: &str) -> (result: String)
    ensures
        regex_valid(pattern@) ==> result@ == regex_replaced(text@, pattern@, replacement@),
        !regex_valid(pattern@) ==> result@ == text@,
{
    match regex_replace_impl(text, pattern, replacement) {
        Some(s) => s,
        None => String::from_str(text),
    }
}

/// Counts the non-overlapping matches of the pattern with the
/// case-insensitive flag forced on.  A pattern that does not compile
/// counts zero.
pub fn count_pattern(text: &str, pattern: &str) -> (result: usize)
    ensures
        ({
            let ci = seq!['(', '?', 'i', ')'] + pattern@;
            &&& (regex_valid(ci) ==> result as int == regex_match_count(text@, ci))
            &&& (!regex_valid(ci) ==> result == 0)
        }),
{
    let mut prefixed = String::from_str("(?i)");
    proof {
        reveal_strlit("(?i)");
        assert("(?i)"@ =~= seq!['(', '?', 'i', ')']);
    }
    prefixed.append(pattern);
    match regex_count_impl(text, prefixed.as_str()) {
        Some(c) => c,
        None => 0,
    }
}

} // verus!
