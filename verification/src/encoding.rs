//! Encoding codecs: Base64, hexadecimal, percent/URL, HTML entities,
//! ROT13 and binary, each with its decoding partner and a round-trip law.

use vstd::prelude::*;
use vstd::string::StrSliceExecFns;
use vstd::string::StringSliceAdditionalSpecFns;
use vstd::utf8::{decode_utf8, encode_utf8, valid_utf8};

use crate::ascii;
use crate::unicode;

verus! {

/// Why a decoder rejected its input.
#[derive(Clone, Copy, Debug, PartialEq, Eq, Structural)]
pub enum DecodeError {
    /// A byte outside the codec's alphabet.
    InvalidCharacter(u8),
    /// A percent escape missing one or both hex digits.
    IncompleteEscape,
    /// A non-hex character, at the given position.
    InvalidHex(usize),
    /// An input length the codec cannot accept.
    InvalidLength,
    /// A character other than `0`/`1`, in the group starting at the given
    /// position.
    InvalidBinary(usize),
    /// Decoded bytes that do not form valid UTF-8.
    InvalidUtf8,
}

// ------------------------------------------------------------------
// ROT13
// ------------------------------------------------------------------
/// ROT13 of one character: ASCII letters rotate by 13 within their case,
/// everything else is unchanged.
pub open spec fn rot13_char(c: char) -> char {
    if 'a' <= c && c <= 'z' {
        ((((c as u32) - 97 + 13) % 26) + 97) as char
    } else if 'A' <= c && c <= 'Z' {
        ((((c as u32) - 65 + 13) % 26) + 65) as char
    } else {
        c
    }
}

pub open spec fn rot13_seq(s: Seq<char>) -> Seq<char> {
    Seq::new(s.len(), |i: int| rot13_char(s[i]))
}

/// Applies the ROT13 cipher.
pub fn encode_rot13(text: &str) -> (result: String)
    ensures
        result@ == rot13_seq(text@),
{
    let n = text.unicode_len();
    let mut out = String::new();
    let mut i: usize = 0;
    while i < n
        invariant
            n == text@.len(),
            0 <= i <= n,
            out@.len() == i,
            forall|j: int| 0 <= j < i ==> out@[j] == rot13_char(text@[j]),
        decreases n - i,
    {
        let c = text.get_char(i);
        let u = c as u32;
        let mapped: char = if 0x61 <= u && u <= 0x7a {
            ascii::char_from_u32((u - 97 + 13) % 26 + 97)
        } else if 0x41 <= u && u <= 0x5a {
            ascii::char_from_u32((u - 65 + 13) % 26 + 65)
        } else {
            c
        };
        ascii::push_char(&mut out, mapped);
        i = i + 1;
    }
    proof {
        assert(out@ =~= rot13_seq(text@));
    }
    out
}

/// Undoes ROT13, which is the same rotation again.
pub fn decode_rot13(encoded: &str) -> (result: String)
    ensures
        result@ == rot13_seq(encoded@),
{
    encode_rot13(encoded)
}

/// ROT13 applied twice gives back the original text.
pub proof fn lemma_rot13_involution(s: Seq<char>)
    ensures
        rot13_seq(rot13_seq(s)) == s,
{
    assert forall|i: int| 0 <= i < s.len() implies rot13_seq(rot13_seq(s))[i] == s[i] by {
        let c = s[i];
        if 'a' <= c && c <= 'z' {
            let v = (c as u32) - 97;
            assert(((v + 13) % 26 + 13) % 26 == v) by (nonlinear_arith)
                requires
                    0 <= v < 26,
            ;
        } else if 'A' <= c && c <= 'Z' {
            let v = (c as u32) - 65;
            assert(((v + 13) % 26 + 13) % 26 == v) by (nonlinear_arith)
                requires
                    0 <= v < 26,
            ;
        }
    }
    assert(rot13_seq(rot13_seq(s)) =~= s);
}

// ------------------------------------------------------------------
// Hexadecimal
// ------------------------------------------------------------------
/// The lowercase hex digit for a value below 16.
pub open spec fn hex_digit(v: int) -> char {
    if v < 10 {
        (48 + v) as char
    } else {
        (87 + v) as char
    }
}

/// Two lowercase hex digits for every byte, in order.
pub open spec fn hex_encode_bytes(b: Seq<u8>) -> Seq<char> {
    Seq::new(
        2 * b.len(),
        |i: int|
            if i % 2 == 0 {
                hex_digit((b[i / 2] / 16) as int)
            } else {
                hex_digit((b[i / 2] % 16) as int)
            },
    )
}

fn hex_digit_exec(v: u8) -> (c: char)
    requires
        v < 16,
    ensures
        c == hex_digit(v as int),
{
    if v < 10 {
        ascii::char_from_u32(48 + (v as u32))
    } else {
        ascii::char_from_u32(87 + (v as u32))
    }
}

/// Encodes the UTF-8 bytes of the text as lowercase hex digits.
pub fn encode_hex(text: &str) -> (result: String)
    ensures
        result@ == hex_encode_bytes(encode_utf8(text@)),
{
    let bytes = text.as_bytes();
    let n = bytes.len();
    let mut out = String::new();
    let mut i: usize = 0;
    while i < n
        invariant
            bytes@ == encode_utf8(text@),
            n == bytes@.len(),
            0 <= i <= n,
            out@.len() == 2 * i,
            forall|j: int| 0 <= j < 2 * i ==> out@[j] == hex_encode_bytes(bytes@)[j],
        decreases n - i,
    {
        let b = bytes[i];
        ascii::push_char(&mut out, hex_digit_exec(b / 16));
        ascii::push_char(&mut out, hex_digit_exec(b % 16));
        i = i + 1;
    }
    proof {
        assert(out@ =~= hex_encode_bytes(bytes@));
    }
    out
}

/// The value of a hex-digit byte, or `-1` for any other byte.  Both digit
/// cases are accepted.
pub open spec fn hex_val(b: u8) -> int {
    if 48 <= b && b <= 57 {
        b - 48
    } else if 97 <= b && b <= 102 {
        b - 87
    } else if 65 <= b && b <= 70 {
        b - 55
    } else {
        -1
    }
}

/// Parses the byte pairs of `v` from position `i` on: each pair of hex
/// digits is one byte; a bad pair fails at its starting position.
pub open spec fn hex_pairs(v: Seq<u8>, i: int) -> Result<Seq<u8>, DecodeError>
    decreases v.len() - i,
{
    if i < 0 || i + 2 > v.len() {
        Ok(Seq::empty())
    } else if hex_val(v[i]) < 0 || hex_val(v[i + 1]) < 0 {
        Err(DecodeError::InvalidHex(i as usize))
    } else {
        match hex_pairs(v, i + 2) {
            Ok(rest) => Ok(seq![(16 * hex_val(v[i]) + hex_val(v[i + 1])) as u8] + rest),
            Err(e) => Err(e),
        }
    }
}

/// What decoding a hex byte sequence yields: the bytes of the digit
/// pairs, or the first error.
pub open spec fn hex_decode_bytes(v: Seq<u8>) -> Result<Seq<u8>, DecodeError> {
    if v.len() % 2 != 0 {
        Err(DecodeError::InvalidLength)
    } else {
        hex_pairs(v, 0)
    }
}

fn hex_val_exec(b: u8) -> (r: i16)
    ensures
        r as int == hex_val(b),
{
    if 48 <= b && b <= 57 {
        (b - 48) as i16
    } else if 97 <= b && b <= 102 {
        (b - 87) as i16
    } else if 65 <= b && b <= 70 {
        (b - 55) as i16
    } else {
        -1i16
    }
}

/// Decodes a hex string: the length must be even, every pair must be two
/// hex digits, and the decoded bytes must form valid UTF-8.
pub fn decode_hex(encoded: &str) -> (result: Result<String, DecodeError>)
    ensures
        match hex_decode_bytes(encoded.spec_bytes()) {
            Ok(b) => if valid_utf8(b) {
                result matches Ok(s) && s@ == decode_utf8(b)
            } else {
                result == Err::<String, DecodeError>(DecodeError::InvalidUtf8)
            },
            Err(e) => result == Err::<String, DecodeError>(e),
        },
{
    let bytes = encoded.as_bytes();
    let n = bytes.len();
    if n % 2 != 0 {
        return Err(DecodeError::InvalidLength);
    }
    let mut out: Vec<u8> = Vec::new();
    let mut i: usize = 0;
    while n >= 2 && i <= n - 2
        invariant
            bytes@ == encoded.spec_bytes(),
            n == bytes@.len(),
            0 <= i <= n,
            i % 2 == 0,
            n % 2 == 0,
            hex_pairs(bytes@, 0) == match hex_pairs(bytes@, i as int) {
                Ok(rest) => Ok::<Seq<u8>, DecodeError>(out@ + rest),
                Err(e) => Err::<Seq<u8>, DecodeError>(e),
            },
        decreases n - i,
    {
        let h = hex_val_exec(bytes[i]);
        let l = hex_val_exec(bytes[i + 1]);
        if h < 0 || l < 0 {
            return Err(DecodeError::InvalidHex(i));
        }
        let ghost old_out = out@;
        out.push((16 * (h as u8)) + (l as u8));
        proof {
            let ghost hv = hex_val(bytes@[i as int]);
            let ghost lv = hex_val(bytes@[i + 1]);
            assert(out@ == old_out.push((16 * hv + lv) as u8));
            let ghost hp = hex_pairs(bytes@, i + 2);
            if hp is Ok {
                let ghost rest = hp->Ok_0;
                assert(old_out + (seq![(16 * hv + lv) as u8] + rest) =~= out@ + rest);
            }
        }
        i = i + 2;
    }
    proof {
        assert(hex_pairs(bytes@, i as int) == Ok::<Seq<u8>, DecodeError>(Seq::empty()));
        assert(out@ + Seq::<u8>::empty() =~= out@);
    }
    match unicode::string_from_utf8(out) {
        Some(s) => Ok(s),
        None => Err(DecodeError::InvalidUtf8),
    }
}

/// Decoding the hex encoding of any byte sequence gives the bytes back.
proof fn lemma_hex_pairs_of_encode(b: Seq<u8>, k: int)
    requires
        0 <= k <= b.len(),
    ensures
        hex_pairs(Seq::new(2 * b.len(), |i: int| hex_encode_bytes(b)[i] as u8), 2 * k) == Ok::<
            Seq<u8>,
            DecodeError,
        >(b.skip(k)),
    decreases b.len() - k,
{
    let v = Seq::new(2 * b.len(), |i: int| hex_encode_bytes(b)[i] as u8);
    if k == b.len() {
        assert(b.skip(k) =~= Seq::<u8>::empty());
    } else {
        let w = b[k];
        assert(v[2 * k] == hex_digit((w / 16) as int) as u8);
        assert(v[2 * k + 1] == hex_digit((w % 16) as int) as u8);
        assert(hex_val(hex_digit((w / 16) as int) as u8) == w / 16);
        assert(hex_val(hex_digit((w % 16) as int) as u8) == w % 16);
        lemma_hex_pairs_of_encode(b, k + 1);
        assert((16 * ((w / 16) as int) + ((w % 16) as int)) as u8 == w);
        assert(seq![w] + b.skip(k + 1) =~= b.skip(k));
    }
}

/// Hex round trip: encoding any text and decoding the result gives back
/// the original text.
pub proof fn lemma_hex_round_trip(x: Seq<char>)
    ensures
        hex_decode_bytes(encode_utf8(hex_encode_bytes(encode_utf8(x)))) == Ok::<
            Seq<u8>,
            DecodeError,
        >(encode_utf8(x)),
        valid_utf8(encode_utf8(x)),
        decode_utf8(encode_utf8(x)) == x,
{
    let b = encode_utf8(x);
    let e = hex_encode_bytes(b);
    assert forall|i: int| 0 <= i < e.len() implies (e[i] as u32) < 128 by {
        let w = if i % 2 == 0 {
            b[i / 2] / 16
        } else {
            b[i / 2] % 16
        };
        assert(e[i] == hex_digit(w as int));
    }
    assert(vstd::utf8::is_ascii_chars(e));
    vstd::utf8::is_ascii_chars_encode_utf8(e);
    assert(encode_utf8(e) =~= Seq::new(2 * b.len(), |i: int| e[i] as u8));
    lemma_hex_pairs_of_encode(b, 0);
    assert(b.skip(0) =~= b);
    vstd::utf8::encode_utf8_valid_utf8(x);
    vstd::utf8::encode_utf8_decode_utf8(x);
}

// ------------------------------------------------------------------
// Binary
// ------------------------------------------------------------------
/// Powers of two for bit positions.
pub open spec fn bpow(e: int) -> int
    decreases e,
{
    if e <= 0 {
        1
    } else {
        2 * bpow(e - 1)
    }
}

/// Every byte as eight `0`/`1` characters, most significant bit first.
pub open spec fn bin_encode_bytes(b: Seq<u8>) -> Seq<char> {
    Seq::new(
        8 * b.len(),
        |i: int|
            if ((b[i / 8] as int) / bpow(7 - (i % 8))) % 2 == 1 {
                '1'
            } else {
                '0'
            },
    )
}

/// Encodes the UTF-8 bytes of the text as a bit string.
pub fn to_binary(text: &str) -> (result: String)
    ensures
        result@ == bin_encode_bytes(encode_utf8(text@)),
{
    let bytes = text.as_bytes();
    let n = bytes.len();
    let mut out = String::new();
    let mut i: usize = 0;
    while i < n
        invariant
            bytes@ == encode_utf8(text@),
            n == bytes@.len(),
            0 <= i <= n,
            out@.len() == 8 * i,
            forall|j: int| 0 <= j < 8 * i ==> out@[j] == bin_encode_bytes(bytes@)[j],
        decreases n - i,
    {
        let v = bytes[i] as u32;
        let mut p: u32 = 128;
        let mut t: usize = 0;
        proof {
            reveal_with_fuel(bpow, 9);
        }
        while t < 8
            invariant
                bytes@ == encode_utf8(text@),
                n == bytes@.len(),
                i < n,
                v == bytes@[i as int] as u32,
                0 <= t <= 8,
                t < 8 ==> p as int == bpow(7 - t),
                out@.len() == 8 * i + t,
                forall|j: int| 0 <= j < 8 * i + t ==> out@[j] == bin_encode_bytes(bytes@)[j],
            decreases 8 - t,
        {
            proof {
                reveal_with_fuel(bpow, 9);
                lemma_bpow_pos(7 - t);
            }
            let bit = (v / p) % 2;
            ascii::push_char(&mut out, if bit == 1 {
                '1'
            } else {
                '0'
            });
            proof {
                reveal_with_fuel(bpow, 9);
                let j = 8 * i + t;
                assert(j / 8 == i as int && j % 8 == t as int);
            }
            p = p / 2;
            t = t + 1;
        }
        i = i + 1;
    }
    proof {
        assert(out@ =~= bin_encode_bytes(bytes@));
    }
    out
}

/// The value of a `0`/`1` byte, or `-1` for any other byte.
pub open spec fn bit_val(b: u8) -> int {
    if b == 48 {
        0
    } else if b == 49 {
        1
    } else {
        -1
    }
}

/// The value of the first `t` bit characters of the group starting at
/// `i`, most significant first.
pub open spec fn bits_val(v: Seq<u8>, i: int, t: int) -> int
    decreases t,
{
    if t <= 0 {
        0
    } else {
        2 * bits_val(v, i, t - 1) + bit_val(v[i + t - 1])
    }
}

/// Parses the 8-character groups of `v` from position `i` on; a group
/// holding anything but `0`/`1` fails at the group's starting position.
pub open spec fn bin_groups(v: Seq<u8>, i: int) -> Result<Seq<u8>, DecodeError>
    decreases v.len() - i,
{
    if i < 0 || i + 8 > v.len() {
        Ok(Seq::empty())
    } else if exists|t: int| 0 <= t < 8 && #[trigger] bit_val(v[i + t]) < 0 {
        Err(DecodeError::InvalidBinary(i as usize))
    } else {
        match bin_groups(v, i + 8) {
            Ok(rest) => Ok(seq![bits_val(v, i, 8) as u8] + rest),
            Err(e) => Err(e),
        }
    }
}

/// What decoding a bit string yields: the length must be a multiple of 8
/// and every group must be all bits; then each group is one byte.
pub open spec fn bin_decode_bytes(v: Seq<u8>) -> Result<Seq<u8>, DecodeError> {
    if v.len() % 8 != 0 {
        Err(DecodeError::InvalidLength)
    } else {
        bin_groups(v, 0)
    }
}

proof fn lemma_bits_val_bound(v: Seq<u8>, i: int, t: int)
    requires
        0 <= t,
        forall|q: int| 0 <= q < t ==> 0 <= #[trigger] bit_val(v[i + q]) <= 1,
    ensures
        0 <= bits_val(v, i, t) < bpow(t),
    decreases t,
{
    if t > 0 {
        lemma_bits_val_bound(v, i, t - 1);
    }
}

/// Decodes a bit string back to text: the length must be a multiple of
/// 8, every character must be `0` or `1`, and the decoded bytes must
/// form valid UTF-8.
pub fn from_binary(binary: &str) -> (result: Result<String, DecodeError>)
    ensures
        match bin_decode_bytes(binary.spec_bytes()) {
            Ok(b) => if valid_utf8(b) {
                result matches Ok(s) && s@ == decode_utf8(b)
            } else {
                result == Err::<String, DecodeError>(DecodeError::InvalidUtf8)
            },
            Err(e) => result == Err::<String, DecodeError>(e),
        },
{
    let bytes = binary.as_bytes();
    let n = bytes.len();
    if n % 8 != 0 {
        return Err(DecodeError::InvalidLength);
    }
    let mut out: Vec<u8> = Vec::new();
    let mut i: usize = 0;
    while n >= 8 && i <= n - 8
        invariant
            bytes@ == binary.spec_bytes(),
            n == bytes@.len(),
            0 <= i <= n,
            n % 8 == 0,
            i % 8 == 0,
            bin_groups(bytes@, 0) == match bin_groups(bytes@, i as int) {
                Ok(rest) => Ok::<Seq<u8>, DecodeError>(out@ + rest),
                Err(e) => Err::<Seq<u8>, DecodeError>(e),
            },
        decreases n - i,
    {
        let mut acc: u32 = 0;
        let mut t: usize = 0;
        proof {
            reveal_with_fuel(bpow, 9);
        }
        while t < 8
            invariant
                bytes@ == binary.spec_bytes(),
                n == bytes@.len(),
                i + 8 <= n,
                n % 8 == 0,
                0 <= t <= 8,
                bin_groups(bytes@, 0) == match bin_groups(bytes@, i as int) {
                    Ok(rest) => Ok::<Seq<u8>, DecodeError>(out@ + rest),
                    Err(e) => Err::<Seq<u8>, DecodeError>(e),
                },
                forall|q: int| 0 <= q < t ==> 0 <= #[trigger] bit_val(bytes@[i + q]) <= 1,
                acc as int == bits_val(bytes@, i as int, t as int),
                acc < 256,
            decreases 8 - t,
        {
            let b = bytes[i + t];
            if b != 48 && b != 49 {
                proof {
                    assert(bit_val(bytes@[i + t]) < 0);
                    assert(exists|q: int| 0 <= q < 8 && #[trigger] bit_val(bytes@[i + q]) < 0);
                }
                return Err(DecodeError::InvalidBinary(i));
            }
            proof {
                lemma_bits_val_bound(bytes@, i as int, t as int);
                reveal_with_fuel(bpow, 9);
            }
            acc = acc * 2 + (if b == 49 {
                1
            } else {
                0
            });
            t = t + 1;
        }
        proof {
            assert(!(exists|t: int| 0 <= t < 8 && #[trigger] bit_val(bytes@[i + t]) < 0));
        }
        let ghost old_out = out@;
        out.push(acc as u8);
        proof {
            assert(out@ == old_out.push(bits_val(bytes@, i as int, 8) as u8));
            let ghost bg = bin_groups(bytes@, i + 8);
            if bg is Ok {
                let ghost rest = bg->Ok_0;
                assert(old_out + (seq![bits_val(bytes@, i as int, 8) as u8] + rest) =~= out@
                    + rest);
            }
        }
        i = i + 8;
    }
    proof {
        assert(bin_groups(bytes@, i as int) == Ok::<Seq<u8>, DecodeError>(Seq::empty()));
        assert(out@ + Seq::<u8>::empty() =~= out@);
    }
    match unicode::string_from_utf8(out) {
        Some(s) => Ok(s),
        None => Err(DecodeError::InvalidUtf8),
    }
}

/// The bits of the binary encoding of byte `w` evaluate back to `w`.
proof fn lemma_bits_of_encode_byte(v: Seq<u8>, i: int, w: u8, t: int)
    requires
        0 <= t <= 8,
        forall|q: int| 0 <= q < 8 ==> #[trigger] v[i + q] == (if ((w as int) / bpow(7 - q)) % 2
            == 1 {
            49u8
        } else {
            48u8
        }),
    ensures
        bits_val(v, i, t) == (w as int) / bpow(8 - t),
    decreases t,
{
    if t == 0 {
        reveal_with_fuel(bpow, 9);
        assert(bpow(8) == 256);
        assert((w as int) / 256 == 0) by {
            vstd::arithmetic::div_mod::lemma_basic_div(w as int, 256);
        }
    } else {
        lemma_bits_of_encode_byte(v, i, w, t - 1);
        let d = bpow(8 - t);
        assert(d > 0) by {
            lemma_bpow_pos(8 - t);
        }
        assert(bpow(9 - t) == 2 * d);
        assert(bit_val(v[i + t - 1]) == ((w as int) / d) % 2);
        assert((w as int) / (2 * d) == ((w as int) / d) / 2) by {
            vstd::arithmetic::div_mod::lemma_div_denominator(w as int, d, 2);
        }
        assert(2 * (((w as int) / d) / 2) + ((w as int) / d) % 2 == (w as int) / d) by {
            vstd::arithmetic::div_mod::lemma_fundamental_div_mod(((w as int) / d), 2);
        }
    }
}

proof fn lemma_bpow_pos(e: int)
    ensures
        bpow(e) >= 1,
    decreases e,
{
    if e > 0 {
        lemma_bpow_pos(e - 1);
    }
}

/// Decoding the binary encoding of any byte sequence gives the bytes
/// back.
proof fn lemma_bin_groups_of_encode(b: Seq<u8>, k: int)
    requires
        0 <= k <= b.len(),
    ensures
        bin_groups(Seq::new(8 * b.len(), |i: int| bin_encode_bytes(b)[i] as u8), 8 * k) == Ok::<
            Seq<u8>,
            DecodeError,
        >(b.skip(k)),
    decreases b.len() - k,
{
    let v = Seq::new(8 * b.len(), |i: int| bin_encode_bytes(b)[i] as u8);
    if k == b.len() {
        assert(b.skip(k) =~= Seq::<u8>::empty());
    } else {
        let w = b[k];
        assert forall|q: int| 0 <= q < 8 implies #[trigger] v[8 * k + q] == (if ((w as int) / bpow(
            7 - q,
        )) % 2 == 1 {
            49u8
        } else {
            48u8
        }) by {
            let j = 8 * k + q;
            assert(j / 8 == k && j % 8 == q);
            assert(v[j] == bin_encode_bytes(b)[j] as u8);
        }
        assert forall|t: int| 0 <= t < 8 implies #[trigger] bit_val(v[8 * k + t]) >= 0 by {}
        lemma_bits_of_encode_byte(v, 8 * k, w, 8);
        assert(bits_val(v, 8 * k, 8) == (w as int) / bpow(0));
        assert(bpow(0) == 1);
        lemma_bin_groups_of_encode(b, k + 1);
        assert(seq![w] + b.skip(k + 1) =~= b.skip(k));
    }
}

/// Binary round trip: encoding any text and decoding the result gives
/// back the original text.
pub proof fn lemma_binary_round_trip(x: Seq<char>)
    ensures
        bin_decode_bytes(encode_utf8(bin_encode_bytes(encode_utf8(x)))) == Ok::<
            Seq<u8>,
            DecodeError,
        >(encode_utf8(x)),
        valid_utf8(encode_utf8(x)),
        decode_utf8(encode_utf8(x)) == x,
{
    let b = encode_utf8(x);
    let e = bin_encode_bytes(b);
    assert forall|i: int| 0 <= i < e.len() implies (e[i] as u32) < 128 by {
        assert(e[i] == '0' || e[i] == '1');
    }
    assert(vstd::utf8::is_ascii_chars(e));
    vstd::utf8::is_ascii_chars_encode_utf8(e);
    assert(encode_utf8(e) =~= Seq::new(8 * b.len(), |i: int| e[i] as u8));
    lemma_bin_groups_of_encode(b, 0);
    assert(b.skip(0) =~= b);
    vstd::utf8::encode_utf8_valid_utf8(x);
    vstd::utf8::encode_utf8_decode_utf8(x);
}

// ------------------------------------------------------------------
// URL / percent encoding
// ------------------------------------------------------------------
/// The unreserved bytes pass through percent encoding verbatim:
/// ASCII letters, digits, `-`, `_`, `.` and `~`.
pub open spec fn is_unreserved(b: u8) -> bool {
    (65 <= b && b <= 90) || (97 <= b && b <= 122) || (48 <= b && b <= 57) || b == 45 || b == 95
        || b == 46 || b == 126
}

/// The uppercase hex digit for a value below 16.
pub open spec fn hex_digit_upper(v: int) -> char {
    if v < 10 {
        (48 + v) as char
    } else {
        (55 + v) as char
    }
}

/// Unreserved bytes verbatim; every other byte as `%XX` with uppercase
/// hex digits.
pub open spec fn url_encode_bytes(b: Seq<u8>) -> Seq<char>
    decreases b.len(),
{
    if b.len() == 0 {
        Seq::empty()
    } else {
        (if is_unreserved(b[0]) {
            seq![b[0] as char]
        } else {
            seq![
                '%',
                hex_digit_upper((b[0] / 16) as int),
                hex_digit_upper((b[0] % 16) as int),
            ]
        }) + url_encode_bytes(b.skip(1))
    }
}

fn hex_digit_upper_exec(v: u8) -> (c: char)
    requires
        v < 16,
    ensures
        c == hex_digit_upper(v as int),
{
    if v < 10 {
        ascii::char_from_u32(48 + (v as u32))
    } else {
        ascii::char_from_u32(55 + (v as u32))
    }
}

/// Percent-encodes the UTF-8 bytes of the text.
pub fn encode_url(text: &str) -> (result: String)
    ensures
        result@ == url_encode_bytes(encode_utf8(text@)),
{
    let bytes = text.as_bytes();
    let n = bytes.len();
    let mut out = String::new();
    let mut i: usize = 0;
    proof {
        assert(bytes@.skip(0) =~= bytes@);
        assert(out@ + url_encode_bytes(bytes@) =~= url_encode_bytes(bytes@));
    }
    while i < n
        invariant
            bytes@ == encode_utf8(text@),
            n == bytes@.len(),
            0 <= i <= n,
            url_encode_bytes(bytes@) == out@ + url_encode_bytes(bytes@.skip(i as int)),
        decreases n - i,
    {
        let b = bytes[i];
        proof {
            assert(bytes@.skip(i as int)[0] == bytes@[i as int]);
            assert(bytes@.skip(i as int).skip(1) =~= bytes@.skip(i + 1));
        }
        let unreserved = (65 <= b && b <= 90) || (97 <= b && b <= 122) || (48 <= b && b <= 57)
            || b == 45 || b == 95 || b == 46 || b == 126;
        if unreserved {
            ascii::push_char(&mut out, ascii::char_from_u32(b as u32));
        } else {
            ascii::push_char(&mut out, '%');
            ascii::push_char(&mut out, hex_digit_upper_exec(b / 16));
            ascii::push_char(&mut out, hex_digit_upper_exec(b % 16));
        }
        i = i + 1;
    }
    proof {
        assert(bytes@.skip(n as int) =~= Seq::<u8>::empty());
        assert(out@ + Seq::<char>::empty() =~= out@);
    }
    out
}

/// The value of a hex-digit character, of either case, or `-1`.
pub open spec fn hex_val_char(c: char) -> int {
    if '0' <= c && c <= '9' {
        (c as int) - 48
    } else if 'a' <= c && c <= 'f' {
        (c as int) - 87
    } else if 'A' <= c && c <= 'F' {
        (c as int) - 55
    } else {
        -1
    }
}

/// Percent decoding of `s` from position `i` on: `%` consumes two hex
/// digits, `+` becomes a space, any other character passes through as
/// its low byte.
pub open spec fn url_decode_chars(s: Seq<char>, i: int) -> Result<Seq<u8>, DecodeError>
    decreases s.len() - i,
{
    if i < 0 || i >= s.len() {
        Ok(Seq::empty())
    } else if s[i] == '%' {
        if i + 3 > s.len() {
            Err(DecodeError::IncompleteEscape)
        } else if hex_val_char(s[i + 1]) < 0 || hex_val_char(s[i + 2]) < 0 {
            Err(DecodeError::InvalidHex(i as usize))
        } else {
            match url_decode_chars(s, i + 3) {
                Ok(rest) => Ok(
                    seq![(16 * hex_val_char(s[i + 1]) + hex_val_char(s[i + 2])) as u8] + rest,
                ),
                Err(e) => Err(e),
            }
        }
    } else {
        match url_decode_chars(s, i + 1) {
            Ok(rest) => Ok(
                seq![
                    if s[i] == '+' {
                        32u8
                    } else {
                        ((s[i] as u32) % 256) as u8
                    },
                ] + rest,
            ),
            Err(e) => Err(e),
        }
    }
}

fn hex_val_char_exec(c: char) -> (r: i16)
    ensures
        r as int == hex_val_char(c),
{
    let u = c as u32;
    if 0x30 <= u && u <= 0x39 {
        (u - 48) as i16
    } else if 0x61 <= u && u <= 0x66 {
        (u - 87) as i16
    } else if 0x41 <= u && u <= 0x46 {
        (u - 55) as i16
    } else {
        -1i16
    }
}

/// Percent-decodes the text: `%` escapes must be complete and hex, `+`
/// decodes to a space, and the decoded bytes must form valid UTF-8.
/// A bad escape is reported at the position of its `%`.
pub fn decode_url(encoded: &str) -> (result: Result<String, DecodeError>)
    ensures
        match url_decode_chars(encoded@, 0) {
            Ok(b) => if valid_utf8(b) {
                result matches Ok(s) && s@ == decode_utf8(b)
            } else {
                result == Err::<String, DecodeError>(DecodeError::InvalidUtf8)
            },
            Err(e) => result == Err::<String, DecodeError>(e),
        },
{
    let n = encoded.unicode_len();
    let mut out: Vec<u8> = Vec::new();
    let mut i: usize = 0;
    while i < n
        invariant
            n == encoded@.len(),
            0 <= i <= n,
            url_decode_chars(encoded@, 0) == match url_decode_chars(encoded@, i as int) {
                Ok(rest) => Ok::<Seq<u8>, DecodeError>(out@ + rest),
                Err(e) => Err::<Seq<u8>, DecodeError>(e),
            },
        decreases n - i,
    {
        let c = encoded.get_char(i);
        let ghost old_out = out@;
        if c == '%' {
            if n - i < 3 {
                return Err(DecodeError::IncompleteEscape);
            }
            let h = hex_val_char_exec(encoded.get_char(i + 1));
            let l = hex_val_char_exec(encoded.get_char(i + 2));
            if h < 0 || l < 0 {
                return Err(DecodeError::InvalidHex(i));
            }
            out.push((16 * (h as u8)) + (l as u8));
            proof {
                let ghost hv = hex_val_char(encoded@[i + 1]);
                let ghost lv = hex_val_char(encoded@[i + 2]);
                let ghost ud = url_decode_chars(encoded@, i + 3);
                if ud is Ok {
                    let ghost rest = ud->Ok_0;
                    assert(old_out + (seq![(16 * hv + lv) as u8] + rest) =~= out@ + rest);
                }
            }
            i = i + 3;
        } else {
            let byte: u8 = if c == '+' {
                32
            } else {
                ((c as u32) % 256) as u8
            };
            out.push(byte);
            proof {
                let ghost ud = url_decode_chars(encoded@, i + 1);
                if ud is Ok {
                    let ghost rest = ud->Ok_0;
                    assert(old_out + (seq![
                        if encoded@[i as int] == '+' {
                            32u8
                        } else {
                            ((encoded@[i as int] as u32) % 256) as u8
                        },
                    ] + rest) =~= out@ + rest);
                }
            }
            i = i + 1;
        }
    }
    proof {
        assert(url_decode_chars(encoded@, i as int) == Ok::<Seq<u8>, DecodeError>(Seq::empty()));
        assert(out@ + Seq::<u8>::empty() =~= out@);
    }
    match unicode::string_from_utf8(out) {
        Some(s) => Ok(s),
        None => Err(DecodeError::InvalidUtf8),
    }
}

/// Decoding the percent encoding of any byte sequence gives the bytes
/// back.
proof fn lemma_url_decode_of_encode(b: Seq<u8>, full: Seq<char>, p: int)
    requires
        0 <= p <= full.len(),
        full.skip(p) == url_encode_bytes(b),
    ensures
        url_decode_chars(full, p) == Ok::<Seq<u8>, DecodeError>(b),
    decreases b.len(),
{
    if b.len() == 0 {
        assert(full.skip(p).len() == 0);
        assert(b =~= Seq::<u8>::empty());
    } else {
        let w = b[0];
        assert(full.skip(p).len() >= 1);
        assert(p < full.len());
        if is_unreserved(w) {
            assert(full.skip(p)[0] == full[p]);
            assert(full[p] == w as char);
            assert(full[p] != '%' && full[p] != '+');
            assert(((w as char as u32) % 256) as u8 == w);
            assert(full.skip(p + 1) =~= full.skip(p).skip(1));
            assert(full.skip(p).skip(1) =~= url_encode_bytes(b.skip(1)));
            lemma_url_decode_of_encode(b.skip(1), full, p + 1);
            assert(seq![w] + b.skip(1) =~= b);
        } else {
            assert(full.skip(p).len() >= 3);
            assert(full.skip(p)[0] == full[p]);
            assert(full[p] == '%');
            assert(full.skip(p)[1] == full[p + 1]);
            assert(full.skip(p)[2] == full[p + 2]);
            assert(full[p + 1] == hex_digit_upper((w / 16) as int));
            assert(full[p + 2] == hex_digit_upper((w % 16) as int));
            assert(hex_val_char(hex_digit_upper((w / 16) as int)) == w / 16);
            assert(hex_val_char(hex_digit_upper((w % 16) as int)) == w % 16);
            assert((16 * ((w / 16) as int) + ((w % 16) as int)) as u8 == w);
            assert(full.skip(p + 3) =~= full.skip(p).skip(3));
            assert(full.skip(p).skip(3) =~= url_encode_bytes(b.skip(1)));
            lemma_url_decode_of_encode(b.skip(1), full, p + 3);
            assert(seq![w] + b.skip(1) =~= b);
        }
    }
}

// ------------------------------------------------------------------
// Base64
// ------------------------------------------------------------------
/// The Base64 alphabet character for a 6-bit value.
pub open spec fn b64_char(v: int) -> char {
    if v < 26 {
        (65 + v) as char
    } else if v < 52 {
        (97 + (v - 26)) as char
    } else if v < 62 {
        (48 + (v - 52)) as char
    } else if v == 62 {
        '+'
    } else {
        '/'
    }
}

/// Base64 encoding: 3-byte groups become 4 alphabet characters; a 1-byte
/// tail becomes 2 characters and `==`, a 2-byte tail 3 characters and
/// `=`.
pub open spec fn b64_encode_bytes(b: Seq<u8>) -> Seq<char>
    decreases b.len(),
{
    if b.len() == 0 {
        Seq::empty()
    } else if b.len() == 1 {
        seq![
            b64_char((b[0] as int) / 4),
            b64_char(((b[0] as int) % 4) * 16),
            '=',
            '=',
        ]
    } else if b.len() == 2 {
        seq![
            b64_char((b[0] as int) / 4),
            b64_char(((b[0] as int) % 4) * 16 + (b[1] as int) / 16),
            b64_char(((b[1] as int) % 16) * 4),
            '=',
        ]
    } else {
        seq![
            b64_char((b[0] as int) / 4),
            b64_char(((b[0] as int) % 4) * 16 + (b[1] as int) / 16),
            b64_char(((b[1] as int) % 16) * 4 + (b[2] as int) / 64),
            b64_char((b[2] as int) % 64),
        ] + b64_encode_bytes(b.skip(3))
    }
}

fn b64_char_exec(v: u8) -> (c: char)
    requires
        v < 64,
    ensures
        c == b64_char(v as int),
{
    if v < 26 {
        ascii::char_from_u32(65 + (v as u32))
    } else if v < 52 {
        ascii::char_from_u32(97 + (v as u32) - 26)
    } else if v < 62 {
        ascii::char_from_u32(48 + (v as u32) - 52)
    } else if v == 62 {
        '+'
    } else {
        '/'
    }
}

/// Encodes the UTF-8 bytes of the text in Base64 with `=` padding.
pub fn encode_base64(text: &str) -> (result: String)
    ensures
        result@ == b64_encode_bytes(encode_utf8(text@)),
{
    let bytes = text.as_bytes();
    let n = bytes.len();
    let mut out = String::new();
    let mut i: usize = 0;
    proof {
        assert(bytes@.skip(0) =~= bytes@);
        assert(out@ + b64_encode_bytes(bytes@) =~= b64_encode_bytes(bytes@));
    }
    while n >= 3 && i <= n - 3
        invariant
            bytes@ == encode_utf8(text@),
            n == bytes@.len(),
            0 <= i <= n,
            b64_encode_bytes(bytes@) == out@ + b64_encode_bytes(bytes@.skip(i as int)),
        decreases n - i,
    {
        let b0 = bytes[i];
        let b1 = bytes[i + 1];
        let b2 = bytes[i + 2];
        proof {
            let rest = bytes@.skip(i as int);
            assert(rest[0] == bytes@[i as int]);
            assert(rest[1] == bytes@[i + 1]);
            assert(rest[2] == bytes@[i + 2]);
            assert(rest.skip(3) =~= bytes@.skip(i + 3));
        }
        ascii::push_char(&mut out, b64_char_exec(b0 / 4));
        ascii::push_char(&mut out, b64_char_exec((b0 % 4) * 16 + b1 / 16));
        ascii::push_char(&mut out, b64_char_exec((b1 % 16) * 4 + b2 / 64));
        ascii::push_char(&mut out, b64_char_exec(b2 % 64));
        proof {
            assert(b64_encode_bytes(bytes@) =~= out@ + b64_encode_bytes(bytes@.skip(i + 3)));
        }
        i = i + 3;
    }
    if n - i == 1 {
        let b0 = bytes[i];
        proof {
            let rest = bytes@.skip(i as int);
            assert(rest.len() == 1);
            assert(rest[0] == bytes@[i as int]);
        }
        ascii::push_char(&mut out, b64_char_exec(b0 / 4));
        ascii::push_char(&mut out, b64_char_exec((b0 % 4) * 16));
        ascii::push_char(&mut out, '=');
        ascii::push_char(&mut out, '=');
        proof {
            assert(b64_encode_bytes(bytes@) =~= out@);
        }
    } else if n - i == 2 {
        let b0 = bytes[i];
        let b1 = bytes[i + 1];
        proof {
            let rest = bytes@.skip(i as int);
            assert(rest.len() == 2);
            assert(rest[0] == bytes@[i as int]);
            assert(rest[1] == bytes@[i + 1]);
        }
        ascii::push_char(&mut out, b64_char_exec(b0 / 4));
        ascii::push_char(&mut out, b64_char_exec((b0 % 4) * 16 + b1 / 16));
        ascii::push_char(&mut out, b64_char_exec((b1 % 16) * 4));
        ascii::push_char(&mut out, '=');
        proof {
            assert(b64_encode_bytes(bytes@) =~= out@);
        }
    } else {
        proof {
            assert(bytes@.skip(i as int).len() == 0);
            assert(b64_encode_bytes(bytes@) =~= out@);
        }
    }
    out
}

/// The 6-bit value of a Base64 alphabet byte, or `-1`.
pub open spec fn b64_val(b: u8) -> int {
    if 65 <= b && b <= 90 {
        b - 65
    } else if 97 <= b && b <= 122 {
        b - 97 + 26
    } else if 48 <= b && b <= 57 {
        b - 48 + 52
    } else if b == 43 {
        62
    } else if b == 47 {
        63
    } else {
        -1
    }
}

/// The bytes of `v` before the first `=`.
pub open spec fn until_pad(v: Seq<u8>) -> Seq<u8>
    decreases v.len(),
{
    if v.len() == 0 || v[0] == 61 {
        Seq::empty()
    } else {
        seq![v[0]] + until_pad(v.skip(1))
    }
}

/// The first byte outside the Base64 alphabet, if any.
pub open spec fn first_non_alphabet(w: Seq<u8>) -> Option<u8>
    decreases w.len(),
{
    if w.len() == 0 {
        None
    } else if b64_val(w[0]) < 0 {
        Some(w[0])
    } else {
        first_non_alphabet(w.skip(1))
    }
}

/// The 6-bit values of a run of alphabet bytes.
pub open spec fn b64_vals(w: Seq<u8>) -> Seq<int> {
    Seq::new(w.len(), |i: int| b64_val(w[i]))
}

/// The bytes encoded by a stream of 6-bit values: every full 8 bits of
/// the concatenated stream is one byte, trailing bits are dropped.
pub open spec fn b64_vals_to_bytes(vals: Seq<int>) -> Seq<u8>
    decreases vals.len(),
{
    if vals.len() >= 4 {
        seq![
            (vals[0] * 4 + vals[1] / 16) as u8,
            ((vals[1] % 16) * 16 + vals[2] / 4) as u8,
            ((vals[2] % 4) * 64 + vals[3]) as u8,
        ] + b64_vals_to_bytes(vals.skip(4))
    } else if vals.len() == 3 {
        seq![(vals[0] * 4 + vals[1] / 16) as u8, ((vals[1] % 16) * 16 + vals[2] / 4) as u8]
    } else if vals.len() == 2 {
        seq![(vals[0] * 4 + vals[1] / 16) as u8]
    } else {
        Seq::empty()
    }
}

/// What decoding a Base64 byte sequence yields: the input up to the
/// first `=`, refused at its first non-alphabet byte, else the bytes of
/// the 6-bit stream.
pub open spec fn b64_decode_bytes(v: Seq<u8>) -> Result<Seq<u8>, DecodeError> {
    match first_non_alphabet(until_pad(v)) {
        Some(b) => Err(DecodeError::InvalidCharacter(b)),
        None => Ok(b64_vals_to_bytes(b64_vals(until_pad(v)))),
    }
}

fn b64_val_exec(b: u8) -> (r: i16)
    ensures
        r as int == b64_val(b),
{
    if 65 <= b && b <= 90 {
        (b - 65) as i16
    } else if 97 <= b && b <= 122 {
        ((b - 97) as i16) + 26
    } else if 48 <= b && b <= 57 {
        ((b - 48) as i16) + 52
    } else if b == 43 {
        62i16
    } else if b == 47 {
        63i16
    } else {
        -1i16
    }
}

/// Splitting `until_pad` at a position with no `=` before it.
proof fn lemma_until_pad_split(v: Seq<u8>, j: int)
    requires
        0 <= j <= v.len(),
        forall|q: int| 0 <= q < j ==> v[q] != 61,
    ensures
        until_pad(v) == v.take(j) + until_pad(v.skip(j)),
    decreases j,
{
    if j == 0 {
        assert(v.skip(0) =~= v);
        assert(v.take(0) + until_pad(v) =~= until_pad(v));
    } else {
        assert(v[0] != 61);
        lemma_until_pad_split(v.skip(1), j - 1);
        assert(v.skip(1).take(j - 1) =~= v.subrange(1, j));
        assert(v.skip(1).skip(j - 1) =~= v.skip(j));
        assert(seq![v[0]] + (v.subrange(1, j) + until_pad(v.skip(j))) =~= v.take(j) + until_pad(
            v.skip(j),
        ));
    }
}

/// A run of alphabet bytes has no non-alphabet byte.
proof fn lemma_first_non_alphabet_none(w: Seq<u8>)
    requires
        forall|q: int| 0 <= q < w.len() ==> #[trigger] b64_val(w[q]) >= 0,
    ensures
        first_non_alphabet(w) is None,
    decreases w.len(),
{
    if w.len() > 0 {
        lemma_first_non_alphabet_none(w.skip(1));
    }
}

/// The first non-alphabet byte after a valid prefix.
proof fn lemma_first_non_alphabet_at(w: Seq<u8>, j: int)
    requires
        0 <= j < w.len(),
        forall|q: int| 0 <= q < j ==> #[trigger] b64_val(w[q]) >= 0,
        b64_val(w[j]) < 0,
    ensures
        first_non_alphabet(w) == Some(w[j]),
    decreases j,
{
    if j == 0 {
    } else {
        assert(b64_val(w[0]) >= 0);
        lemma_first_non_alphabet_at(w.skip(1), j - 1);
    }
}

/// How one more 6-bit value extends the decoded bytes: at a full group
/// boundary it opens a new group, otherwise it completes 8 more bits.
proof fn lemma_b64_vals_push(vals: Seq<int>, x: int)
    ensures
        vals.len() % 4 == 0 ==> b64_vals_to_bytes(vals.push(x)) == b64_vals_to_bytes(vals),
        vals.len() % 4 == 1 ==> b64_vals_to_bytes(vals.push(x)) == b64_vals_to_bytes(vals).push(
            (vals.last() * 4 + x / 16) as u8,
        ),
        vals.len() % 4 == 2 ==> b64_vals_to_bytes(vals.push(x)) == b64_vals_to_bytes(vals).push(
            ((vals.last() % 16) * 16 + x / 4) as u8,
        ),
        vals.len() % 4 == 3 ==> b64_vals_to_bytes(vals.push(x)) == b64_vals_to_bytes(vals).push(
            ((vals.last() % 4) * 64 + x) as u8,
        ),
    decreases vals.len(),
{
    if vals.len() >= 4 {
        lemma_b64_vals_push(vals.skip(4), x);
        assert(vals.push(x).skip(4) =~= vals.skip(4).push(x));
        assert(vals.push(x)[0] == vals[0]);
        assert(vals.push(x)[1] == vals[1]);
        assert(vals.push(x)[2] == vals[2]);
        assert(vals.push(x)[3] == vals[3]);
        assert(vals.skip(4).len() % 4 == vals.len() % 4);
        if vals.len() % 4 != 0 {
            assert(vals.skip(4).last() == vals.last());
        }
        if vals.len() % 4 == 0 {
            assert(b64_vals_to_bytes(vals.push(x)) =~= b64_vals_to_bytes(vals));
        } else if vals.len() % 4 == 1 {
            assert(b64_vals_to_bytes(vals.push(x)) =~= b64_vals_to_bytes(vals).push(
                (vals.last() * 4 + x / 16) as u8,
            ));
        } else if vals.len() % 4 == 2 {
            assert(b64_vals_to_bytes(vals.push(x)) =~= b64_vals_to_bytes(vals).push(
                ((vals.last() % 16) * 16 + x / 4) as u8,
            ));
        } else {
            assert(b64_vals_to_bytes(vals.push(x)) =~= b64_vals_to_bytes(vals).push(
                ((vals.last() % 4) * 64 + x) as u8,
            ));
        }
    } else {
        let w = vals.push(x);
        assert(w.len() == vals.len() + 1);
        if vals.len() == 0 {
            assert(b64_vals_to_bytes(w) =~= b64_vals_to_bytes(vals));
        } else if vals.len() == 1 {
            assert(w[0] == vals[0] && w[1] == x);
            assert(b64_vals_to_bytes(w) =~= b64_vals_to_bytes(vals).push(
                (vals.last() * 4 + x / 16) as u8,
            ));
        } else if vals.len() == 2 {
            assert(w[0] == vals[0] && w[1] == vals[1] && w[2] == x);
            assert(b64_vals_to_bytes(w) =~= b64_vals_to_bytes(vals).push(
                ((vals.last() % 16) * 16 + x / 4) as u8,
            ));
        } else {
            assert(w[0] == vals[0] && w[1] == vals[1] && w[2] == vals[2] && w[3] == x);
            assert(w.skip(4) =~= Seq::<int>::empty());
            assert(b64_vals_to_bytes(Seq::<int>::empty()) =~= Seq::<u8>::empty());
            assert(b64_vals_to_bytes(w) == seq![
                (w[0] * 4 + w[1] / 16) as u8,
                ((w[1] % 16) * 16 + w[2] / 4) as u8,
                ((w[2] % 4) * 64 + w[3]) as u8,
            ] + b64_vals_to_bytes(w.skip(4)));
            assert(b64_vals_to_bytes(w) =~= b64_vals_to_bytes(vals).push(
                ((vals.last() % 4) * 64 + x) as u8,
            ));
        }
    }
}

/// Decodes Base64: reads the alphabet characters before the first `=`,
/// refuses the first byte outside the alphabet, and requires the decoded
/// bytes to form valid UTF-8.
pub fn decode_base64(encoded: &str) -> (result: Result<String, DecodeError>)
    ensures
        match b64_decode_bytes(encoded.spec_bytes()) {
            Ok(b) => if valid_utf8(b) {
                result matches Ok(s) && s@ == decode_utf8(b)
            } else {
                result == Err::<String, DecodeError>(DecodeError::InvalidUtf8)
            },
            Err(e) => result == Err::<String, DecodeError>(e),
        },
{
    let bytes = encoded.as_bytes();
    let n = bytes.len();
    let mut out: Vec<u8> = Vec::new();
    let mut buf: u32 = 0;
    let mut bits: usize = 0;
    let mut j: usize = 0;
    while j < n && bytes[j] != 61
        invariant
            bytes@ == encoded.spec_bytes(),
            n == bytes@.len(),
            0 <= j <= n,
            forall|q: int| 0 <= q < j ==> bytes@[q] != 61,
            forall|q: int| 0 <= q < j ==> #[trigger] b64_val(bytes@[q]) >= 0,
            out@ == b64_vals_to_bytes(b64_vals(bytes@.take(j as int))),
            j % 4 == 0 ==> bits == 0 && buf == 0,
            j % 4 == 1 ==> bits == 6 && buf as int == b64_val(bytes@[j - 1]),
            j % 4 == 2 ==> bits == 4 && buf as int == b64_val(bytes@[j - 1]) % 16,
            j % 4 == 3 ==> bits == 2 && buf as int == b64_val(bytes@[j - 1]) % 4,
        decreases n - j,
    {
        let b = bytes[j];
        let v = b64_val_exec(b);
        if v < 0 {
            proof {
                let w = until_pad(bytes@);
                lemma_until_pad_split(bytes@, j as int);
                assert(bytes@.skip(j as int)[0] == bytes@[j as int]);
                assert(until_pad(bytes@.skip(j as int))[0] == bytes@[j as int]);
                assert forall|q: int| 0 <= q < j implies #[trigger] b64_val(w[q]) >= 0 by {
                    assert(w[q] == bytes@.take(j as int)[q]);
                }
                assert(w[j as int] == until_pad(bytes@.skip(j as int))[0]);
                lemma_first_non_alphabet_at(w, j as int);
            }
            return Err(DecodeError::InvalidCharacter(b));
        }
        let x = v as u32;
        let ghost vals = b64_vals(bytes@.take(j as int));
        proof {
            assert(b64_vals(bytes@.take(j + 1)) =~= vals.push(b64_val(bytes@[j as int])));
            if j % 4 != 0 {
                assert(vals.last() == b64_val(bytes@[j - 1]));
            }
            lemma_b64_vals_push(vals, b64_val(bytes@[j as int]));
            assert(vals.len() % 4 == j % 4);
        }
        if bits == 0 {
            buf = x;
            bits = 6;
        } else if bits == 6 {
            let buf2 = buf * 64 + x;
            let byte = buf2 / 16;
            proof {
                let a = buf as int;
                let xi = x as int;
                assert((a * 64 + xi) / 16 == a * 4 + xi / 16) by (nonlinear_arith)
                    requires
                        0 <= a < 64,
                        0 <= xi < 64,
                ;
                assert((a * 64 + xi) % 16 == xi % 16) by (nonlinear_arith)
                    requires
                        0 <= a < 64,
                        0 <= xi < 64,
                ;
            }
            out.push(byte as u8);
            buf = buf2 % 16;
            bits = 4;
        } else if bits == 4 {
            let buf2 = buf * 64 + x;
            let byte = buf2 / 4;
            proof {
                let a = buf as int;
                let xi = x as int;
                assert((a * 64 + xi) / 4 == a * 16 + xi / 4) by (nonlinear_arith)
                    requires
                        0 <= a < 16,
                        0 <= xi < 64,
                ;
                assert((a * 64 + xi) % 4 == xi % 4) by (nonlinear_arith)
                    requires
                        0 <= a < 16,
                        0 <= xi < 64,
                ;
            }
            out.push(byte as u8);
            buf = buf2 % 4;
            bits = 2;
        } else {
            let buf2 = buf * 64 + x;
            out.push(buf2 as u8);
            buf = 0;
            bits = 0;
        }
        proof {
            assert(out@ == b64_vals_to_bytes(b64_vals(bytes@.take(j + 1))));
        }
        j = j + 1;
    }
    proof {
        let w = until_pad(bytes@);
        lemma_until_pad_split(bytes@, j as int);
        if j < n {
            assert(bytes@.skip(j as int)[0] == bytes@[j as int]);
            assert(until_pad(bytes@.skip(j as int)) =~= Seq::<u8>::empty());
        } else {
            assert(bytes@.skip(j as int).len() == 0);
            assert(until_pad(bytes@.skip(j as int)) =~= Seq::<u8>::empty());
        }
        assert(w =~= bytes@.take(j as int));
        assert forall|q: int| 0 <= q < w.len() implies #[trigger] b64_val(w[q]) >= 0 by {
            assert(w[q] == bytes@.take(j as int)[q]);
        }
        lemma_first_non_alphabet_none(w);
        assert(b64_vals(w) =~= b64_vals(bytes@.take(j as int)));
    }
    match unicode::string_from_utf8(out) {
        Some(s) => Ok(s),
        None => Err(DecodeError::InvalidUtf8),
    }
}

proof fn lemma_b64_char_val(v: int)
    requires
        0 <= v < 64,
    ensures
        b64_val(b64_char(v) as u8) == v,
        b64_char(v) != '=',
        '\0' <= b64_char(v) <= '\u{7f}',
{
}

/// No non-alphabet byte in a concatenation whose head is all alphabet
/// and whose tail has none.
proof fn lemma_first_non_alphabet_concat(a: Seq<u8>, b: Seq<u8>)
    requires
        forall|q: int| 0 <= q < a.len() ==> #[trigger] b64_val(a[q]) >= 0,
        first_non_alphabet(b) is None,
    ensures
        first_non_alphabet(a + b) is None,
    decreases a.len(),
{
    if a.len() == 0 {
        assert(a + b =~= b);
    } else {
        assert((a + b)[0] == a[0]);
        assert((a + b).skip(1) =~= a.skip(1) + b);
        lemma_first_non_alphabet_concat(a.skip(1), b);
    }
}

/// Decoding the Base64 encoding of any byte sequence gives the bytes
/// back.
proof fn lemma_b64_decode_of_encode(b: Seq<u8>)
    ensures
        b64_decode_bytes(
            Seq::new(b64_encode_bytes(b).len(), |i: int| b64_encode_bytes(b)[i] as u8),
        ) == Ok::<Seq<u8>, DecodeError>(b),
    decreases b.len(),
{
    let e = b64_encode_bytes(b);
    let eb = Seq::new(e.len(), |i: int| e[i] as u8);
    if b.len() == 0 {
        assert(until_pad(eb) =~= Seq::<u8>::empty());
        assert(b64_vals(until_pad(eb)) =~= Seq::<int>::empty());
        assert(b =~= Seq::<u8>::empty());
    } else if b.len() == 1 {
        let b0 = b[0] as int;
        let v0 = b0 / 4;
        let v1 = (b0 % 4) * 16;
        lemma_b64_char_val(v0);
        lemma_b64_char_val(v1);
        assert(eb[0] == b64_char(v0) as u8);
        assert(eb[1] == b64_char(v1) as u8);
        assert(eb[2] == 61 && eb[3] == 61) by {
            assert(e[2] == '=' && e[3] == '=');
        }
        assert(eb.skip(1)[0] == eb[1]);
        assert(eb.skip(1).skip(1)[0] == eb[2]);
        assert(until_pad(eb.skip(1).skip(1)) =~= Seq::<u8>::empty());
        assert(until_pad(eb.skip(1)) =~= seq![eb[1]]);
        assert(until_pad(eb) =~= seq![eb[0], eb[1]]);
        let w = until_pad(eb);
        assert(b64_val(w[0]) == v0 && b64_val(w[1]) == v1);
        lemma_first_non_alphabet_none(w);
        let vals = b64_vals(w);
        assert(vals.len() == 2);
        assert(vals[0] == v0 && vals[1] == v1);
        assert((v1 / 16) == b0 % 4) by (nonlinear_arith)
            requires
                0 <= b0 < 256,
                v1 == (b0 % 4) * 16,
        ;
        assert(v0 * 4 + b0 % 4 == b0) by {
            vstd::arithmetic::div_mod::lemma_fundamental_div_mod(b0, 4);
        }
        assert(b64_vals_to_bytes(vals) =~= seq![(v0 * 4 + v1 / 16) as u8]);
        assert(b64_vals_to_bytes(vals) =~= b);
    } else if b.len() == 2 {
        let b0 = b[0] as int;
        let b1 = b[1] as int;
        let v0 = b0 / 4;
        let v1 = (b0 % 4) * 16 + b1 / 16;
        let v2 = (b1 % 16) * 4;
        lemma_b64_char_val(v0);
        lemma_b64_char_val(v1);
        lemma_b64_char_val(v2);
        assert(eb[0] == b64_char(v0) as u8);
        assert(eb[1] == b64_char(v1) as u8);
        assert(eb[2] == b64_char(v2) as u8);
        assert(eb[3] == 61) by {
            assert(e[3] == '=');
        }
        assert(eb.skip(1)[0] == eb[1]);
        assert(eb.skip(1).skip(1)[0] == eb[2]);
        assert(eb.skip(1).skip(1).skip(1)[0] == eb[3]);
        assert(until_pad(eb.skip(1).skip(1).skip(1)) =~= Seq::<u8>::empty());
        assert(until_pad(eb.skip(1).skip(1)) =~= seq![eb[2]]);
        assert(until_pad(eb.skip(1)) =~= seq![eb[1], eb[2]]);
        assert(until_pad(eb) =~= seq![eb[0], eb[1], eb[2]]);
        let w = until_pad(eb);
        assert(b64_val(w[0]) == v0 && b64_val(w[1]) == v1 && b64_val(w[2]) == v2);
        lemma_first_non_alphabet_none(w);
        let vals = b64_vals(w);
        assert(vals.len() == 3);
        assert(vals[0] == v0 && vals[1] == v1 && vals[2] == v2);
        assert(v1 / 16 == b0 % 4 && v1 % 16 == b1 / 16) by (nonlinear_arith)
            requires
                0 <= b0 < 256,
                0 <= b1 < 256,
                v1 == (b0 % 4) * 16 + b1 / 16,
        ;
        assert(v2 / 4 == b1 % 16) by (nonlinear_arith)
            requires
                0 <= b1 < 256,
                v2 == (b1 % 16) * 4,
        ;
        assert(v0 * 4 + b0 % 4 == b0) by {
            vstd::arithmetic::div_mod::lemma_fundamental_div_mod(b0, 4);
        }
        assert((b1 / 16) * 16 + b1 % 16 == b1) by {
            vstd::arithmetic::div_mod::lemma_fundamental_div_mod(b1, 16);
        }
        assert(b64_vals_to_bytes(vals) =~= seq![
            (v0 * 4 + v1 / 16) as u8,
            ((v1 % 16) * 16 + v2 / 4) as u8,
        ]);
        assert(b64_vals_to_bytes(vals) =~= b);
    } else {
        let b0 = b[0] as int;
        let b1 = b[1] as int;
        let b2 = b[2] as int;
        let v0 = b0 / 4;
        let v1 = (b0 % 4) * 16 + b1 / 16;
        let v2 = (b1 % 16) * 4 + b2 / 64;
        let v3 = b2 % 64;
        lemma_b64_char_val(v0);
        lemma_b64_char_val(v1);
        lemma_b64_char_val(v2);
        lemma_b64_char_val(v3);
        let rest = b.skip(3);
        let erest = b64_encode_bytes(rest);
        let ebrest = Seq::new(erest.len(), |i: int| erest[i] as u8);
        assert(e == seq![b64_char(v0), b64_char(v1), b64_char(v2), b64_char(v3)] + erest);
        assert(eb[0] == b64_char(v0) as u8);
        assert(eb[1] == b64_char(v1) as u8);
        assert(eb[2] == b64_char(v2) as u8);
        assert(eb[3] == b64_char(v3) as u8);
        assert(eb.skip(4) =~= ebrest);
        lemma_until_pad_split(eb, 4);
        assert(until_pad(eb) == eb.take(4) + until_pad(ebrest));
        lemma_b64_decode_of_encode(rest);
        let wrest = until_pad(ebrest);
        assert(first_non_alphabet(wrest) is None);
        assert forall|q: int| 0 <= q < 4 implies #[trigger] b64_val(eb.take(4)[q]) >= 0 by {
            assert(eb.take(4)[q] == eb[q]);
        }
        lemma_first_non_alphabet_concat(eb.take(4), wrest);
        let w = until_pad(eb);
        let vals = b64_vals(w);
        let valsrest = b64_vals(wrest);
        assert(vals =~= seq![v0, v1, v2, v3] + valsrest) by {
            assert forall|q: int| 0 <= q < vals.len() implies vals[q] == (seq![v0, v1, v2, v3]
                + valsrest)[q] by {
                if q < 4 {
                    assert(w[q] == eb.take(4)[q]);
                    assert(eb.take(4)[q] == eb[q]);
                } else {
                    assert(w[q] == wrest[q - 4]);
                }
            }
        }
        lemma_b64_vals_to_bytes_prepend(v0, v1, v2, v3, valsrest);
        assert(v1 / 16 == b0 % 4 && v1 % 16 == b1 / 16) by (nonlinear_arith)
            requires
                0 <= b0 < 256,
                0 <= b1 < 256,
                v1 == (b0 % 4) * 16 + b1 / 16,
        ;
        assert(v2 / 4 == b1 % 16 && v2 % 4 == b2 / 64) by (nonlinear_arith)
            requires
                0 <= b1 < 256,
                0 <= b2 < 256,
                v2 == (b1 % 16) * 4 + b2 / 64,
        ;
        assert(v0 * 4 + b0 % 4 == b0) by {
            vstd::arithmetic::div_mod::lemma_fundamental_div_mod(b0, 4);
        }
        assert((b1 / 16) * 16 + b1 % 16 == b1) by {
            vstd::arithmetic::div_mod::lemma_fundamental_div_mod(b1, 16);
        }
        assert((b2 / 64) * 64 + b2 % 64 == b2) by {
            vstd::arithmetic::div_mod::lemma_fundamental_div_mod(b2, 64);
        }
        assert(b64_vals_to_bytes(vals) =~= seq![b[0], b[1], b[2]] + b64_vals_to_bytes(valsrest));
        assert(seq![b[0], b[1], b[2]] + rest =~= b);
    }
}

/// Four leading 6-bit values decode to three leading bytes.
proof fn lemma_b64_vals_to_bytes_prepend(v0: int, v1: int, v2: int, v3: int, rest: Seq<int>)
    ensures
        b64_vals_to_bytes(seq![v0, v1, v2, v3] + rest) == seq![
            (v0 * 4 + v1 / 16) as u8,
            ((v1 % 16) * 16 + v2 / 4) as u8,
            ((v2 % 4) * 64 + v3) as u8,
        ] + b64_vals_to_bytes(rest),
{
    let vals = seq![v0, v1, v2, v3] + rest;
    assert(vals.len() >= 4);
    assert(vals[0] == v0 && vals[1] == v1 && vals[2] == v2 && vals[3] == v3);
    assert(vals.skip(4) =~= rest);
}

/// Base64 round trip: encoding any text and decoding the result gives
/// back the original text.
pub proof fn lemma_base64_round_trip(x: Seq<char>)
    ensures
        b64_decode_bytes(encode_utf8(b64_encode_bytes(encode_utf8(x)))) == Ok::<
            Seq<u8>,
            DecodeError,
        >(encode_utf8(x)),
        valid_utf8(encode_utf8(x)),
        decode_utf8(encode_utf8(x)) == x,
{
    let b = encode_utf8(x);
    let e = b64_encode_bytes(b);
    assert forall|i: int| 0 <= i < e.len() implies '\0' <= #[trigger] e[i] <= '\u{7f}' by {
        lemma_b64_encode_ascii(b, i);
    }
    assert(vstd::utf8::is_ascii_chars(e));
    vstd::utf8::is_ascii_chars_encode_utf8(e);
    assert(encode_utf8(e) =~= Seq::new(e.len(), |i: int| e[i] as u8));
    lemma_b64_decode_of_encode(b);
    vstd::utf8::encode_utf8_valid_utf8(x);
    vstd::utf8::encode_utf8_decode_utf8(x);
}

/// Every character of a Base64 encoding is ASCII.
proof fn lemma_b64_encode_ascii(b: Seq<u8>, i: int)
    requires
        0 <= i < b64_encode_bytes(b).len(),
    ensures
        '\0' <= b64_encode_bytes(b)[i] <= '\u{7f}',
    decreases b.len(),
{
    let e = b64_encode_bytes(b);
    if b.len() == 0 {
    } else if b.len() <= 2 {
        if b.len() == 1 {
            assert(e == seq![
                b64_char((b[0] as int) / 4),
                b64_char(((b[0] as int) % 4) * 16),
                '=',
                '=',
            ]);
        } else {
            assert(e == seq![
                b64_char((b[0] as int) / 4),
                b64_char(((b[0] as int) % 4) * 16 + (b[1] as int) / 16),
                b64_char(((b[1] as int) % 16) * 4),
                '=',
            ]);
        }
    } else {
        if i >= 4 {
            lemma_b64_encode_ascii(b.skip(3), i - 4);
        }
    }
}

// ------------------------------------------------------------------
// HTML entities
// ------------------------------------------------------------------
/// The entity for one character: `<`, `>`, `&`, `"` and `'` become
/// `&lt;`, `&gt;`, `&amp;`, `&quot;` and `&#x27;`; anything else stays.
pub open spec fn html_entity_of(c: char) -> Seq<char> {
    if c == '<' {
        seq!['&', 'l', 't', ';']
    } else if c == '>' {
        seq!['&', 'g', 't', ';']
    } else if c == '&' {
        seq!['&', 'a', 'm', 'p', ';']
    } else if c == '"' {
        seq!['&', 'q', 'u', 'o', 't', ';']
    } else if c == '\'' {
        seq!['&', '#', 'x', '2', '7', ';']
    } else {
        seq![c]
    }
}

/// Every character replaced by its entity.
pub open spec fn html_encode_chars(s: Seq<char>) -> Seq<char>
    decreases s.len(),
{
    if s.len() == 0 {
        Seq::empty()
    } else {
        html_entity_of(s[0]) + html_encode_chars(s.skip(1))
    }
}

/// Encodes the five XML-safe characters as HTML entities.
pub fn encode_html_entities(text: &str) -> (result: String)
    ensures
        result@ == html_encode_chars(text@),
{
    let n = text.unicode_len();
    let mut out = String::new();
    let mut i: usize = 0;
    proof {
        assert(text@.skip(0) =~= text@);
        assert(out@ + html_encode_chars(text@) =~= html_encode_chars(text@));
    }
    while i < n
        invariant
            n == text@.len(),
            0 <= i <= n,
            html_encode_chars(text@) == out@ + html_encode_chars(text@.skip(i as int)),
        decreases n - i,
    {
        let c = text.get_char(i);
        proof {
            assert(text@.skip(i as int)[0] == text@[i as int]);
            assert(text@.skip(i as int).skip(1) =~= text@.skip(i + 1));
        }
        if c == '<' {
            out.append("&lt;");
            proof {
                reveal_strlit("&lt;");
                assert("&lt;"@ =~= seq!['&', 'l', 't', ';']);
            }
        } else if c == '>' {
            out.append("&gt;");
            proof {
                reveal_strlit("&gt;");
                assert("&gt;"@ =~= seq!['&', 'g', 't', ';']);
            }
        } else if c == '&' {
            out.append("&amp;");
            proof {
                reveal_strlit("&amp;");
                assert("&amp;"@ =~= seq!['&', 'a', 'm', 'p', ';']);
            }
        } else if c == '"' {
            out.append("&quot;");
            proof {
                reveal_strlit("&quot;");
                assert("&quot;"@ =~= seq!['&', 'q', 'u', 'o', 't', ';']);
            }
        } else if c == '\'' {
            out.append("&#x27;");
            proof {
                reveal_strlit("&#x27;");
                assert("&#x27;"@ =~= seq!['&', '#', 'x', '2', '7', ';']);
            }
        } else {
            ascii::push_char(&mut out, c);
        }
        proof {
            assert(html_encode_chars(text@) =~= out@ + html_encode_chars(text@.skip(i + 1)));
        }
        i = i + 1;
    }
    proof {
        assert(text@.skip(n as int) =~= Seq::<char>::empty());
        assert(out@ + Seq::<char>::empty() =~= out@);
    }
    out
}

/// The character sequence `e` stands in `s` at position `i`.
pub open spec fn entity_at(s: Seq<char>, i: int, e: Seq<char>) -> bool {
    0 <= i && i + e.len() <= s.len() && s.subrange(i, i + e.len()) == e
}

/// One left-to-right pass replacing the six entities `&lt;`, `&gt;`,
/// `&amp;`, `&quot;`, `&#x27;` and `&#39;`; everything else passes
/// through.
pub open spec fn html_decode_chars(s: Seq<char>, i: int) -> Seq<char>
    decreases s.len() - i,
{
    if i < 0 || i >= s.len() {
        Seq::empty()
    } else if entity_at(s, i, seq!['&', 'l', 't', ';']) {
        seq!['<'] + html_decode_chars(s, i + 4)
    } else if entity_at(s, i, seq!['&', 'g', 't', ';']) {
        seq!['>'] + html_decode_chars(s, i + 4)
    } else if entity_at(s, i, seq!['&', 'a', 'm', 'p', ';']) {
        seq!['&'] + html_decode_chars(s, i + 5)
    } else if entity_at(s, i, seq!['&', 'q', 'u', 'o', 't', ';']) {
        seq!['"'] + html_decode_chars(s, i + 6)
    } else if entity_at(s, i, seq!['&', '#', 'x', '2', '7', ';']) {
        seq!['\''] + html_decode_chars(s, i + 6)
    } else if entity_at(s, i, seq!['&', '#', '3', '9', ';']) {
        seq!['\''] + html_decode_chars(s, i + 5)
    } else {
        seq![s[i]] + html_decode_chars(s, i + 1)
    }
}

/// Whether the characters of `pat` stand in `text` at position `i`.
fn starts_at(text: &str, i: usize, pat: &str) -> (r: bool)
    requires
        i <= text@.len(),
    ensures
        r == entity_at(text@, i as int, pat@),
{
    let n = text.unicode_len();
    let m = pat.unicode_len();
    if m > n - i {
        proof {
            assert(!entity_at(text@, i as int, pat@));
        }
        return false;
    }
    let mut t: usize = 0;
    while t < m
        invariant
            n == text@.len(),
            m == pat@.len(),
            i + m <= n,
            0 <= t <= m,
            forall|q: int| 0 <= q < t ==> text@[i + q] == pat@[q],
        decreases m - t,
    {
        if text.get_char(i + t) != pat.get_char(t) {
            proof {
                assert(text@.subrange(i as int, i + m)[t as int] != pat@[t as int]);
            }
            return false;
        }
        t = t + 1;
    }
    proof {
        assert(text@.subrange(i as int, i + m) =~= pat@);
    }
    true
}

/// Decodes the six HTML entities in one left-to-right pass.
pub fn decode_html_entities(encoded: &str) -> (result: String)
    ensures
        result@ == html_decode_chars(encoded@, 0),
{
    let n = encoded.unicode_len();
    let mut out = String::new();
    let mut i: usize = 0;
    proof {
        assert(out@ + html_decode_chars(encoded@, 0) =~= html_decode_chars(encoded@, 0));
    }
    while i < n
        invariant
            n == encoded@.len(),
            0 <= i <= n,
            html_decode_chars(encoded@, 0) == out@ + html_decode_chars(encoded@, i as int),
        decreases n - i,
    {
        proof {
            reveal_strlit("&lt;");
            reveal_strlit("&gt;");
            reveal_strlit("&amp;");
            reveal_strlit("&quot;");
            reveal_strlit("&#x27;");
            reveal_strlit("&#39;");
            assert("&lt;"@ =~= seq!['&', 'l', 't', ';']);
            assert("&gt;"@ =~= seq!['&', 'g', 't', ';']);
            assert("&amp;"@ =~= seq!['&', 'a', 'm', 'p', ';']);
            assert("&quot;"@ =~= seq!['&', 'q', 'u', 'o', 't', ';']);
            assert("&#x27;"@ =~= seq!['&', '#', 'x', '2', '7', ';']);
            assert("&#39;"@ =~= seq!['&', '#', '3', '9', ';']);
        }
        if starts_at(encoded, i, "&lt;") {
            ascii::push_char(&mut out, '<');
            i = i + 4;
        } else if starts_at(encoded, i, "&gt;") {
            ascii::push_char(&mut out, '>');
            i = i + 4;
        } else if starts_at(encoded, i, "&amp;") {
            ascii::push_char(&mut out, '&');
            i = i + 5;
        } else if starts_at(encoded, i, "&quot;") {
            ascii::push_char(&mut out, '"');
            i = i + 6;
        } else if starts_at(encoded, i, "&#x27;") {
            ascii::push_char(&mut out, '\'');
            i = i + 6;
        } else if starts_at(encoded, i, "&#39;") {
            ascii::push_char(&mut out, '\'');
            i = i + 5;
        } else {
            ascii::push_char(&mut out, encoded.get_char(i));
            i = i + 1;
        }
    }
    proof {
        assert(html_decode_chars(encoded@, i as int) == Seq::<char>::empty());
        assert(out@ + Seq::<char>::empty() =~= out@);
    }
    out
}

/// Decoding the entity encoding of any text gives the text back.
proof fn lemma_html_decode_of_encode(s: Seq<char>, full: Seq<char>, p: int)
    requires
        0 <= p <= full.len(),
        full.skip(p) == html_encode_chars(s),
    ensures
        html_decode_chars(full, p) == s,
    decreases s.len(),
{
    let lt = seq!['&', 'l', 't', ';'];
    let gt = seq!['&', 'g', 't', ';'];
    let amp = seq!['&', 'a', 'm', 'p', ';'];
    let quot = seq!['&', 'q', 'u', 'o', 't', ';'];
    let x27 = seq!['&', '#', 'x', '2', '7', ';'];
    let e39 = seq!['&', '#', '3', '9', ';'];
    if s.len() == 0 {
        assert(full.skip(p).len() == 0);
        assert(html_decode_chars(full, p) =~= s);
    } else {
        let c = s[0];
        let e = html_entity_of(c);
        assert(full.skip(p).len() == e.len() + html_encode_chars(s.skip(1)).len());
        assert(p + e.len() <= full.len());
        assert forall|q: int| 0 <= q < e.len() implies full[p + q] == e[q] by {
            assert(full.skip(p)[q] == full[p + q]);
        }
        assert(full.subrange(p, p + e.len()) =~= e);
        assert(full.skip(p + e.len()) =~= full.skip(p).skip(e.len() as int));
        assert(full.skip(p).skip(e.len() as int) =~= html_encode_chars(s.skip(1)));
        lemma_html_decode_of_encode(s.skip(1), full, p + e.len());
        if c == '<' {
            assert(entity_at(full, p, lt));
            assert(seq!['<'] + s.skip(1) =~= s);
        } else if c == '>' {
            assert(entity_at(full, p, gt));
            assert(!entity_at(full, p, lt)) by {
                if entity_at(full, p, lt) {
                    assert(full.subrange(p, p + 4)[1] == full[p + 1]);
                }
            }
            assert(seq!['>'] + s.skip(1) =~= s);
        } else if c == '&' {
            assert(entity_at(full, p, amp));
            assert(!entity_at(full, p, lt)) by {
                if entity_at(full, p, lt) {
                    assert(full.subrange(p, p + 4)[1] == full[p + 1]);
                }
            }
            assert(!entity_at(full, p, gt)) by {
                if entity_at(full, p, gt) {
                    assert(full.subrange(p, p + 4)[1] == full[p + 1]);
                }
            }
            assert(seq!['&'] + s.skip(1) =~= s);
        } else if c == '"' {
            assert(entity_at(full, p, quot));
            assert(!entity_at(full, p, lt)) by {
                if entity_at(full, p, lt) {
                    assert(full.subrange(p, p + 4)[1] == full[p + 1]);
                }
            }
            assert(!entity_at(full, p, gt)) by {
                if entity_at(full, p, gt) {
                    assert(full.subrange(p, p + 4)[1] == full[p + 1]);
                }
            }
            assert(!entity_at(full, p, amp)) by {
                if entity_at(full, p, amp) {
                    assert(full.subrange(p, p + 5)[1] == full[p + 1]);
                }
            }
            assert(seq!['"'] + s.skip(1) =~= s);
        } else if c == '\'' {
            assert(entity_at(full, p, x27));
            assert(!entity_at(full, p, lt)) by {
                if entity_at(full, p, lt) {
                    assert(full.subrange(p, p + 4)[1] == full[p + 1]);
                }
            }
            assert(!entity_at(full, p, gt)) by {
                if entity_at(full, p, gt) {
                    assert(full.subrange(p, p + 4)[1] == full[p + 1]);
                }
            }
            assert(!entity_at(full, p, amp)) by {
                if entity_at(full, p, amp) {
                    assert(full.subrange(p, p + 5)[1] == full[p + 1]);
                }
            }
            assert(!entity_at(full, p, quot)) by {
                if entity_at(full, p, quot) {
                    assert(full.subrange(p, p + 6)[1] == full[p + 1]);
                }
            }
            assert(seq!['\''] + s.skip(1) =~= s);
        } else {
            assert(e[0] == c);
            assert(full[p + 0] == e[0]);
            assert(full[p] == c && c != '&');
            assert(!entity_at(full, p, lt)) by {
                if entity_at(full, p, lt) {
                    assert(full.subrange(p, p + 4)[0] == full[p]);
                }
            }
            assert(!entity_at(full, p, gt)) by {
                if entity_at(full, p, gt) {
                    assert(full.subrange(p, p + 4)[0] == full[p]);
                }
            }
            assert(!entity_at(full, p, amp)) by {
                if entity_at(full, p, amp) {
                    assert(full.subrange(p, p + 5)[0] == full[p]);
                }
            }
            assert(!entity_at(full, p, quot)) by {
                if entity_at(full, p, quot) {
                    assert(full.subrange(p, p + 6)[0] == full[p]);
                }
            }
            assert(!entity_at(full, p, x27)) by {
                if entity_at(full, p, x27) {
                    assert(full.subrange(p, p + 6)[0] == full[p]);
                }
            }
            assert(!entity_at(full, p, e39)) by {
                if entity_at(full, p, e39) {
                    assert(full.subrange(p, p + 5)[0] == full[p]);
                }
            }
            assert(seq![c] + s.skip(1) =~= s);
        }
    }
}

/// HTML-entity round trip: encoding any text and decoding the result
/// gives back the original text.
pub proof fn lemma_html_round_trip(s: Seq<char>)
    ensures
        html_decode_chars(html_encode_chars(s), 0) == s,
{
    let e = html_encode_chars(s);
    assert(e.skip(0) =~= e);
    lemma_html_decode_of_encode(s, e, 0);
}

/// URL round trip: encoding any text and decoding the result gives back
/// the original text.
pub proof fn lemma_url_round_trip(x: Seq<char>)
    ensures
        url_decode_chars(url_encode_bytes(encode_utf8(x)), 0) == Ok::<Seq<u8>, DecodeError>(
            encode_utf8(x),
        ),
        valid_utf8(encode_utf8(x)),
        decode_utf8(encode_utf8(x)) == x,
{
    let b = encode_utf8(x);
    let e = url_encode_bytes(b);
    assert(e.skip(0) =~= e);
    lemma_url_decode_of_encode(b, e, 0);
    vstd::utf8::encode_utf8_valid_utf8(x);
    vstd::utf8::encode_utf8_decode_utf8(x);
}

// ------------------------------------------------------------------
// Boundary behaviour
// ------------------------------------------------------------------
/// Empty input: every encoder gives an empty output and every decoder
/// accepts the empty input and gives an empty output.
pub proof fn lemma_empty_input_codecs()
    ensures
        rot13_seq(Seq::empty()) == Seq::<char>::empty(),
        hex_encode_bytes(Seq::empty()) == Seq::<char>::empty(),
        bin_encode_bytes(Seq::empty()) == Seq::<char>::empty(),
        url_encode_bytes(Seq::empty()) == Seq::<char>::empty(),
        html_encode_chars(Seq::empty()) == Seq::<char>::empty(),
        b64_encode_bytes(Seq::empty()) == Seq::<char>::empty(),
        hex_decode_bytes(Seq::empty()) == Ok::<Seq<u8>, DecodeError>(Seq::empty()),
        bin_decode_bytes(Seq::empty()) == Ok::<Seq<u8>, DecodeError>(Seq::empty()),
        url_decode_chars(Seq::empty(), 0) == Ok::<Seq<u8>, DecodeError>(Seq::empty()),
        html_decode_chars(Seq::empty(), 0) == Seq::<char>::empty(),
        b64_decode_bytes(Seq::empty()) == Ok::<Seq<u8>, DecodeError>(Seq::empty()),
{
    assert(rot13_seq(Seq::empty()) =~= Seq::<char>::empty());
    assert(hex_encode_bytes(Seq::empty()) =~= Seq::<char>::empty());
    assert(bin_encode_bytes(Seq::empty()) =~= Seq::<char>::empty());
    assert(until_pad(Seq::empty()) =~= Seq::<u8>::empty());
    assert(b64_vals(Seq::empty()) =~= Seq::<int>::empty());
    assert(b64_vals_to_bytes(Seq::empty()) =~= Seq::<u8>::empty());
    assert(hex_pairs(Seq::empty(), 0) == Ok::<Seq<u8>, DecodeError>(Seq::empty()));
    assert(bin_groups(Seq::empty(), 0) == Ok::<Seq<u8>, DecodeError>(Seq::empty()));
}

} // verus!
