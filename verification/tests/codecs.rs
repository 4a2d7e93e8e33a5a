use loki_text::encoding::{
    decode_base64, decode_hex, decode_html_entities, decode_rot13, decode_url, encode_base64,
    encode_hex, encode_html_entities, encode_rot13, encode_url, from_binary, to_binary,
    DecodeError,
};

#[test]
fn test_encode_base64() {
    let text = "hello world";
    let result = encode_base64(text);
    assert_eq!(result, "aGVsbG8gd29ybGQ=");
}

#[test]
fn test_decode_base64() {
    let encoded = "aGVsbG8gd29ybGQ=";
    let result = decode_base64(encoded);
    assert_eq!(result, Ok("hello world".to_string()));
}

#[test]
fn test_encode_hex() {
    let text = "hello world";
    let result = encode_hex(text);
    assert_eq!(result, "68656c6c6f20776f726c64");
}

#[test]
fn test_decode_hex() {
    let encoded = "68656c6c6f20776f726c64";
    let result = decode_hex(encoded);
    assert_eq!(result, Ok("hello world".to_string()));
}

#[test]
fn test_encode_url() {
    let text = "hello world!";
    assert_eq!(encode_url(text), "hello%20world%21");

    let text = "test@example.com";
    assert_eq!(encode_url(text), "test%40example.com");
}

#[test]
fn test_decode_url() {
    let encoded = "hello%20world%21";
    assert_eq!(decode_url(encoded), Ok("hello world!".to_string()));

    let encoded = "test%40example.com";
    assert_eq!(decode_url(encoded), Ok("test@example.com".to_string()));
}

#[test]
fn test_encode_html_entities() {
    let text = "<script>alert('hello');</script>";
    assert_eq!(
        encode_html_entities(text),
        "&lt;script&gt;alert(&#x27;hello&#x27;);&lt;/script&gt;"
    );

    let text = "Tom & Jerry";
    assert_eq!(encode_html_entities(text), "Tom &amp; Jerry");
}

#[test]
fn test_decode_html_entities() {
    let encoded = "&lt;script&gt;alert(&#x27;hello&#x27;);&lt;/script&gt;";
    assert_eq!(decode_html_entities(encoded), "<script>alert('hello');</script>");

    let encoded = "Tom &amp; Jerry";
    assert_eq!(decode_html_entities(encoded), "Tom & Jerry");
}

#[test]
fn test_encode_rot13() {
    let text = "hello world";
    assert_eq!(encode_rot13(text), "uryyb jbeyq");

    let text = "ABC xyz";
    assert_eq!(encode_rot13(text), "NOP klm");
}

#[test]
fn test_decode_rot13() {
    let encoded = "uryyb jbeyq";
    assert_eq!(decode_rot13(encoded), "hello world");

    let encoded = "NOP klm";
    assert_eq!(decode_rot13(encoded), "ABC xyz");
}

#[test]
fn test_to_binary() {
    let text = "Hi";
    assert_eq!(to_binary(text), "0100100001101001");

    let text = "A";
    assert_eq!(to_binary(text), "01000001");
}

#[test]
fn test_from_binary() {
    let binary = "0100100001101001";
    assert_eq!(from_binary(binary), Ok("Hi".to_string()));

    let binary = "01000001";
    assert_eq!(from_binary(binary), Ok("A".to_string()));
}

#[test]
fn round_trips_on_ascii_text() {
    let text = "The quick brown fox, 42 times!";
    assert_eq!(decode_base64(&encode_base64(text)), Ok(text.to_string()));
    assert_eq!(decode_hex(&encode_hex(text)), Ok(text.to_string()));
    assert_eq!(decode_url(&encode_url(text)), Ok(text.to_string()));
    assert_eq!(from_binary(&to_binary(text)), Ok(text.to_string()));
    assert_eq!(decode_html_entities(&encode_html_entities(text)), text);
    assert_eq!(decode_rot13(&encode_rot13(text)), text);
}

#[test]
fn round_trips_on_unicode_text() {
    let text = "héllo wörld – ünïcode ✓";
    assert_eq!(decode_base64(&encode_base64(text)), Ok(text.to_string()));
    assert_eq!(decode_hex(&encode_hex(text)), Ok(text.to_string()));
    assert_eq!(decode_url(&encode_url(text)), Ok(text.to_string()));
    assert_eq!(from_binary(&to_binary(text)), Ok(text.to_string()));
}

#[test]
fn encoders_of_empty_input() {
    assert_eq!(encode_base64(""), "");
    assert_eq!(encode_hex(""), "");
    assert_eq!(encode_url(""), "");
    assert_eq!(to_binary(""), "");
    assert_eq!(encode_html_entities(""), "");
    assert_eq!(encode_rot13(""), "");
}

#[test]
fn decoders_of_empty_input() {
    assert_eq!(decode_base64(""), Ok(String::new()));
    assert_eq!(decode_hex(""), Ok(String::new()));
    assert_eq!(decode_url(""), Ok(String::new()));
    assert_eq!(from_binary(""), Ok(String::new()));
    assert_eq!(decode_html_entities(""), "");
    assert_eq!(decode_rot13(""), "");
}

#[test]
fn base64_padding_lengths() {
    assert_eq!(encode_base64("a"), "YQ==");
    assert_eq!(encode_base64("ab"), "YWI=");
    assert_eq!(encode_base64("abc"), "YWJj");
    assert_eq!(decode_base64("YQ=="), Ok("a".to_string()));
    assert_eq!(decode_base64("YWI="), Ok("ab".to_string()));
    assert_eq!(decode_base64("YWJj"), Ok("abc".to_string()));
}

#[test]
fn decode_base64_rejects_foreign_characters() {
    assert_eq!(decode_base64("a!b"), Err(DecodeError::InvalidCharacter(b'!')));
    assert_eq!(decode_base64("aGVsbG8\n"), Err(DecodeError::InvalidCharacter(b'\n')));
}

#[test]
fn decode_base64_rejects_invalid_utf8() {
    assert_eq!(decode_base64("/w=="), Err(DecodeError::InvalidUtf8));
}

#[test]
fn decode_hex_rejects_bad_input() {
    assert_eq!(decode_hex("abc"), Err(DecodeError::InvalidLength));
    assert_eq!(decode_hex("zz61"), Err(DecodeError::InvalidHex(0)));
    assert_eq!(decode_hex("61zz"), Err(DecodeError::InvalidHex(2)));
    assert_eq!(decode_hex("ff"), Err(DecodeError::InvalidUtf8));
}

#[test]
fn decode_hex_accepts_uppercase_digits() {
    assert_eq!(decode_hex("48692E"), Ok("Hi.".to_string()));
}

#[test]
fn decode_url_rejects_bad_input() {
    assert_eq!(decode_url("abc%2"), Err(DecodeError::IncompleteEscape));
    assert_eq!(decode_url("abc%"), Err(DecodeError::IncompleteEscape));
    assert_eq!(decode_url("ab%zz"), Err(DecodeError::InvalidHex(2)));
    assert_eq!(decode_url("%FF"), Err(DecodeError::InvalidUtf8));
}

#[test]
fn decode_url_plus_becomes_space() {
    assert_eq!(decode_url("a+b"), Ok("a b".to_string()));
}

#[test]
fn from_binary_rejects_bad_input() {
    assert_eq!(from_binary("0101"), Err(DecodeError::InvalidLength));
    assert_eq!(from_binary("0101010x"), Err(DecodeError::InvalidBinary(0)));
    assert_eq!(from_binary("0110000101x10101"), Err(DecodeError::InvalidBinary(8)));
    assert_eq!(from_binary("11111111"), Err(DecodeError::InvalidUtf8));
}

#[test]
fn decode_html_entities_is_single_pass() {
    assert_eq!(decode_html_entities("&amp;lt;"), "&lt;");
    assert_eq!(decode_html_entities("&#39;"), "'");
}

#[test]
fn rot13_applied_twice_is_identity() {
    let text = "Why did the chicken cross the road? Gb trg gb gur bgure fvqr!";
    assert_eq!(decode_rot13(&encode_rot13(text)), text);
}
