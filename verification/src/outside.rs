//! The calls this library makes into other crates (`percent-encoding`,
//! `http`, `base64`), each behind a small trusted function whose contract
//! states what that crate's source does.
use vstd::prelude::*;
use vstd::utf8::{
    char_is_scalar, char_u32_cast, decode_utf8, encode_scalar, encode_utf8, encode_utf8_decode_utf8,
    encode_utf8_valid_utf8, valid_utf8,
};

verus! {

// ---------------------------------------------------------------------------
// percent-encoding
// ---------------------------------------------------------------------------

/// The value of an ASCII hexadecimal digit (`char::to_digit(16)`).
pub open spec fn hex_digit(b: u8) -> Option<u8> {
    if 48 <= b <= 57 {
        Some((b - 48) as u8)
    } else if 97 <= b <= 102 {
        Some((b - 87) as u8)
    } else if 65 <= b <= 70 {
        Some((b - 55) as u8)
    } else {
        None
    }
}

/// Percent-decoding of `b`: each `%` followed by two hexadecimal digits
/// becomes the byte they spell; every other byte, a lone `%` included, stays.
pub open spec fn percent_decode_bytes(b: Seq<u8>) -> Seq<u8>
    decreases b.len(),
{
    if b.len() == 0 {
        Seq::empty()
    } else if b[0] == 37 && b.len() >= 3 && hex_digit(b[1]) is Some && hex_digit(b[2]) is Some {
        seq![(hex_digit(b[1])->0 * 16 + hex_digit(b[2])->0) as u8] + percent_decode_bytes(
            b.skip(3),
        )
    } else {
        seq![b[0]] + percent_decode_bytes(b.skip(1))
    }
}

/// The text that the UTF-8 bytes of `s`, percent-decoded, spell; `None` when
/// the decoded bytes are not valid UTF-8.
pub open spec fn percent_decode_text(s: Seq<char>) -> Option<Seq<char>> {
    let d = percent_decode_bytes(encode_utf8(s));
    if valid_utf8(d) {
        Some(decode_utf8(d))
    } else {
        None
    }
}

/// Percent-decoding keeps bytes without any `%` as they are.
proof fn lemma_percent_decode_plain_bytes(b: Seq<u8>)
    requires
        forall|i: int| 0 <= i < b.len() ==> b[i] != 37,
    ensures
        percent_decode_bytes(b) == b,
    decreases b.len(),
{
    if b.len() > 0 {
        lemma_percent_decode_plain_bytes(b.skip(1));
        assert(seq![b[0]] + b.skip(1) =~= b);
    }
}

/// No byte of the UTF-8 encoding of a text without `%` is a `%`.
proof fn lemma_encode_without_percent(s: Seq<char>)
    requires
        !s.contains('%'),
    ensures
        forall|i: int| 0 <= i < encode_utf8(s).len() ==> encode_utf8(s)[i] != 37,
    decreases s.len(),
{
    if s.len() > 0 {
        let rest = s.drop_first();
        if rest.contains('%') {
            let k = choose|k: int| 0 <= k < rest.len() && rest[k] == '%';
            assert(s[k + 1] == '%');
        }
        lemma_encode_without_percent(rest);
        assert(s[0] != '%');
        let c = s[0] as u32;
        char_is_scalar(s[0]);
        if c == ('%' as u32) {
            char_u32_cast(s[0], c);
            char_u32_cast('%', c);
        }
        assert(('%' as u32) == 37);
        let e = encode_scalar(c);
        assert(c <= 0x7F && c != 37 ==> ((c & 0x7F) as u8) != 37u8) by (bit_vector);
        assert((0xC0u8 | (((c >> 6) & 0x1F) as u8)) >= 0x80u8) by (bit_vector);
        assert((0xE0u8 | (((c >> 12) & 0x0F) as u8)) >= 0x80u8) by (bit_vector);
        assert((0xF0u8 | (((c >> 18) & 0x7) as u8)) >= 0x80u8) by (bit_vector);
        assert((0x80u8 | ((c & 0x3F) as u8)) >= 0x80u8) by (bit_vector);
        assert((0x80u8 | (((c >> 6) & 0x3F) as u8)) >= 0x80u8) by (bit_vector);
        assert((0x80u8 | (((c >> 12) & 0x3F) as u8)) >= 0x80u8) by (bit_vector);
        assert(forall|i: int| 0 <= i < e.len() ==> e[i] != 37);
        assert(encode_utf8(s) == e + encode_utf8(rest));
        assert forall|i: int| 0 <= i < encode_utf8(s).len() implies encode_utf8(s)[i] != 37 by {
            if i < e.len() {
                assert(encode_utf8(s)[i] == e[i]);
            } else {
                assert(encode_utf8(s)[i] == encode_utf8(rest)[i - e.len()]);
            }
        }
    }
}

/// Decoding law: text without any `%` decodes to itself.
pub proof fn lemma_percent_decode_plain(s: Seq<char>)
    requires
        !s.contains('%'),
    ensures
        percent_decode_text(s) == Some(s),
{
    lemma_encode_without_percent(s);
    lemma_percent_decode_plain_bytes(encode_utf8(s));
    encode_utf8_valid_utf8(s);
    encode_utf8_decode_utf8(s);
}

/// `percent_encoding::percent_decode_str(s).decode_utf8()`: the bytes of `s`
/// are percent-decoded (`PercentDecode::next` turns `%` and two hex digits
/// into one byte and keeps every other byte), then read as UTF-8
/// (`str::from_utf8` / `String::from_utf8`), which fails exactly on invalid
/// UTF-8.
#[verifier::external_body]
pub fn percent_decode_utf8(s: &str) -> (r: Option<String>)
    ensures
        r is Some <==> percent_decode_text(s@) is Some,
        r matches Some(d) ==> d@ == percent_decode_text(s@)->0,
{
    match percent_encoding::percent_decode_str(s).decode_utf8() {
        Ok(decoded) => Some(decoded.into_owned()),
        Err(_) => None,
    }
}

// ---------------------------------------------------------------------------
// http: methods, header names, header values, URIs
// ---------------------------------------------------------------------------

/// A token character of RFC 9110 (`tchar`): the characters that
/// `http::Method` and `http::HeaderName` accept.
pub open spec fn is_tchar(c: char) -> bool {
    ||| ('a' <= c && c <= 'z')
    ||| ('A' <= c && c <= 'Z')
    ||| ('0' <= c && c <= '9')
    ||| c == '!' || c == '#' || c == '$' || c == '%' || c == '&' || c == '\''
    ||| c == '*' || c == '+' || c == '-' || c == '.' || c == '^' || c == '_'
    ||| c == '`' || c == '|' || c == '~'
}

/// `c` in ASCII lower case.
pub open spec fn ascii_lower(c: char) -> char {
    if 'A' <= c && c <= 'Z' {
        ((c as u32) + 32) as char
    } else {
        c
    }
}

/// The text `http::Method::from_bytes` accepts: one or more token characters.
pub open spec fn method_ok(s: Seq<char>) -> bool {
    s.len() >= 1 && forall|i: int| 0 <= i < s.len() ==> is_tchar(#[trigger] s[i])
}

/// The text `http::HeaderName::from_bytes` accepts: one to 65535 token
/// characters.
pub open spec fn header_name_ok(s: Seq<char>) -> bool {
    1 <= s.len() <= 65535 && forall|i: int| 0 <= i < s.len() ==> is_tchar(#[trigger] s[i])
}

/// The name `http::HeaderName` keeps for a valid `s`: `s` in lower case.
pub open spec fn header_name_text(s: Seq<char>) -> Seq<char> {
    s.map_values(|c: char| ascii_lower(c))
}

/// A byte `http::HeaderValue` accepts: visible ASCII, space, tab, or any byte
/// from 0x80 up; not other control bytes and not DEL.
pub open spec fn header_value_byte(b: u8) -> bool {
    (b >= 32 && b != 127) || b == 9
}

/// Bytes that `http::HeaderValue::from_str` accepts.
pub open spec fn header_value_ok(b: Seq<u8>) -> bool {
    forall|i: int| 0 <= i < b.len() ==> header_value_byte(#[trigger] b[i])
}

/// `http::Method::from_bytes` on the UTF-8 bytes of `raw`, as the method's
/// text (`Method::as_str`). It succeeds exactly when `raw` is one or more
/// token characters (the `METHOD_CHARS` table; a non-ASCII character never
/// passes, as its bytes are all above 0x7f), and the method's text is then
/// `raw` unchanged. Its error displays as "invalid HTTP method".
#[verifier::external_body]
pub fn parse_method(raw: &str) -> (r: Result<String, String>)
    ensures
        r is Ok <==> method_ok(raw@),
        r matches Ok(m) ==> m@ == raw@,
        r matches Err(e) ==> e@ == "invalid HTTP method"@,
{
    match http::Method::from_bytes(raw.as_bytes()) {
        Ok(method) => Ok(method.as_str().to_owned()),
        Err(err) => Err(err.to_string()),
    }
}

/// `http::HeaderName::from_bytes` on the UTF-8 bytes of `raw`, as the name's
/// text (`HeaderName::as_str`). It succeeds exactly when `raw` is 1 to 65535
/// token characters (the `HEADER_CHARS` table and `MAX_HEADER_NAME_LEN`), and
/// the name is then `raw` in ASCII lower case. Its error displays as
/// "invalid HTTP header name".
#[verifier::external_body]
pub fn parse_header_name_text(raw: &str) -> (r: Result<String, String>)
    ensures
        r is Ok <==> header_name_ok(raw@),
        r matches Ok(n) ==> n@ == header_name_text(raw@),
        r matches Err(e) ==> e@ == "invalid HTTP header name"@,
{
    match http::HeaderName::from_bytes(raw.as_bytes()) {
        Ok(name) => Ok(name.as_str().to_owned()),
        Err(err) => Err(err.to_string()),
    }
}

/// `http::HeaderValue::from_str`, as the value's bytes. It succeeds exactly
/// when every byte of `s` is a header-value byte (`is_valid`), and the value
/// then holds those bytes. Its error displays as "failed to parse header value".
#[verifier::external_body]
pub fn parse_header_value(s: &str) -> (r: Result<Vec<u8>, String>)
    ensures
        r is Ok <==> header_value_ok(encode_utf8(s@)),
        r matches Ok(v) ==> v@ == encode_utf8(s@),
        r matches Err(e) ==> e@ == "failed to parse header value"@,
{
    match http::HeaderValue::from_str(s) {
        Ok(value) => Ok(value.as_bytes().to_vec()),
        Err(err) => Err(err.to_string()),
    }
}

/// Which components a parsed URI has.
#[derive(Clone, Copy, Debug, PartialEq, Eq)]
pub struct UriParts {
    pub has_scheme: bool,
    pub has_authority: bool,
    pub has_query: bool,
}

/// The outcome of parsing `raw` as an `http::Uri`: the components it has, or
/// the text of the parse error.
pub uninterp spec fn uri_parse(raw: Seq<char>) -> Result<UriParts, Seq<char>>;

/// `raw.parse::<http::Uri>()`: whether the parsed URI has a scheme, an
/// authority and a query, or the error's text. The outcome depends on `raw`
/// alone; what it is for a given `raw` is left to the name `uri_parse`.
#[verifier::external_body]
pub fn parse_uri(raw: &str) -> (r: Result<UriParts, String>)
    ensures
        match r {
            Ok(p) => uri_parse(raw@) == Ok::<UriParts, Seq<char>>(p),
            Err(e) => uri_parse(raw@) == Err::<UriParts, Seq<char>>(e@),
        },
{
    match raw.parse::<http::Uri>() {
        Ok(uri) => Ok(
            UriParts {
                has_scheme: uri.scheme().is_some(),
                has_authority: uri.authority().is_some(),
                has_query: uri.query().is_some(),
            },
        ),
        Err(err) => Err(err.to_string()),
    }
}

// ---------------------------------------------------------------------------
// base64
// ---------------------------------------------------------------------------

/// The character of the standard base64 alphabet for the 6-bit value `v`.
pub open spec fn base64_char(v: int) -> char {
    if v < 26 {
        (65 + v) as char
    } else if v < 52 {
        (97 + v - 26) as char
    } else if v < 62 {
        (48 + v - 52) as char
    } else if v == 62 {
        '+'
    } else {
        '/'
    }
}

/// Standard base64 (RFC 4648, with `=` padding) of `b`.
pub open spec fn base64_standard(b: Seq<u8>) -> Seq<char>
    decreases b.len(),
{
    if b.len() == 0 {
        Seq::empty()
    } else {
        let x = b[0] as int;
        let y = if b.len() > 1 { b[1] as int } else { 0 };
        let z = if b.len() > 2 { b[2] as int } else { 0 };
        let c0 = base64_char(x / 4);
        let c1 = base64_char((x % 4) * 16 + y / 16);
        let c2 = base64_char((y % 16) * 4 + z / 64);
        let c3 = base64_char(z % 64);
        if b.len() == 1 {
            seq![c0, c1, '=', '=']
        } else if b.len() == 2 {
            seq![c0, c1, c2, '=']
        } else {
            seq![c0, c1, c2, c3] + base64_standard(b.skip(3))
        }
    }
}

/// `base64::engine::general_purpose::STANDARD.encode(input)`: the standard
/// alphabet with `=` padding. (Its length check cannot fail: a slice holds at
/// most `isize::MAX` bytes.)
#[verifier::external_body]
pub fn base64_encode(input: &[u8]) -> (s: String)
    ensures
        s@ == base64_standard(input@),
{
    base64::Engine::encode(&base64::engine::general_purpose::STANDARD, input)
}

} // verus!
