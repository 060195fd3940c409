use http_credential_broker::outside::{
    base64_encode, parse_header_name_text, parse_header_value, parse_method, parse_uri,
    percent_decode_utf8, UriParts,
};
use http_credential_broker::Environment;

#[test]
fn percent_decoding_decodes_hex_pairs_only() {
    assert_eq!(percent_decode_utf8("a%2Fb"), Some("a/b".to_owned()));
    assert_eq!(percent_decode_utf8("%zz%4"), Some("%zz%4".to_owned()));
    assert_eq!(percent_decode_utf8("%C3%A9"), Some("é".to_owned()));
    assert_eq!(percent_decode_utf8("%C3"), None);
}

#[test]
fn base64_is_standard_with_padding() {
    assert_eq!(base64_encode(b""), "");
    assert_eq!(base64_encode(b"f"), "Zg==");
    assert_eq!(base64_encode(b"fo"), "Zm8=");
    assert_eq!(base64_encode(b"foo"), "Zm9v");
    assert_eq!(base64_encode(&[0xfb, 0xff]), "+/8=");
}

#[test]
fn http_tokens() {
    assert_eq!(parse_method("PATCH"), Ok("PATCH".to_owned()));
    assert_eq!(parse_method("purge"), Ok("purge".to_owned()));
    assert_eq!(parse_method(""), Err("invalid HTTP method".to_owned()));
    assert_eq!(parse_header_name_text("X-Foo"), Ok("x-foo".to_owned()));
    assert_eq!(
        parse_header_name_text("x:y"),
        Err("invalid HTTP header name".to_owned())
    );
    assert_eq!(parse_header_value("a\tb é"), Ok("a\tb é".as_bytes().to_vec()));
    assert_eq!(
        parse_header_value("a\rb"),
        Err("failed to parse header value".to_owned())
    );
}

#[test]
fn uri_parts() {
    assert_eq!(
        parse_uri("https://h.example/p?q"),
        Ok(UriParts {
            has_scheme: true,
            has_authority: true,
            has_query: true
        })
    );
    assert_eq!(
        parse_uri("/p"),
        Ok(UriParts {
            has_scheme: false,
            has_authority: false,
            has_query: false
        })
    );
    assert!(parse_uri("").is_err());
}

#[test]
fn environment_lookup_takes_first_binding() {
    let env = Environment::new(vec![
        ("A".to_owned(), "1".to_owned()),
        ("A".to_owned(), "2".to_owned()),
    ]);
    assert_eq!(env.lookup("A"), Some("1".to_owned()));
    assert_eq!(env.lookup("B"), None);
}
