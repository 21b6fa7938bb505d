use stm32f7_httpd::parser::{HTTPParser, ParseError};

fn parse(input: &str) -> Result<stm32f7_httpd::request::Request, ParseError> {
    HTTPParser::new(input).parse_head()
}

#[test]
fn parses_simple_get_head() {
    let req = parse("GET / HTTP/1.1\r\nHost: x\r\n\r\n").unwrap();
    assert_eq!(req.method(), "GET");
    assert_eq!(req.path(), "/");
    assert_eq!(req.version(), "HTTP/1.1");
    assert_eq!(req.headers().len(), 1);
    assert_eq!(req.headers().get("host").map(|v| v.as_str()), Some("x"));
}

#[test]
fn parses_post_with_several_headers() {
    let req = parse("POST /pins/led HTTP/1.0\r\nA: 1\r\nB: 2\r\n\r\n").unwrap();
    assert_eq!(req.method(), "POST");
    assert_eq!(req.path(), "/pins/led");
    assert_eq!(req.version(), "HTTP/1.0");
    let (k0, v0) = req.headers().entry_at(0);
    let (k1, v1) = req.headers().entry_at(1);
    assert_eq!((k0.as_str(), v0.as_str()), ("a", "1"));
    assert_eq!((k1.as_str(), v1.as_str()), ("b", "2"));
}

#[test]
fn header_names_are_lowercased_and_values_trimmed() {
    let req = parse("GET / HTTP/1.1\r\nX-Thing:   Some Value \t\r\n\r\n").unwrap();
    assert_eq!(req.headers().get("x-thing").map(|v| v.as_str()), Some("Some Value"));
    assert!(req.headers().get("X-Thing").is_none());
}

#[test]
fn later_header_overrides_earlier() {
    let req = parse("GET / HTTP/1.1\r\nHost: a\r\nhost: b\r\n\r\n").unwrap();
    assert_eq!(req.headers().len(), 1);
    assert_eq!(req.headers().get("host").map(|v| v.as_str()), Some("b"));
}

#[test]
fn no_headers() {
    let req = parse("GET /a HTTP/1.1\r\n\r\n").unwrap();
    assert_eq!(req.headers().len(), 0);
    assert_eq!(req.path(), "/a");
}

#[test]
fn non_ascii_path_is_kept() {
    let req = parse("GET /caf\u{e9} HTTP/1.1\r\n\r\n").unwrap();
    assert_eq!(req.path(), "/caf\u{e9}");
}

#[test]
fn remaining_holds_the_body() {
    let mut p = HTTPParser::new("POST / HTTP/1.1\r\nContent-Length: 3\r\n\r\nabc");
    p.parse_head().unwrap();
    assert_eq!(p.remaining(), b"abc");
}

#[test]
fn unknown_method_is_fatal() {
    assert!(matches!(parse("FOO / HTTP/1.1\r\n\r\n"), Err(ParseError::Fatal)));
}

#[test]
fn short_method_needs_more_input() {
    assert!(matches!(parse(""), Err(ParseError::NotEnoughInput)));
    assert!(matches!(parse("G"), Err(ParseError::NotEnoughInput)));
    assert!(matches!(parse("PO"), Err(ParseError::NotEnoughInput)));
}

#[test]
fn pos_is_fatal() {
    assert!(matches!(parse("POS"), Err(ParseError::Fatal)));
}

#[test]
fn expect_too_short_needs_more_input() {
    // the space after the method is expected on an empty remainder
    assert!(matches!(parse("GET"), Err(ParseError::NotEnoughInput)));
}

#[test]
fn expect_mismatch_is_fatal() {
    // the space after the method is expected, another byte is there
    assert!(matches!(parse("GETX / HTTP/1.1\r\n\r\n"), Err(ParseError::Fatal)));
}

#[test]
fn every_proper_prefix_needs_more_input() {
    let full = "GET /view/x HTTP/1.1\r\nHost: x\r\nAccept: */*\r\n\r\n";
    for n in 0..full.len() {
        let r = parse(&full[..n]);
        assert!(matches!(r, Err(ParseError::NotEnoughInput)), "prefix {}", n);
    }
    assert!(parse(full).is_ok());
}

#[test]
fn header_line_without_colon_waits() {
    assert!(matches!(parse("GET / HTTP/1.1\r\nbroken\r\n\r\n"), Err(ParseError::NotEnoughInput)));
}
