use stm32f7_httpd::response::{serialize, Response, ResponseBuilder};
use stm32f7_httpd::status::Status;
use stm32f7_httpd::string_map::StringMap;

#[test]
fn empty_response_has_no_headers() {
    let r = ResponseBuilder::new(Status::OK).finalize();
    assert_eq!(r.headers.len(), 0);
    assert!(r.body.is_empty());
    assert_eq!(serialize(&r), b"HTTP/1.1 200 OK\r\n\r\n".to_vec());
}

#[test]
fn body_gets_length_and_default_type() {
    let r = ResponseBuilder::new(Status::OK).body(b"<p>hi</p>".to_vec()).finalize();
    assert_eq!(r.headers.get("Content-Length").map(|s| s.as_str()), Some("9"));
    assert_eq!(r.headers.get("Content-Type").map(|s| s.as_str()), Some("application/octet-stream"));
}

#[test]
fn html_body_keeps_html_type_and_counts_bytes() {
    let r = ResponseBuilder::new(Status::NotFound).body_html("caf\u{e9}").finalize();
    assert_eq!(r.headers.get("Content-Type").map(|s| s.as_str()), Some("text/html"));
    assert_eq!(r.headers.get("Content-Length").map(|s| s.as_str()), Some("5"));
    assert_eq!(r.body, "caf\u{e9}".as_bytes().to_vec());
}

#[test]
fn explicit_headers_are_kept() {
    let r = ResponseBuilder::new(Status::OK)
        .header("Content-Type", "application/json")
        .header("Content-Length", "7")
        .body(b"{}".to_vec())
        .finalize();
    assert_eq!(r.headers.get("Content-Type").map(|s| s.as_str()), Some("application/json"));
    assert_eq!(r.headers.get("Content-Length").map(|s| s.as_str()), Some("7"));
}

#[test]
fn later_header_value_wins() {
    let r = ResponseBuilder::new(Status::OK).header("X", "1").header("X", "2").finalize();
    assert_eq!(r.headers.len(), 1);
    assert_eq!(r.headers.get("X").map(|s| s.as_str()), Some("2"));
}

#[test]
fn serialize_exact_bytes() {
    let r = ResponseBuilder::new(Status::BadRequest).header("Server", "x").body(b"no".to_vec()).finalize();
    let expected = b"HTTP/1.1 400 Bad Request\r\nServer: x\r\nContent-Length: 2\r\nContent-Type: application/octet-stream\r\n\r\nno".to_vec();
    assert_eq!(serialize(&r), expected);
}

#[test]
fn finalize_twice_is_byte_identical() {
    let build = || ResponseBuilder::new(Status::OK).header("A", "b").body(vec![0, 255, 10]);
    let a = serialize(&build().finalize());
    let b = serialize(&build().finalize());
    assert_eq!(a, b);
    let once = build().finalize();
    let mut again = ResponseBuilder::new(once.status);
    for i in 0..once.headers.len() {
        let (k, v) = once.headers.entry_at(i);
        again = again.header(k, v);
    }
    let twice = again.body(once.body.clone()).finalize();
    assert_eq!(serialize(&twice), serialize(&once));
}

#[test]
fn response_new_keeps_parts() {
    let mut h = StringMap::new();
    h.insert("Content-Type".to_string(), "text/html".to_string());
    let r = Response::new(Status::NotFound, h, b"x".to_vec());
    assert_eq!(serialize(&r), b"HTTP/1.1 404 Not Found\r\nContent-Type: text/html\r\n\r\nx".to_vec());
}

#[test]
fn status_codes_and_reasons() {
    assert_eq!(Status::OK.numerical_and_text(), (200, "OK"));
    assert_eq!(Status::BadRequest.numerical_and_text(), (400, "Bad Request"));
    assert_eq!(Status::NotFound.numerical_and_text(), (404, "Not Found"));
}

#[test]
fn large_body_length_digits() {
    let r = ResponseBuilder::new(Status::OK).body(vec![b'a'; 1234]).finalize();
    assert_eq!(r.headers.get("Content-Length").map(|s| s.as_str()), Some("1234"));
}
