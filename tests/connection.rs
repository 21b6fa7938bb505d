use stm32f7_httpd::connection::{Connection, ConnectionState, PollStatus, SocketStatus};
use stm32f7_httpd::request::Request;
use stm32f7_httpd::response::{Response, ResponseBuilder};
use stm32f7_httpd::status::Status;

fn reading() -> Connection {
    let mut c = Connection::new();
    c.request_init();
    c
}

fn feed(chunks: &[&[u8]]) -> Connection {
    let mut c = reading();
    for ch in chunks {
        c.request_receive(ch.to_vec());
    }
    c
}

fn ready(c: &Connection) -> (String, String, String, Vec<(String, String)>, Vec<u8>) {
    match c.state() {
        ConnectionState::Ready { request, body } => {
            let mut hs = Vec::new();
            for i in 0..request.headers().len() {
                let (k, v) = request.headers().entry_at(i);
                hs.push((k.clone(), v.clone()));
            }
            (
                request.method().to_string(),
                request.path().to_string(),
                request.version().to_string(),
                hs,
                body.clone(),
            )
        }
        _ => panic!("not ready"),
    }
}

#[test]
fn simple_get_is_ready_at_once() {
    let c = feed(&[b"GET / HTTP/1.1\r\nHost: x\r\n\r\n"]);
    let (m, p, v, hs, body) = ready(&c);
    assert_eq!(m, "GET");
    assert_eq!(p, "/");
    assert_eq!(v, "HTTP/1.1");
    assert_eq!(hs, vec![("host".to_string(), "x".to_string())]);
    assert!(body.is_empty());
}

#[test]
fn partial_body_waits_for_last_byte() {
    let mut c = feed(&[b"GET / HTTP/1.1\r\nContent-Length: 5\r\n\r\nhell"]);
    match c.state() {
        ConnectionState::ReadingBody { request, bytes_remaining } => {
            assert_eq!(*bytes_remaining, 1);
            assert_eq!(request.path(), "/");
        }
        _ => panic!("expected to be reading the body"),
    }
    assert!(c.want_receive());
    c.request_receive(b"o".to_vec());
    let (_, _, _, _, body) = ready(&c);
    assert_eq!(body, b"hello".to_vec());
}

#[test]
fn malformed_method_fails_without_calling_handler() {
    let mut c = feed(&[b"FOO / HTTP/1.1\r\n\r\n"]);
    assert!(matches!(c.state(), ConnectionState::Failed));
    let handler = |_r: &Request, _b: &Vec<u8>| -> Response { panic!("handler must not run") };
    assert!(c.respond(&handler).is_none());
    assert!(matches!(c.state(), ConnectionState::Failed));
    c.request_close();
    assert!(matches!(c.state(), ConnectionState::Idle));
}

#[test]
fn invalid_utf8_fails() {
    let c = feed(&[b"GET /\xff HTTP/1.1\r\n\r\n"]);
    assert!(matches!(c.state(), ConnectionState::Failed));
}

#[test]
fn head_split_waits() {
    let mut c = feed(&[b"GET / HTTP/1.1\r\nHo"]);
    assert!(matches!(c.state(), ConnectionState::ReadingHead));
    c.request_receive(b"st: x\r\n\r\n".to_vec());
    let (_, _, _, hs, _) = ready(&c);
    assert_eq!(hs.len(), 1);
}

#[test]
fn byte_by_byte_equals_one_chunk() {
    let full: &[u8] = b"GET /pins/led HTTP/1.1\r\nContent-Length: 1\r\nHost: board\r\n\r\n1";
    let whole = ready(&feed(&[full]));
    let mut c = reading();
    for b in full {
        c.request_receive(vec![*b]);
    }
    assert_eq!(ready(&c), whole);
    assert_eq!(whole.4, b"1".to_vec());
}

#[test]
fn any_two_way_split_of_get_equals_one_chunk() {
    let full: &[u8] = b"GET /view/page HTTP/1.1\r\nContent-Length: 4\r\n\r\nbody";
    let whole = ready(&feed(&[full]));
    for cut in 0..=full.len() {
        let c = feed(&[&full[..cut], &full[cut..]]);
        assert_eq!(ready(&c), whole, "cut at {}", cut);
    }
}

#[test]
fn post_byte_by_byte_fails_at_pos() {
    let full: &[u8] = b"POST / HTTP/1.1\r\n\r\n";
    let mut c = reading();
    for b in full {
        c.request_receive(vec![*b]);
    }
    assert!(matches!(c.state(), ConnectionState::Failed));
}

#[test]
fn post_split_after_four_bytes_is_read() {
    let c = feed(&[b"POST", b" / HTTP/1.1\r\n\r\n"]);
    let (m, _, _, _, _) = ready(&c);
    assert_eq!(m, "POST");
}

#[test]
fn post_split_after_three_bytes_fails() {
    let c = feed(&[b"POS", b"T / HTTP/1.1\r\n\r\n"]);
    assert!(matches!(c.state(), ConnectionState::Failed));
}

#[test]
fn excess_body_is_dropped() {
    let c = feed(&[b"POST / HTTP/1.1\r\nContent-Length: 2\r\n\r\nabcdef"]);
    let (_, _, _, _, body) = ready(&c);
    assert_eq!(body, b"ab".to_vec());
    let mut c = feed(&[b"POST / HTTP/1.1\r\nContent-Length: 3\r\n\r\na"]);
    c.request_receive(b"bcdef".to_vec());
    let (_, _, _, _, body) = ready(&c);
    assert_eq!(body, b"abc".to_vec());
}

#[test]
fn unreadable_content_length_means_no_body() {
    let c = feed(&[b"POST / HTTP/1.1\r\nContent-Length: five\r\n\r\nabc"]);
    let (_, _, _, _, body) = ready(&c);
    assert!(body.is_empty());
}

#[test]
fn zero_content_length_is_ready() {
    let c = feed(&[b"POST / HTTP/1.1\r\nContent-Length: 0\r\n\r\n"]);
    let (_, _, _, _, body) = ready(&c);
    assert!(body.is_empty());
}

#[test]
fn plus_sign_content_length_is_read() {
    let c = feed(&[b"POST / HTTP/1.1\r\ncontent-length: +2\r\n\r\nxy"]);
    let (_, _, _, _, body) = ready(&c);
    assert_eq!(body, b"xy".to_vec());
}

#[test]
fn bytes_outside_reading_are_ignored() {
    let mut c = Connection::new();
    c.request_receive(b"GET / HTTP/1.1\r\n\r\n".to_vec());
    assert!(matches!(c.state(), ConnectionState::Idle));
    assert!(!c.want_receive());
}

#[test]
fn respond_serializes_and_goes_idle() {
    let mut c = feed(&[b"GET /x HTTP/1.1\r\n\r\n"]);
    let handler = |r: &Request, _b: &Vec<u8>| -> Response {
        ResponseBuilder::new(Status::OK).body(r.path().as_bytes().to_vec()).finalize()
    };
    let bytes = c.respond(&handler).unwrap();
    let text = String::from_utf8(bytes).unwrap();
    assert!(text.starts_with("HTTP/1.1 200 OK\r\n"));
    assert!(text.contains("Content-Length: 2\r\n"));
    assert!(text.ends_with("\r\n\r\n/x"));
    assert!(matches!(c.state(), ConnectionState::Idle));
}

fn sock(is_active: bool, is_open: bool, may_recv: bool, may_send: bool) -> SocketStatus {
    SocketStatus { is_active, is_open, may_recv, may_send }
}

#[test]
fn poll_reports_activity_changes_first() {
    let mut c = Connection::new();
    assert_eq!(c.poll_socket(sock(true, true, true, true)), PollStatus::Established);
    assert_eq!(c.poll_socket(sock(true, true, false, false)), PollStatus::Inactive);
    assert_eq!(c.poll_socket(sock(false, true, false, false)), PollStatus::Closed);
    assert_eq!(c.poll_socket(sock(false, false, false, false)), PollStatus::Listen);
}

#[test]
fn poll_receives_only_when_reading() {
    let mut c = Connection::new();
    assert_eq!(c.poll_socket(sock(false, true, true, true)), PollStatus::Respond);
    c.request_init();
    assert_eq!(c.poll_socket(sock(false, true, true, true)), PollStatus::Receive);
    assert_eq!(c.poll_socket(sock(false, true, false, true)), PollStatus::Respond);
}
