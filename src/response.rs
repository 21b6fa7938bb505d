use vstd::prelude::*;
use vstd::slice::slice_to_vec;
use vstd::string::StringExecFns;
use vstd::utf8::*;

use crate::status::Status;
use crate::string_map::{
    has_key, insert_entry, lemma_insert_has_key, lemma_insert_keeps_key, Entries, StringMap,
};
use crate::text::{decimal, usize_to_string};

verus! {

/// Abstract value of a [`Response`] and of a [`ResponseBuilder`].
pub struct ResponseView {
    pub status: Status,
    pub headers: Entries,
    pub body: Seq<u8>,
}

/// A response ready to be written to the connection.
#[derive(Clone, Debug)]
pub struct Response {
    pub status: Status,
    pub headers: StringMap,
    pub body: Vec<u8>,
}

impl View for Response {
    type V = ResponseView;

    open spec fn view(&self) -> ResponseView {
        ResponseView { status: self.status, headers: self.headers@, body: self.body@ }
    }
}

impl Response {
    pub fn new(status: Status, headers: StringMap, body: Vec<u8>) -> (r: Response)
        ensures
            r@ == (ResponseView { status: status, headers: headers@, body: body@ }),
    {
        Response { status, headers, body }
    }
}

/// The `Content-Length` header name.
pub open spec fn content_length_key() -> Seq<char> {
    seq!['C', 'o', 'n', 't', 'e', 'n', 't', '-', 'L', 'e', 'n', 'g', 't', 'h']
}

/// The `Content-Type` header name.
pub open spec fn content_type_key() -> Seq<char> {
    seq!['C', 'o', 'n', 't', 'e', 'n', 't', '-', 'T', 'y', 'p', 'e']
}

/// The content type of an HTML body.
pub open spec fn html_type() -> Seq<char> {
    seq!['t', 'e', 'x', 't', '/', 'h', 't', 'm', 'l']
}

/// The content type of a body of unknown kind.
pub open spec fn binary_type() -> Seq<char> {
    seq![
        'a', 'p', 'p', 'l', 'i', 'c', 'a', 't', 'i', 'o', 'n', '/',
        'o', 'c', 't', 'e', 't', '-', 's', 't', 'r', 'e', 'a', 'm',
    ]
}

/// What finalizing adds: for a non-empty body, its length in bytes and a
/// generic content type, each only where the header is not set already.
pub open spec fn finalized(r: ResponseView) -> ResponseView {
    if r.body.len() == 0 {
        r
    } else {
        let h1 = if has_key(r.headers, content_length_key()) {
            r.headers
        } else {
            insert_entry(r.headers, content_length_key(), decimal(r.body.len()))
        };
        let h2 = if has_key(h1, content_type_key()) {
            h1
        } else {
            insert_entry(h1, content_type_key(), binary_type())
        };
        ResponseView { headers: h2, ..r }
    }
}

/// Assembles a [`Response`]: a status, header fields (a later value for a
/// name replaces the earlier one) and a body.
pub struct ResponseBuilder {
    status: Status,
    headers: StringMap,
    body: Vec<u8>,
}

impl View for ResponseBuilder {
    type V = ResponseView;

    closed spec fn view(&self) -> ResponseView {
        ResponseView { status: self.status, headers: self.headers@, body: self.body@ }
    }
}

impl ResponseBuilder {
    pub fn new(status: Status) -> (r: ResponseBuilder)
        ensures
            r@ == (ResponseView { status: status, headers: Seq::empty(), body: Seq::empty() }),
    {
        ResponseBuilder { status, headers: StringMap::new(), body: Vec::new() }
    }

    /// Sets the header `key` to `value`.
    pub fn header(self, key: &str, value: &str) -> (r: ResponseBuilder)
        ensures
            r@ == (ResponseView { headers: insert_entry(self@.headers, key@, value@), ..self@ }),
    {
        let mut b = self;
        b.headers.insert(key.to_owned(), value.to_owned());
        b
    }

    /// Sets the body.
    pub fn body(self, body: Vec<u8>) -> (r: ResponseBuilder)
        ensures
            r@ == (ResponseView { body: body@, ..self@ }),
    {
        let mut b = self;
        b.body = body;
        b
    }

    /// Sets an HTML body: its UTF-8 bytes, with content type `text/html`.
    pub fn body_html(self, body_str: &str) -> (r: ResponseBuilder)
        ensures
            r@ == (ResponseView {
                headers: insert_entry(self@.headers, content_type_key(), html_type()),
                body: encode_utf8(body_str@),
                ..self@
            }),
    {
        let mut b = self;
        proof {
            reveal_strlit("Content-Type");
            reveal_strlit("text/html");
            assert("Content-Type"@ =~= content_type_key());
            assert("text/html"@ =~= html_type());
        }
        b.headers.insert("Content-Type".to_owned(), "text/html".to_owned());
        b.body = slice_to_vec(body_str.as_bytes());
        b
    }

    /// Completes the response, adding the derived headers.
    pub fn finalize(self) -> (r: Response)
        ensures
            r@ == finalized(self@),
    {
        let mut b = self;
        proof {
            reveal_strlit("Content-Length");
            reveal_strlit("Content-Type");
            reveal_strlit("application/octet-stream");
            assert("Content-Length"@ =~= content_length_key());
            assert("Content-Type"@ =~= content_type_key());
            assert("application/octet-stream"@ =~= binary_type());
        }
        if b.body.len() > 0 {
            if !b.headers.contains_key("Content-Length") {
                b.headers.insert("Content-Length".to_owned(), usize_to_string(b.body.len()));
            }
            if !b.headers.contains_key("Content-Type") {
                b.headers.insert("Content-Type".to_owned(), "application/octet-stream".to_owned());
            }
        }
        Response::new(b.status, b.headers, b.body)
    }
}

/// The header lines, `name: value` each ended by CRLF.
pub open spec fn header_lines(h: Entries) -> Seq<char>
    decreases h.len(),
{
    if h.len() == 0 {
        Seq::empty()
    } else {
        header_lines(h.drop_last()) + h.last().0 + seq![':', ' '] + h.last().1 + seq![
            '\r',
            '\n',
        ]
    }
}

/// The status line, the header lines and the empty line that ends the head.
pub open spec fn head_text(r: ResponseView) -> Seq<char> {
    seq!['H', 'T', 'T', 'P', '/', '1', '.', '1', ' '] + decimal(r.status.code() as nat) + seq![' ']
        + r.status.reason() + seq!['\r', '\n'] + header_lines(r.headers) + seq!['\r', '\n']
}

/// The bytes of a response on the wire: its head as UTF-8, then the body
/// unchanged.
pub open spec fn wire_bytes(r: ResponseView) -> Seq<u8> {
    encode_utf8(head_text(r)) + r.body
}

/// Finalizing is idempotent: a finalized response has nothing left to add.
pub proof fn lemma_finalize_idempotent(r: ResponseView)
    ensures
        finalized(finalized(r)) == finalized(r),
{
    if r.body.len() > 0 {
        let f = finalized(r);
        let h1 = if has_key(r.headers, content_length_key()) {
            r.headers
        } else {
            insert_entry(r.headers, content_length_key(), decimal(r.body.len()))
        };
        lemma_insert_has_key(r.headers, content_length_key(), decimal(r.body.len()));
        lemma_insert_keeps_key(h1, content_type_key(), binary_type(), content_length_key());
        lemma_insert_has_key(h1, content_type_key(), binary_type());
        assert(has_key(f.headers, content_length_key()));
        assert(has_key(f.headers, content_type_key()));
    }
}

/// Finalizing equal builders and serializing yields identical bytes.
pub proof fn lemma_finalize_serialize_deterministic(a: ResponseView, b: ResponseView)
    requires
        a == b,
    ensures
        wire_bytes(finalized(a)) == wire_bytes(finalized(b)),
        wire_bytes(finalized(finalized(a))) == wire_bytes(finalized(b)),
{
    lemma_finalize_idempotent(a);
}

/// Writes a response in wire format.
pub fn serialize(response: &Response) -> (r: Vec<u8>)
    ensures
        r@ == wire_bytes(response@),
{
    let (code, reason) = response.status.numerical_and_text();
    let mut text = String::new();
    proof {
        reveal_strlit("HTTP/1.1 ");
        reveal_strlit(" ");
        reveal_strlit("\r\n");
        reveal_strlit(": ");
        assert("HTTP/1.1 "@ =~= seq!['H', 'T', 'T', 'P', '/', '1', '.', '1', ' ']);
        assert(" "@ =~= seq![' ']);
        assert("\r\n"@ =~= seq!['\r', '\n']);
    }
    text.append("HTTP/1.1 ");
    text.append(usize_to_string(code as usize).as_str());
    text.append(" ");
    text.append(reason);
    text.append("\r\n");
    let n = response.headers.len();
    let mut i: usize = 0;
    while i < n
        invariant
            n == response.headers@.len(),
            0 <= i <= n,
            text@ == seq!['H', 'T', 'T', 'P', '/', '1', '.', '1', ' '] + decimal(
                response.status.code() as nat,
            ) + seq![' '] + response.status.reason() + seq!['\r', '\n'] + header_lines(
                response.headers@.take(i as int),
            ),
        decreases n - i,
    {
        let (key, value) = response.headers.entry_at(i);
        let ghost prev = text@;
        proof {
            let t = response.headers@.take(i + 1);
            assert(t.drop_last() =~= response.headers@.take(i as int));
            assert(t.last() == response.headers@[i as int]);
            assert(header_lines(t) == header_lines(t.drop_last()) + key@ + seq![':', ' '] + value@
                + seq!['\r', '\n']);
            reveal_strlit(": ");
            reveal_strlit("\r\n");
            assert(": "@ =~= seq![':', ' ']);
            assert("\r\n"@ =~= seq!['\r', '\n']);
        }
        text.append(key.as_str());
        text.append(": ");
        text.append(value.as_str());
        text.append("\r\n");
        i += 1;
        proof {
            assert(text@ =~= prev + key@ + seq![':', ' '] + value@ + seq!['\r', '\n']);
            assert(text@ =~= seq!['H', 'T', 'T', 'P', '/', '1', '.', '1', ' '] + decimal(
                response.status.code() as nat,
            ) + seq![' '] + response.status.reason() + seq!['\r', '\n'] + header_lines(
                response.headers@.take(i as int),
            ));
        }
    }
    text.append("\r\n");
    proof {
        assert(response.headers@.take(n as int) =~= response.headers@);
        assert(text@ =~= head_text(response@));
    }
    let mut bytes = slice_to_vec(text.as_str().as_bytes());
    bytes.extend_from_slice(response.body.as_slice());
    assert(bytes@ =~= wire_bytes(response@));
    bytes
}

} // verus!
