use vstd::prelude::*;
use vstd::slice::slice_to_vec;
use vstd::utf8::*;

use crate::parser::{head_at, request_of, HTTPParser, ParseError};
use crate::request::{Request, RequestView};
use crate::response::{serialize, wire_bytes, Response};
use crate::string_map::lookup;
use crate::text::{parse_usize, parsed_usize, string_from_utf8};

verus! {

broadcast use vstd::utf8::decode_utf8_encode_utf8;

/// Where the exchange on the connection stands.
#[derive(Debug)]
pub enum ConnectionState {
    /// No exchange is active.
    Idle,
    /// Bytes are accumulating toward a complete request head.
    ReadingHead,
    /// The head is parsed; `bytes_remaining` body bytes are still to come.
    ReadingBody { request: Request, bytes_remaining: usize },
    /// The request is complete and waits for the handler.
    Ready { request: Request, body: Vec<u8> },
    /// The input was malformed; the connection is to be closed.
    Failed,
}

/// Abstract value of a [`ConnectionState`].
pub enum StateView {
    Idle,
    ReadingHead,
    ReadingBody { request: RequestView, bytes_remaining: nat },
    Ready { request: RequestView, body: Seq<u8> },
    Failed,
}

impl View for ConnectionState {
    type V = StateView;

    open spec fn view(&self) -> StateView {
        match self {
            ConnectionState::Idle => StateView::Idle,
            ConnectionState::ReadingHead => StateView::ReadingHead,
            ConnectionState::ReadingBody { request, bytes_remaining } => StateView::ReadingBody {
                request: request@,
                bytes_remaining: *bytes_remaining as nat,
            },
            ConnectionState::Ready { request, body } => StateView::Ready {
                request: request@,
                body: body@,
            },
            ConnectionState::Failed => StateView::Failed,
        }
    }
}

/// The name of the header that gives the body length, as parsed (lowercase).
pub open spec fn content_length_name() -> Seq<char> {
    seq!['c', 'o', 'n', 't', 'e', 'n', 't', '-', 'l', 'e', 'n', 'g', 't', 'h']
}

/// The declared body length: the `content-length` header read as a decimal
/// number. A missing or unreadable value declares no body.
pub open spec fn content_length(req: RequestView) -> Option<usize> {
    match lookup(req.headers, content_length_name()) {
        Some(v) => parsed_usize(v),
        None => None,
    }
}

/// Body bytes arrive while `n` are still expected; `buf` holds the body so
/// far, ending with the `read` bytes just received. Once enough have come,
/// whatever lies beyond the declared length is cut off.
pub open spec fn read_body_step(req: RequestView, n: nat, buf: Seq<u8>, read: nat) -> (
    StateView,
    Seq<u8>,
) {
    if read >= n {
        let kept = buf.take(buf.len() - (read - n));
        (StateView::Ready { request: req, body: kept }, kept)
    } else {
        (StateView::ReadingBody { request: req, bytes_remaining: (n - read) as nat }, buf)
    }
}

/// A parse attempt on the whole buffer `buf` while reading the head.
pub open spec fn read_head_step(buf: Seq<u8>) -> (StateView, Seq<u8>) {
    if !valid_utf8(buf) {
        (StateView::Failed, buf)
    } else {
        match head_at(buf, 0) {
            Ok(h) => {
                let req = request_of(buf, h);
                match content_length(req) {
                    Some(n) => {
                        let rest = buf.subrange(h.end, buf.len() as int);
                        read_body_step(req, n as nat, rest, rest.len())
                    },
                    None => (StateView::Ready { request: req, body: Seq::empty() }, buf),
                }
            },
            Err(ParseError::NotEnoughInput) => (StateView::ReadingHead, buf),
            Err(ParseError::Fatal) => (StateView::Failed, buf),
        }
    }
}

/// The state and buffer after `chunk` arrives in state `st` with buffer `buf`.
/// Outside the two reading states a chunk changes nothing.
pub open spec fn receive_step(st: StateView, buf: Seq<u8>, chunk: Seq<u8>) -> (
    StateView,
    Seq<u8>,
) {
    match st {
        StateView::ReadingHead => read_head_step(buf + chunk),
        StateView::ReadingBody { request, bytes_remaining } => read_body_step(
            request,
            bytes_remaining,
            buf + chunk,
            chunk.len(),
        ),
        _ => (st, buf),
    }
}

/// What the socket reports at the start of a poll tick.
#[derive(Clone, Copy, Debug, PartialEq, Eq, Structural)]
pub struct SocketStatus {
    pub is_active: bool,
    pub is_open: bool,
    pub may_recv: bool,
    pub may_send: bool,
}

/// The one event or action of a poll tick.
#[derive(Clone, Copy, Debug, PartialEq, Eq, Structural)]
pub enum PollStatus {
    /// The connection became active.
    Established,
    /// The connection stopped being active.
    Closed,
    /// The socket is closed: listen again.
    Listen,
    /// Receive what the socket holds.
    Receive,
    /// Answer a complete request, if there is one, then close the socket.
    Respond,
    /// Nothing to do.
    Inactive,
}

/// The decision of a poll tick. A change of activity comes first; a socket
/// that just started listening can neither receive nor send, so listening
/// ends the tick.
pub open spec fn poll_decision(connected: bool, socket: SocketStatus, want_receive: bool) -> PollStatus {
    if connected != socket.is_active {
        if socket.is_active {
            PollStatus::Established
        } else {
            PollStatus::Closed
        }
    } else if !socket.is_open {
        PollStatus::Listen
    } else if socket.may_recv && want_receive {
        PollStatus::Receive
    } else if socket.may_send {
        PollStatus::Respond
    } else {
        PollStatus::Inactive
    }
}

/// While the body is read, the count of bytes still expected is never zero
/// and every non-empty chunk lowers it, until the request is complete.
pub proof fn lemma_body_countdown(st: StateView, buf: Seq<u8>, chunk: Seq<u8>)
    requires
        st is ReadingHead || (st matches StateView::ReadingBody { bytes_remaining, .. }
            && bytes_remaining > 0),
    ensures
        receive_step(st, buf, chunk).0 matches StateView::ReadingBody { bytes_remaining: n, .. } ==> {
            &&& n > 0
            &&& (st matches StateView::ReadingBody { bytes_remaining: m, .. } ==> n
                == m - chunk.len() && (chunk.len() > 0 ==> n < m))
        },
{
}

/// Abstract value of a [`Connection`].
pub struct ConnectionView {
    pub connected: bool,
    pub buffer: Seq<u8>,
    pub state: StateView,
}

/// The request lifecycle of the single connection: owns the received bytes
/// and the exchange's state.
#[derive(Debug)]
pub struct Connection {
    connected: bool,
    buffer: Vec<u8>,
    state: ConnectionState,
}

impl View for Connection {
    type V = ConnectionView;

    closed spec fn view(&self) -> ConnectionView {
        ConnectionView { connected: self.connected, buffer: self.buffer@, state: self.state@ }
    }
}

impl Connection {
    pub fn new() -> (r: Connection)
        ensures
            r@ == (ConnectionView {
                connected: false,
                buffer: Seq::empty(),
                state: StateView::Idle,
            }),
    {
        Connection { connected: false, buffer: Vec::new(), state: ConnectionState::Idle }
    }

    /// The state of the exchange.
    pub fn state(&self) -> (r: &ConnectionState)
        ensures
            r@ == self@.state,
    {
        &self.state
    }

    /// A connection became active: start reading a request head.
    pub fn request_init(&mut self)
        ensures
            final(self)@ == (ConnectionView {
                buffer: Seq::empty(),
                state: StateView::ReadingHead,
                ..old(self)@
            }),
    {
        self.buffer = Vec::new();
        self.state = ConnectionState::ReadingHead;
    }

    /// The connection was closed: drop what was received and go idle.
    pub fn request_close(&mut self)
        ensures
            final(self)@ == (ConnectionView {
                buffer: Seq::empty(),
                state: StateView::Idle,
                ..old(self)@
            }),
    {
        self.buffer = Vec::new();
        self.state = ConnectionState::Idle;
    }

    /// Whether the exchange is waiting for bytes.
    pub fn want_receive(&self) -> (r: bool)
        ensures
            r == (self@.state is ReadingHead || self@.state is ReadingBody),
    {
        match self.state {
            ConnectionState::ReadingHead | ConnectionState::ReadingBody { .. } => true,
            _ => false,
        }
    }

    /// Translates the socket's report into the tick's single event or
    /// action, and remembers whether the connection is active.
    pub fn poll_socket(&mut self, socket: SocketStatus) -> (r: PollStatus)
        ensures
            r == poll_decision(
                old(self)@.connected,
                socket,
                old(self)@.state is ReadingHead || old(self)@.state is ReadingBody,
            ),
            final(self)@ == (ConnectionView { connected: socket.is_active, ..old(self)@ }),
    {
        let want_receive = self.want_receive();
        let was_connected = self.connected;
        self.connected = socket.is_active;
        if was_connected != socket.is_active {
            if socket.is_active {
                PollStatus::Established
            } else {
                PollStatus::Closed
            }
        } else if !socket.is_open {
            PollStatus::Listen
        } else if socket.may_recv && want_receive {
            PollStatus::Receive
        } else if socket.may_send {
            PollStatus::Respond
        } else {
            PollStatus::Inactive
        }
    }

    /// Answers a complete request: hands it to `handler` and returns the
    /// response's bytes, and the exchange is over. In any other state the
    /// handler is not called and nothing changes.
    pub fn respond<F: Fn(&Request, &Vec<u8>) -> Response>(&mut self, handler: &F) -> (r: Option<
        Vec<u8>,
    >)
        requires
            forall|req: &Request, body: &Vec<u8>| handler.requires((req, body)),
        ensures
            match old(self)@.state {
                StateView::Ready { request, body } => {
                    &&& r matches Some(bytes) && exists|req: Request, b: Vec<u8>, resp: Response|
                        {
                            &&& req@ == request
                            &&& b@ == body
                            &&& handler.ensures((&req, &b), resp)
                            &&& bytes@ == wire_bytes(resp@)
                        }
                    &&& final(self)@ == (ConnectionView {
                        buffer: Seq::empty(),
                        state: StateView::Idle,
                        ..old(self)@
                    })
                },
                _ => r is None && final(self)@ == old(self)@,
            },
    {
        let mut state = ConnectionState::Idle;
        core::mem::swap(&mut state, &mut self.state);
        match state {
            ConnectionState::Ready { request, body } => {
                let response = handler(&request, &body);
                let bytes = serialize(&response);
                self.buffer = Vec::new();
                Some(bytes)
            },
            other => {
                self.state = other;
                None
            },
        }
    }

    fn read_body(&mut self, request: Request, bytes_to_read: usize, read: usize)
        requires
            read <= old(self)@.buffer.len(),
        ensures
            (final(self)@.state, final(self)@.buffer) == read_body_step(
                request@,
                bytes_to_read as nat,
                old(self)@.buffer,
                read as nat,
            ),
            final(self)@.connected == old(self)@.connected,
    {
        if read >= bytes_to_read {
            let keep = self.buffer.len() - (read - bytes_to_read);
            self.buffer.truncate(keep);
            let body = self.buffer.clone();
            assert(body@ =~= self.buffer@);
            self.state = ConnectionState::Ready { request, body };
        } else {
            self.state = ConnectionState::ReadingBody {
                request,
                bytes_remaining: bytes_to_read - read,
            };
        }
    }

    fn read_head(&mut self)
        requires
            old(self)@.state is ReadingHead,
        ensures
            (final(self)@.state, final(self)@.buffer) == read_head_step(old(self)@.buffer),
            final(self)@.connected == old(self)@.connected,
    {
        match string_from_utf8(self.buffer.as_slice()) {
            None => {
                self.state = ConnectionState::Failed;
            },
            Some(text) => {
                let mut parser = HTTPParser::new(text.as_str());
                assert(parser.input() == self.buffer@);
                match parser.parse_head() {
                    Ok(request) => {
                        proof {
                            reveal_strlit("content-length");
                            assert("content-length"@ =~= content_length_name());
                        }
                        let length = match request.headers().get("content-length") {
                            Some(v) => parse_usize(v.as_str()),
                            None => None,
                        };
                        match length {
                            Some(n) => {
                                self.buffer = slice_to_vec(parser.remaining());
                                let read = self.buffer.len();
                                self.read_body(request, n, read);
                            },
                            None => {
                                self.state = ConnectionState::Ready { request, body: Vec::new() };
                            },
                        }
                    },
                    Err(ParseError::NotEnoughInput) => {},
                    Err(ParseError::Fatal) => {
                        self.state = ConnectionState::Failed;
                    },
                }
            },
        }
    }

    /// A chunk of bytes arrived on the connection.
    pub fn request_receive(&mut self, chunk: Vec<u8>)
        ensures
            (final(self)@.state, final(self)@.buffer) == receive_step(
                old(self)@.state,
                old(self)@.buffer,
                chunk@,
            ),
            final(self)@.connected == old(self)@.connected,
    {
        let read = chunk.len();
        let mut state = ConnectionState::Idle;
        core::mem::swap(&mut state, &mut self.state);
        match state {
            ConnectionState::ReadingHead => {
                self.state = ConnectionState::ReadingHead;
                let mut c = chunk;
                self.buffer.append(&mut c);
                self.read_head();
            },
            ConnectionState::ReadingBody { request, bytes_remaining } => {
                let mut c = chunk;
                self.buffer.append(&mut c);
                self.read_body(request, bytes_remaining, read);
            },
            other => {
                self.state = other;
            },
        }
    }
}

} // verus!
