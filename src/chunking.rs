use vstd::prelude::*;

use vstd::utf8::*;

use crate::connection::{content_length, read_head_step, receive_step, StateView};
use crate::parser::{
    colon, crlf, expect_at, get_method, head_at, header_at, header_fields, headers_at,
    lemma_header_at, lemma_headers_at, lemma_read_until_at, matches_at, method_at, post_method,
    read_until_at, request_of, space, ParseError,
};

verus! {

/// Parsing a prefix `s.take(e)` of the input: a step that succeeds on `s`
/// and needs the input up to `end` gives the same result on the prefix if it
/// reaches `end`, and asks for more input otherwise.
pub open spec fn on_prefix<T>(e: int, end: int, full: Result<T, ParseError>) -> Result<
    T,
    ParseError,
> {
    if e >= end {
        full
    } else {
        Err(ParseError::NotEnoughInput)
    }
}

proof fn lemma_expect_prefix(s: Seq<u8>, e: int, i: int, lit: Seq<u8>)
    requires
        0 <= i,
        0 <= e <= s.len(),
        expect_at(s, i, lit) is Ok,
    ensures
        expect_at(s.take(e), i, lit) == on_prefix(e, i + lit.len(), expect_at(s, i, lit)),
{
    if e >= i + lit.len() {
        assert(s.take(e).subrange(i, i + lit.len()) =~= s.subrange(i, i + lit.len()));
    }
}

proof fn lemma_read_until_prefix(s: Seq<u8>, e: int, i: int, d: Seq<u8>)
    requires
        0 <= i,
        0 <= e <= s.len(),
        read_until_at(s, i, d) is Ok,
    ensures
        read_until_at(s.take(e), i, d) == on_prefix(
            e,
            read_until_at(s, i, d)->Ok_0 + d.len(),
            read_until_at(s, i, d),
        ),
    decreases s.len() - i,
{
    let p = s.take(e);
    lemma_read_until_at(s, i, d);
    let j = read_until_at(s, i, d)->Ok_0;
    if p.len() - i >= d.len() {
        assert(p.subrange(i, i + d.len()) =~= s.subrange(i, i + d.len()));
        if !matches_at(s, i, d) {
            assert(d.len() == 0 ==> s.subrange(i, i) =~= d);
            lemma_read_until_prefix(s, e, i + 1, d);
        }
    }
}

proof fn lemma_method_prefix(s: Seq<u8>, e: int)
    requires
        0 <= e <= s.len(),
        method_at(s, 0) is Ok,
        !(e == 3 && matches_at(s, 0, post_method())),
    ensures
        method_at(s.take(e), 0) == on_prefix(e, method_at(s, 0)->Ok_0, method_at(s, 0)),
{
    let p = s.take(e);
    if e >= 3 {
        assert(p.subrange(0, 3) =~= s.subrange(0, 3));
        if e >= 4 {
            assert(p.subrange(0, 4) =~= s.subrange(0, 4));
        }
        if matches_at(s, 0, post_method()) {
            assert(s.subrange(0, 3)[2] == s.subrange(0, 4)[2]);
            assert(s.subrange(0, 3)[2] != get_method()[2]);
        }
    }
}

proof fn lemma_header_prefix(s: Seq<u8>, e: int, i: int)
    requires
        0 <= i,
        0 <= e <= s.len(),
        header_at(s, i) is Ok,
    ensures
        header_at(s.take(e), i) == on_prefix(e, header_at(s, i)->Ok_0.1 + 2, header_at(s, i)),
{
    lemma_header_at(s, i);
    let k = read_until_at(s, i, colon())->Ok_0;
    lemma_read_until_prefix(s, e, i, colon());
    lemma_read_until_at(s, i, colon());
    if e >= k + 1 {
        lemma_read_until_prefix(s, e, k + 1, crlf());
    }
}

proof fn lemma_headers_prefix(s: Seq<u8>, e: int, i: int)
    requires
        0 <= i,
        0 <= e <= s.len(),
        headers_at(s, i) is Ok,
    ensures
        headers_at(s.take(e), i) == on_prefix(e, headers_at(s, i)->Ok_0.1 + 2, headers_at(s, i)),
    decreases s.len() - i,
{
    let p = s.take(e);
    lemma_headers_at(s, i);
    if matches_at(s, i, crlf()) {
        if e >= i + 2 {
            assert(p.subrange(i, i + 2) =~= s.subrange(i, i + 2));
        } else {
            assert(!matches_at(p, i, crlf()));
            assert(s.subrange(i, i + 2)[0] == s[i]);
            if e == i + 1 {
                assert(!matches_at(p, i, colon())) by {
                    assert(p.subrange(i, i + 1)[0] == s[i]);
                }
                assert(read_until_at(p, i + 1, colon()) == Err::<int, ParseError>(
                    ParseError::NotEnoughInput,
                ));
            }
            assert(read_until_at(p, i, colon()) == Err::<int, ParseError>(
                ParseError::NotEnoughInput,
            ));
        }
    } else {
        if e >= i + 2 {
            assert(p.subrange(i, i + 2) =~= s.subrange(i, i + 2));
        }
        lemma_header_at(s, i);
        lemma_header_prefix(s, e, i);
        let (k, v) = header_at(s, i)->Ok_0;
        lemma_headers_at(s, v + 2);
        if e >= v + 2 {
            lemma_headers_prefix(s, e, v + 2);
        }
    }
}

/// Parsing a prefix of a complete head asks for more input until the prefix
/// holds the whole head, and then gives the same head. The one exception is a
/// `POST` cut after three bytes, where `POS` is already no method.
pub proof fn lemma_head_prefix(s: Seq<u8>, e: int)
    requires
        0 <= e <= s.len(),
        head_at(s, 0) is Ok,
        !(e == 3 && matches_at(s, 0, post_method())),
    ensures
        head_at(s.take(e), 0) == on_prefix(e, head_at(s, 0)->Ok_0.end, head_at(s, 0)),
{
    let m = method_at(s, 0)->Ok_0;
    let path_start = m + 1;
    lemma_read_until_at(s, path_start, space());
    let pe = read_until_at(s, path_start, space())->Ok_0;
    lemma_read_until_at(s, pe + 1, crlf());
    let ve = read_until_at(s, pe + 1, crlf())->Ok_0;
    lemma_headers_at(s, ve + 2);
    lemma_method_prefix(s, e);
    if e >= m {
        lemma_expect_prefix(s, e, m, space());
        if e >= path_start {
            lemma_read_until_prefix(s, e, path_start, space());
        }
        if e >= pe + 1 {
            lemma_read_until_prefix(s, e, pe + 1, crlf());
        }
        if e >= ve + 2 {
            lemma_headers_prefix(s, e, ve + 2);
        }
    }
}

/// The header lines lie in order between the start and the empty line.
proof fn lemma_headers_spans(s: Seq<u8>, i: int)
    requires
        0 <= i,
        headers_at(s, i) is Ok,
    ensures
        forall|t: int|
            0 <= t < headers_at(s, i)->Ok_0.0.len() ==> {
                let h = #[trigger] headers_at(s, i)->Ok_0.0[t];
                i <= h.0 <= h.1 && h.1 + 1 <= h.2 && h.2 + 2 <= headers_at(s, i)->Ok_0.1
            },
    decreases s.len() - i,
{
    if !matches_at(s, i, crlf()) {
        lemma_header_at(s, i);
        let (k, v) = header_at(s, i)->Ok_0;
        lemma_headers_at(s, v + 2);
        lemma_headers_spans(s, v + 2);
        let hs = headers_at(s, i)->Ok_0.0;
        let rest = headers_at(s, v + 2)->Ok_0.0;
        assert forall|t: int| 0 <= t < hs.len() implies {
            let h = #[trigger] hs[t];
            i <= h.0 <= h.1 && h.1 + 1 <= h.2 && h.2 + 2 <= headers_at(s, i)->Ok_0.1
        } by {
            if t > 0 {
                assert(hs[t] == rest[t - 1]);
            }
        }
    }
}

proof fn lemma_header_fields_prefix(s: Seq<u8>, e: int, hs: Seq<(int, int, int)>)
    requires
        0 <= e <= s.len(),
        forall|t: int|
            0 <= t < hs.len() ==> {
                let h = #[trigger] hs[t];
                0 <= h.0 <= h.1 && h.1 + 1 <= h.2 <= e
            },
    ensures
        header_fields(s.take(e), hs) == header_fields(s, hs),
    decreases hs.len(),
{
    if hs.len() > 0 {
        let h = hs.last();
        assert(hs[hs.len() - 1] == h);
        lemma_header_fields_prefix(s, e, hs.drop_last());
        assert(s.take(e).subrange(h.0, h.1) =~= s.subrange(h.0, h.1));
        assert(s.take(e).subrange(h.1 + 1, h.2) =~= s.subrange(h.1 + 1, h.2));
    }
}

/// A prefix that holds a whole head describes the same request.
pub proof fn lemma_request_prefix(s: Seq<u8>, e: int)
    requires
        head_at(s, 0) is Ok,
        head_at(s, 0)->Ok_0.end <= e <= s.len(),
    ensures
        request_of(s.take(e), head_at(s, 0)->Ok_0) == request_of(s, head_at(s, 0)->Ok_0),
{
    let h = head_at(s, 0)->Ok_0;
    let m = method_at(s, 0)->Ok_0;
    lemma_read_until_at(s, m + 1, space());
    lemma_read_until_at(s, h.path_end + 1, crlf());
    lemma_headers_at(s, h.version_end + 2);
    lemma_headers_spans(s, h.version_end + 2);
    lemma_header_fields_prefix(s, e, h.headers);
    let p = s.take(e);
    assert(p.subrange(0, h.method_end) =~= s.subrange(0, h.method_end));
    assert(p.subrange(h.method_end + 1, h.path_end) =~= s.subrange(h.method_end + 1, h.path_end));
    assert(p.subrange(h.path_end + 1, h.version_end) =~= s.subrange(
        h.path_end + 1,
        h.version_end,
    ));
}

/// The parts of a parsed head lie in order within the input.
pub proof fn lemma_head_bounds(s: Seq<u8>)
    requires
        head_at(s, 0) is Ok,
    ensures
        ({
            let h = head_at(s, 0)->Ok_0;
            &&& 0 < h.method_end
            &&& h.method_end + 1 <= h.path_end
            &&& h.path_end + 1 <= h.version_end
            &&& h.version_end + 4 <= h.end <= s.len()
        }),
{
    let h = head_at(s, 0)->Ok_0;
    lemma_read_until_at(s, h.method_end + 1, space());
    lemma_read_until_at(s, h.path_end + 1, crlf());
    lemma_headers_at(s, h.version_end + 2);
}

/// The bytes of the chunks, in order.
pub open spec fn concat(chunks: Seq<Seq<u8>>) -> Seq<u8>
    decreases chunks.len(),
{
    if chunks.len() == 0 {
        Seq::empty()
    } else {
        concat(chunks.drop_last()) + chunks.last()
    }
}

/// State and buffer after the chunks arrive one after another.
pub open spec fn feed(st: StateView, buf: Seq<u8>, chunks: Seq<Seq<u8>>) -> (StateView, Seq<u8>)
    decreases chunks.len(),
{
    if chunks.len() == 0 {
        (st, buf)
    } else {
        let prev = feed(st, buf, chunks.drop_last());
        receive_step(prev.0, prev.1, chunks.last())
    }
}

/// How many bytes the first `k` chunks hold.
pub open spec fn chunk_end(chunks: Seq<Seq<u8>>, k: int) -> int {
    concat(chunks.take(k)).len() as int
}

/// The body length a request declares; none declared means an empty body.
pub open spec fn body_len(req: crate::request::RequestView) -> nat {
    match content_length(req) {
        Some(n) => n as nat,
        None => 0,
    }
}

/// `r` is a syntactically complete request: well-formed UTF-8 with a head that
/// parses, followed by at least the body length that the head declares.
pub open spec fn complete_request(r: Seq<u8>) -> bool {
    &&& valid_utf8(r)
    &&& head_at(r, 0) is Ok
    &&& r.len() >= head_at(r, 0)->Ok_0.end + body_len(request_of(r, head_at(r, 0)->Ok_0))
}

/// The state that reading `r` ends in: the request, and as much body as it
/// declares.
pub open spec fn request_read(r: Seq<u8>) -> StateView {
    let h = head_at(r, 0)->Ok_0;
    let req = request_of(r, h);
    StateView::Ready { request: req, body: r.subrange(h.end, h.end + body_len(req)) }
}

/// Cutting the input after `e` bytes does not spoil the head: what has
/// arrived is well-formed UTF-8, and not exactly the three bytes `POS`, which
/// can no longer become a method.
pub open spec fn cut_allowed(r: Seq<u8>, e: int) -> bool {
    &&& valid_utf8(r.take(e))
    &&& !(e == 3 && matches_at(r, 0, post_method()))
}

/// Every chunk that ends while the head is still being read ends at an
/// allowed cut.
pub open spec fn head_cuts_allowed(r: Seq<u8>, chunks: Seq<Seq<u8>>) -> bool {
    forall|k: int|
        1 <= k <= chunks.len() && chunk_end(chunks, k - 1) < head_at(r, 0)->Ok_0.end ==> cut_allowed(
            r,
            #[trigger] chunk_end(chunks, k),
        )
}

/// The first `k` chunks are the first `chunk_end(chunks, k)` bytes.
proof fn lemma_concat_prefix(chunks: Seq<Seq<u8>>, k: int)
    requires
        0 <= k <= chunks.len(),
    ensures
        chunk_end(chunks, k) <= concat(chunks).len(),
        concat(chunks).take(chunk_end(chunks, k)) == concat(chunks.take(k)),
    decreases chunks.len(),
{
    if k == chunks.len() {
        assert(chunks.take(k) =~= chunks);
        assert(concat(chunks).take(chunk_end(chunks, k)) =~= concat(chunks));
    } else {
        let d = chunks.drop_last();
        assert(chunks.take(k) =~= d.take(k));
        lemma_concat_prefix(d, k);
        assert(concat(chunks).take(chunk_end(chunks, k)) =~= concat(d).take(chunk_end(d, k)));
    }
}

/// Where reading stands once the first `e` bytes of the complete request `r`
/// have arrived.
pub open spec fn reading_phase(r: Seq<u8>, e: int, sb: (StateView, Seq<u8>)) -> bool {
    let h = head_at(r, 0)->Ok_0;
    let req = request_of(r, h);
    if e < h.end {
        sb.0 == StateView::ReadingHead && sb.1 == r.take(e)
    } else {
        match content_length(req) {
            None => sb.0 == (StateView::Ready { request: req, body: Seq::empty() }),
            Some(n) => if e < h.end + n {
                &&& sb.0 == (StateView::ReadingBody {
                    request: req,
                    bytes_remaining: (h.end + n - e) as nat,
                })
                &&& sb.1 == r.subrange(h.end, e)
            } else {
                sb.0 == (StateView::Ready {
                    request: req,
                    body: r.subrange(h.end, h.end + n),
                })
            },
        }
    }
}

/// One chunk while the head is being read.
proof fn lemma_head_step(r: Seq<u8>, e0: int, e1: int, c: Seq<u8>)
    requires
        complete_request(r),
        0 <= e0 < head_at(r, 0)->Ok_0.end,
        e0 <= e1 <= r.len(),
        r.take(e1) == r.take(e0) + c,
        cut_allowed(r, e1),
    ensures
        reading_phase(r, e1, receive_step(StateView::ReadingHead, r.take(e0), c)),
{
    let h = head_at(r, 0)->Ok_0;
    let req = request_of(r, h);
    lemma_head_prefix(r, e1);
    if e1 >= h.end {
        lemma_request_prefix(r, e1);
        let p = r.take(e1);
        assert(p.subrange(h.end, p.len() as int) =~= r.subrange(h.end, e1));
        if let Some(n) = content_length(req) {
            if e1 >= h.end + n {
                assert(r.subrange(h.end, e1).take(n as int) =~= r.subrange(h.end, h.end + n));
            }
        }
    }
}

/// One chunk after the head is complete.
proof fn lemma_body_step(r: Seq<u8>, e0: int, e1: int, c: Seq<u8>, prev: (StateView, Seq<u8>))
    requires
        complete_request(r),
        0 <= e0,
        head_at(r, 0)->Ok_0.end <= e0 <= e1 <= r.len(),
        r.take(e1) == r.take(e0) + c,
        reading_phase(r, e0, prev),
    ensures
        reading_phase(r, e1, receive_step(prev.0, prev.1, c)),
{
    let h = head_at(r, 0)->Ok_0;
    let req = request_of(r, h);
    lemma_head_bounds(r);
    if let Some(n) = content_length(req) {
        if e0 < h.end + n {
            assert(c =~= r.subrange(e0, e1)) by {
                assert(r.take(e1).subrange(e0, e1) =~= c);
            }
            assert(prev.1 + c =~= r.subrange(h.end, e1));
            if c.len() >= h.end + n - e0 {
                assert(r.subrange(h.end, e1).take(
                    r.subrange(h.end, e1).len() - (c.len() - (h.end + n - e0)),
                ) =~= r.subrange(h.end, h.end + n));
            }
        }
    }
}

/// Feeding one more chunk is one more receive step.
proof fn lemma_feed_last(chunks: Seq<Seq<u8>>, k: int)
    requires
        1 <= k <= chunks.len(),
    ensures
        feed(StateView::ReadingHead, Seq::empty(), chunks.take(k)) == receive_step(
            feed(StateView::ReadingHead, Seq::empty(), chunks.take(k - 1)).0,
            feed(StateView::ReadingHead, Seq::empty(), chunks.take(k - 1)).1,
            chunks[k - 1],
        ),
        concat(chunks.take(k)) == concat(chunks.take(k - 1)) + chunks[k - 1],
{
    assert(chunks.take(k).drop_last() =~= chunks.take(k - 1));
    assert(chunks.take(k).last() == chunks[k - 1]);
}

proof fn lemma_feed_phase(chunks: Seq<Seq<u8>>, k: int)
    requires
        complete_request(concat(chunks)),
        head_cuts_allowed(concat(chunks), chunks),
        0 <= k <= chunks.len(),
    ensures
        reading_phase(
            concat(chunks),
            chunk_end(chunks, k),
            feed(StateView::ReadingHead, Seq::empty(), chunks.take(k)),
        ),
    decreases k,
{
    let r = concat(chunks);
    let h = head_at(r, 0)->Ok_0;
    lemma_concat_prefix(chunks, k);
    if k == 0 {
        assert(chunks.take(0) =~= Seq::<Seq<u8>>::empty());
        assert(r.take(0) =~= Seq::<u8>::empty());
        lemma_head_bounds(r);
    } else {
        lemma_feed_phase(chunks, k - 1);
        lemma_concat_prefix(chunks, k - 1);
        lemma_feed_last(chunks, k);
        let e0 = chunk_end(chunks, k - 1);
        let e1 = chunk_end(chunks, k);
        let c = chunks[k - 1];
        let prev = feed(StateView::ReadingHead, Seq::empty(), chunks.take(k - 1));
        assert(r.take(e1) == r.take(e0) + c);
        if e0 < h.end {
            assert(cut_allowed(r, chunk_end(chunks, k)));
            lemma_head_step(r, e0, e1, c);
        } else {
            lemma_body_step(r, e0, e1, c, prev);
        }
    }
}

/// Chunk-boundary invariance: a complete request split into chunks at any
/// byte boundaries is read into the same request and body as when it arrives
/// in one chunk, as long as no chunk that ends while the head is being read
/// leaves ill-formed UTF-8 or the bare `POS` of a `POST` (both of which the
/// parser rightly rejects on the spot).
pub proof fn lemma_chunk_boundary_invariance(chunks: Seq<Seq<u8>>)
    requires
        complete_request(concat(chunks)),
        head_cuts_allowed(concat(chunks), chunks),
    ensures
        feed(StateView::ReadingHead, Seq::empty(), chunks).0 == feed(
            StateView::ReadingHead,
            Seq::empty(),
            seq![concat(chunks)],
        ).0,
        feed(StateView::ReadingHead, Seq::empty(), chunks).0 == request_read(concat(chunks)),
{
    let r = concat(chunks);
    lemma_feed_phase(chunks, chunks.len() as int);
    assert(chunks.take(chunks.len() as int) =~= chunks);
    lemma_phase_complete(r, feed(StateView::ReadingHead, Seq::empty(), chunks));
    lemma_single_chunk(r);
}

/// All of a complete request has arrived: it is read.
proof fn lemma_phase_complete(r: Seq<u8>, sb: (StateView, Seq<u8>))
    requires
        complete_request(r),
        reading_phase(r, r.len() as int, sb),
    ensures
        sb.0 == request_read(r),
{
    let h = head_at(r, 0)->Ok_0;
    lemma_head_bounds(r);
    if content_length(request_of(r, h)) is None {
        assert(r.subrange(h.end, h.end) =~= Seq::<u8>::empty());
    }
}

/// A complete request that arrives in one chunk is read.
proof fn lemma_single_chunk(r: Seq<u8>)
    requires
        complete_request(r),
    ensures
        feed(StateView::ReadingHead, Seq::empty(), seq![r]).0 == request_read(r),
{
    let one = seq![r];
    assert(one.drop_last() =~= Seq::<Seq<u8>>::empty());
    assert(Seq::<u8>::empty() + r =~= r);
    assert(one.last() == r);
    assert(feed(StateView::ReadingHead, Seq::empty(), one.drop_last()) == (
        StateView::ReadingHead,
        Seq::<u8>::empty(),
    ));
    assert(feed(StateView::ReadingHead, Seq::empty(), one) == read_head_step(r));
    let h = head_at(r, 0)->Ok_0;
    let req = request_of(r, h);
    lemma_head_bounds(r);
    if let Some(n) = content_length(req) {
        let rest = r.subrange(h.end, r.len() as int);
        assert(rest.take(rest.len() - (rest.len() - n)) =~= r.subrange(h.end, h.end + n));
    } else {
        assert(r.subrange(h.end, h.end) =~= Seq::<u8>::empty());
    }
}

} // verus!
