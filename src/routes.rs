use vstd::prelude::*;
use vstd::string::StrSliceExecFns;

use crate::request::Request;
use crate::string_map::{insert_entry, Entries, StringMap};
use crate::text::str_eq;

verus! {

/// The segments of `s` between `/` separators, in order; there is always at
/// least one, and separators at the edges give empty segments.
pub open spec fn segments(s: Seq<char>) -> Seq<Seq<char>>
    decreases s.len(),
{
    if s.len() == 0 {
        seq![Seq::empty()]
    } else {
        let rest = segments(s.drop_last());
        if s.last() == '/' {
            rest.push(Seq::empty())
        } else {
            rest.update(rest.len() - 1, rest.last().push(s.last()))
        }
    }
}

/// A pattern segment that binds a variable: the marker `:` and a non-empty
/// name.
pub open spec fn is_variable(seg: Seq<char>) -> bool {
    seg.len() >= 2 && seg[0] == ':'
}

/// Matching pattern segments against path segments: equal counts, literal
/// segments equal, each variable segment bound to its path segment.
pub open spec fn match_segments(pat: Seq<Seq<char>>, path: Seq<Seq<char>>) -> Option<Entries>
    decreases pat.len(),
{
    if pat.len() != path.len() {
        None
    } else if pat.len() == 0 {
        Some(Seq::empty())
    } else {
        match match_segments(pat.drop_last(), path.drop_last()) {
            None => None,
            Some(args) => {
                let p = pat.last();
                let q = path.last();
                if is_variable(p) {
                    Some(insert_entry(args, p.drop_first(), q))
                } else if p == q {
                    Some(args)
                } else {
                    None
                }
            },
        }
    }
}

/// The variables that `path` binds under `pattern`, or `None` when it does
/// not match.
pub open spec fn path_match(pattern: Seq<char>, path: Seq<char>) -> Option<Entries> {
    match_segments(segments(pattern), segments(path))
}

proof fn lemma_segments_nonempty(s: Seq<char>)
    ensures
        segments(s).len() >= 1,
    decreases s.len(),
{
    if s.len() > 0 {
        lemma_segments_nonempty(s.drop_last());
    }
}

/// The segments of `s`, as slices of it.
fn split_segments(s: &str) -> (r: Vec<&str>)
    ensures
        r@.map_values(|x: &str| x@) == segments(s@),
{
    let n = s.unicode_len();
    let mut done: Vec<&str> = Vec::new();
    let mut start: usize = 0;
    let mut i: usize = 0;
    proof {
        assert(s@.take(0) =~= Seq::<char>::empty());
        assert(segments(s@.take(0)) =~~= done@.map_values(|x: &str| x@).push(
            s@.subrange(0, 0),
        ));
    }
    while i < n
        invariant
            n == s@.len(),
            0 <= start <= i <= n,
            segments(s@.take(i as int)) == done@.map_values(|x: &str| x@).push(
                s@.subrange(start as int, i as int),
            ),
        decreases n - i,
    {
        let c = s.get_char(i);
        proof {
            let t = s@.take(i + 1);
            assert(t.drop_last() =~= s@.take(i as int));
            assert(t.last() == c);
            lemma_segments_nonempty(s@.take(i as int));
        }
        if c == '/' {
            let seg = s.substring_char(start, i);
            done.push(seg);
            start = i + 1;
            proof {
                assert(s@.subrange(start as int, i + 1) =~= Seq::<char>::empty());
            }
        } else {
            proof {
                assert(s@.subrange(start as int, i as int).push(c) =~= s@.subrange(
                    start as int,
                    i + 1,
                ));
            }
        }
        i += 1;
        proof {
            assert(segments(s@.take(i as int)) =~= done@.map_values(|x: &str| x@).push(
                s@.subrange(start as int, i as int),
            ));
        }
    }
    let seg = s.substring_char(start, n);
    done.push(seg);
    proof {
        assert(s@.take(n as int) =~= s@);
        assert(done@.map_values(|x: &str| x@) =~= segments(s@));
    }
    done
}

/// Matches `path` against `pattern`, binding the pattern's variables.
pub fn match_path(pattern: &str, path: &str) -> (r: Option<StringMap>)
    ensures
        match r {
            Some(m) => path_match(pattern@, path@) == Some(m@),
            None => path_match(pattern@, path@) is None,
        },
{
    let pattern_parts = split_segments(pattern);
    let path_parts = split_segments(path);
    let ghost pat = segments(pattern@);
    let ghost pth = segments(path@);
    if pattern_parts.len() != path_parts.len() {
        assert(pattern_parts@.map_values(|x: &str| x@).len() == pattern_parts@.len());
        return None;
    }
    let n = pattern_parts.len();
    let mut args = StringMap::new();
    let mut i: usize = 0;
    proof {
        assert(pat.take(0) =~= Seq::<Seq<char>>::empty());
        assert(pth.take(0) =~= Seq::<Seq<char>>::empty());
    }
    while i < n
        invariant
            n == pattern_parts@.len(),
            n == path_parts@.len(),
            pat == segments(pattern@),
            pth == segments(path@),
            pattern_parts@.map_values(|x: &str| x@) == pat,
            path_parts@.map_values(|x: &str| x@) == pth,
            0 <= i <= n,
            match_segments(pat.take(i as int), pth.take(i as int)) == Some(args@),
        decreases n - i,
    {
        let p = pattern_parts[i];
        let q = path_parts[i];
        proof {
            assert(pat.take(i + 1).drop_last() =~= pat.take(i as int));
            assert(pth.take(i + 1).drop_last() =~= pth.take(i as int));
            assert(pat.take(i + 1).last() == p@);
            assert(pth.take(i + 1).last() == q@);
        }
        let len = p.unicode_len();
        if len >= 2 && p.get_char(0) == ':' {
            let name = p.substring_char(1, len);
            proof {
                assert(name@ =~= p@.drop_first());
            }
            args.insert(name.to_owned(), q.to_owned());
        } else if !str_eq(p, q) {
            proof {
                assert(!is_variable(p@));
                assert(p@ != q@);
                assert(match_segments(pat.take(i + 1), pth.take(i + 1)) is None);
                lemma_match_segments_extends_none(pat, pth, i as int + 1);
                assert(pat.take(n as int) =~= pat);
                assert(pth.take(n as int) =~= pth);
            }
            return None;
        }
        i += 1;
    }
    proof {
        assert(pat.take(n as int) =~= pat);
        assert(pth.take(n as int) =~= pth);
    }
    Some(args)
}

/// A mismatch in the first `k` segments is a mismatch of the whole.
proof fn lemma_match_segments_extends_none(pat: Seq<Seq<char>>, path: Seq<Seq<char>>, k: int)
    requires
        pat.len() == path.len(),
        0 <= k <= pat.len(),
        match_segments(pat.take(k), path.take(k)) is None,
    ensures
        match_segments(pat, path) is None,
    decreases pat.len() - k,
{
    if k < pat.len() {
        assert(pat.take(k + 1).drop_last() =~= pat.take(k));
        assert(path.take(k + 1).drop_last() =~= path.take(k));
        lemma_match_segments_extends_none(pat, path, k + 1);
    } else {
        assert(pat.take(k) =~= pat);
        assert(path.take(k) =~= path);
    }
}

/// Routing a request through registered routes in order: the first route
/// whose method and pattern match produces the result.
pub enum Routes<'a, R> {
    NotMatched(&'a Request),
    Matched(R),
}

impl<'a, R> Routes<'a, R> {
    pub fn init(request: &'a Request) -> (r: Routes<'a, R>)
        ensures
            r == Routes::<'a, R>::NotMatched(request),
    {
        Routes::NotMatched(request)
    }

    /// A route for `method` and `pattern`. If no earlier route matched and
    /// this one does, `make_response` runs with the path's variables.
    pub fn route<F: FnOnce(&'a Request, StringMap) -> R>(
        self,
        method: &str,
        pattern: &str,
        make_response: F,
    ) -> (r: Routes<'a, R>)
        requires
            self matches Routes::NotMatched(req) ==> forall|args: StringMap|
                make_response.requires((req, args)),
        ensures
            match self {
                Routes::Matched(x) => r == Routes::<'a, R>::Matched(x),
                Routes::NotMatched(req) => if method@ == req@.method && path_match(
                    pattern@,
                    req@.path,
                ) is Some {
                    r matches Routes::Matched(x) && exists|args: StringMap|
                        Some(args@) == path_match(pattern@, req@.path)
                            && make_response.ensures((req, args), x)
                } else {
                    r == Routes::<'a, R>::NotMatched(req)
                },
            },
    {
        match self {
            Routes::Matched(result) => Routes::Matched(result),
            Routes::NotMatched(request) => {
                if str_eq(method, request.method()) {
                    match match_path(pattern, request.path()) {
                        None => Routes::NotMatched(request),
                        Some(args) => Routes::Matched(make_response(request, args)),
                    }
                } else {
                    Routes::NotMatched(request)
                }
            },
        }
    }

    /// The result of the matching route, or else of `make_response`, which
    /// runs with no variables.
    pub fn catch_all<F: FnOnce(&'a Request, StringMap) -> R>(self, make_response: F) -> (r: R)
        requires
            self matches Routes::NotMatched(req) ==> forall|args: StringMap|
                make_response.requires((req, args)),
        ensures
            match self {
                Routes::Matched(x) => r == x,
                Routes::NotMatched(req) => exists|args: StringMap|
                    args@ == Seq::<(Seq<char>, Seq<char>)>::empty() && make_response.ensures(
                        (req, args),
                        r,
                    ),
            },
    {
        match self {
            Routes::Matched(result) => result,
            Routes::NotMatched(request) => make_response(request, StringMap::new()),
        }
    }
}

} // verus!
