use vstd::prelude::*;
use vstd::string::StrSliceExecFns;

verus! {

/// `s` cut into consecutive pieces of `k` characters; the last piece may be
/// shorter.
pub open spec fn pieces(s: Seq<char>, k: nat) -> Seq<Seq<char>>
    decreases s.len(),
    when k > 0
{
    if s.len() == 0 {
        Seq::empty()
    } else if s.len() <= k {
        seq![s]
    } else {
        seq![s.take(k as int)] + pieces(s.skip(k as int), k)
    }
}

/// Splits a log line into pieces of `sub_len` characters, for a display of
/// fixed width.
pub fn split_string(string: &str, sub_len: usize) -> (r: Vec<&str>)
    requires
        sub_len > 0,
    ensures
        r@.map_values(|x: &str| x@) == pieces(string@, sub_len as nat),
{
    let n = string.unicode_len();
    let mut subs: Vec<&str> = Vec::new();
    let mut pos: usize = 0;
    proof {
        assert(string@.skip(0) =~= string@);
        assert(subs@.map_values(|x: &str| x@) + pieces(string@.skip(0), sub_len as nat)
            =~= pieces(string@, sub_len as nat));
    }
    while pos < n
        invariant
            n == string@.len(),
            sub_len > 0,
            0 <= pos <= n,
            pieces(string@, sub_len as nat) == subs@.map_values(|x: &str| x@) + pieces(
                string@.skip(pos as int),
                sub_len as nat,
            ),
        decreases n - pos,
    {
        let end = if n - pos <= sub_len {
            n
        } else {
            pos + sub_len
        };
        let piece = string.substring_char(pos, end);
        let ghost rest = string@.skip(pos as int);
        proof {
            if n - pos <= sub_len {
                assert(piece@ =~= rest);
                assert(string@.skip(end as int) =~= Seq::<char>::empty());
                assert(pieces(rest, sub_len as nat) =~= seq![piece@] + pieces(
                    string@.skip(end as int),
                    sub_len as nat,
                ));
            } else {
                assert(piece@ =~= rest.take(sub_len as int));
                assert(rest.skip(sub_len as int) =~= string@.skip(end as int));
            }
        }
        let ghost before = subs@.map_values(|x: &str| x@);
        subs.push(piece);
        proof {
            assert(subs@.map_values(|x: &str| x@) =~= before.push(piece@));
            assert(before + (seq![piece@] + pieces(string@.skip(end as int), sub_len as nat))
                =~= before.push(piece@) + pieces(string@.skip(end as int), sub_len as nat));
        }
        pos = end;
    }
    proof {
        assert(string@.skip(n as int) =~= Seq::<char>::empty());
        assert(subs@.map_values(|x: &str| x@) + Seq::<Seq<char>>::empty() =~= subs@.map_values(
            |x: &str| x@,
        ));
    }
    subs
}

/// A clock reading in milliseconds as whole seconds and hundredths, for the
/// `[SECONDS.HUNDREDTHS]` prefix of a log line.
pub fn time_parts(clock_ms: u64) -> (r: (u64, u64))
    ensures
        r.0 == clock_ms / 1000,
        r.1 == (clock_ms % 1000) / 10,
        r.1 < 100,
{
    let sec = clock_ms / 1000;
    let hundredths = (clock_ms - sec * 1000) / 10;
    (sec, hundredths)
}

} // verus!
