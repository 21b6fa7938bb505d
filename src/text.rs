use vstd::prelude::*;
use vstd::utf8::*;

verus! {

broadcast use vstd::utf8::encode_utf8_decode_utf8;

/// Compares two strings by content.
pub fn str_eq(a: &str, b: &str) -> (r: bool)
    ensures
        r == (a@ == b@),
{
    let x = a.as_bytes();
    let y = b.as_bytes();
    if x.len() != y.len() {
        return false;
    }
    let mut i: usize = 0;
    while i < x.len()
        invariant
            x@ == encode_utf8(a@),
            y@ == encode_utf8(b@),
            x@.len() == y@.len(),
            0 <= i <= x@.len(),
            forall|j: int| 0 <= j < i ==> x@[j] == y@[j],
        decreases x@.len() - i,
    {
        if x[i] != y[i] {
            return false;
        }
        i += 1;
    }
    proof {
        assert(x@ =~= y@);
        assert(decode_utf8(encode_utf8(a@)) == a@);
        assert(decode_utf8(encode_utf8(b@)) == b@);
    }
    true
}

/// The characters of `s` with their Unicode lowercase mapping applied.
pub uninterp spec fn lowercase_of(s: Seq<char>) -> Seq<char>;

/// `s` without its leading and trailing Unicode whitespace.
pub uninterp spec fn trimmed_of(s: Seq<char>) -> Seq<char>;

/// The decimal digit `d` as a character.
pub open spec fn digit_char(d: int) -> char {
    seq!['0', '1', '2', '3', '4', '5', '6', '7', '8', '9'][d]
}

/// The decimal representation of `n`: no sign, no padding, no leading zeros.
pub open spec fn decimal(n: nat) -> Seq<char>
    decreases n,
{
    if n < 10 {
        seq![digit_char(n as int)]
    } else {
        decimal(n / 10).push(digit_char((n % 10) as int))
    }
}

/// `c` is an ASCII decimal digit.
pub open spec fn is_digit(c: char) -> bool {
    '0' <= c <= '9'
}

/// The value of a sequence of ASCII decimal digits, most significant first.
pub open spec fn digits_value(s: Seq<char>) -> nat
    decreases s.len(),
{
    if s.len() == 0 {
        0
    } else {
        digits_value(s.drop_last()) * 10 + (s.last() as nat - '0' as nat) as nat
    }
}

/// The unsigned integer that `s` spells in decimal: an optional `+`, then one
/// or more ASCII digits, with a value that fits in `usize`.
pub open spec fn parsed_usize(s: Seq<char>) -> Option<usize> {
    let d = if s.len() > 0 && s[0] == '+' {
        s.drop_first()
    } else {
        s
    };
    if d.len() > 0 && (forall|i: int| 0 <= i < d.len() ==> is_digit(#[trigger] d[i]))
        && digits_value(d) <= usize::MAX {
        Some(digits_value(d) as usize)
    } else {
        None
    }
}

/// Relies on `String::from_utf8`: it accepts exactly the well-formed UTF-8
/// byte sequences and then holds the characters they encode.
#[verifier::external_body]
pub(crate) fn string_from_utf8(b: &[u8]) -> (r: Option<String>)
    ensures
        r is Some <==> valid_utf8(b@),
        r matches Some(s) ==> s@ == decode_utf8(b@),
{
    String::from_utf8(b.to_vec()).ok()
}

/// Relies on `str::to_lowercase`: its result depends on the characters alone.
#[verifier::external_body]
pub(crate) fn to_lowercase(s: &str) -> (r: String)
    ensures
        r@ == lowercase_of(s@),
{
    s.to_lowercase()
}

/// Relies on `str::trim`: its result depends on the characters alone.
#[verifier::external_body]
pub(crate) fn trim(s: &str) -> (r: String)
    ensures
        r@ == trimmed_of(s@),
{
    s.trim().to_string()
}

/// Relies on the `Display` impl of `usize` (through `ToString`), which writes
/// the plain decimal digits.
#[verifier::external_body]
pub(crate) fn usize_to_string(n: usize) -> (r: String)
    ensures
        r@ == decimal(n as nat),
{
    n.to_string()
}

/// Relies on the `FromStr` impl of `usize` (`str::parse`), which accepts an
/// optional `+` followed by decimal digits and fails on overflow.
#[verifier::external_body]
pub(crate) fn parse_usize(s: &str) -> (r: Option<usize>)
    ensures
        r == parsed_usize(s@),
{
    s.parse::<usize>().ok()
}

/// Position `i` of `b` lies at an edge of `b` or next to an ASCII byte, so
/// well-formed UTF-8 can be cut there.
pub open spec fn cut_ok(b: Seq<u8>, i: int) -> bool {
    &&& 0 <= i <= b.len()
    &&& (i == 0 || i == b.len() || b[i - 1] < 0x80 || b[i] < 0x80)
}

proof fn lemma_valid_suffix(b: Seq<u8>, i: int)
    requires
        valid_utf8(b),
        cut_ok(b, i),
    ensures
        valid_utf8(b.subrange(i, b.len() as int)),
{
    let n = b.len() as int;
    if i == 0 {
        assert(b.subrange(0, n) =~= b);
    } else if i == n {
        assert(b.subrange(n, n) =~= Seq::<u8>::empty());
    } else if b[i] < 0x80 {
        is_char_boundary_iff_is_leading_byte(b, i);
        valid_utf8_split(b, i);
    } else {
        is_char_boundary_iff_is_leading_byte(b, i - 1);
        valid_utf8_split(b, i - 1);
        let c = b.subrange(i - 1, n);
        assert(pop_first_scalar(c) =~= b.subrange(i, n));
    }
}

proof fn lemma_valid_prefix(b: Seq<u8>, j: int)
    requires
        valid_utf8(b),
        cut_ok(b, j),
    ensures
        valid_utf8(b.subrange(0, j)),
{
    let n = b.len() as int;
    if j == 0 {
        assert(b.subrange(0, 0) =~= Seq::<u8>::empty());
    } else if j == n {
        assert(b.subrange(0, n) =~= b);
    } else if b[j] < 0x80 {
        is_char_boundary_iff_is_leading_byte(b, j);
        valid_utf8_split(b, j);
    } else {
        is_char_boundary_iff_is_leading_byte(b, j - 1);
        valid_utf8_split(b, j - 1);
        let last = b.subrange(j - 1, j);
        assert(pop_first_scalar(last) =~= Seq::<u8>::empty());
        reveal_with_fuel(valid_utf8, 2);
        assert(valid_utf8(last));
        valid_utf8_concat(b.subrange(0, j - 1), last);
        assert(b.subrange(0, j - 1) + last =~= b.subrange(0, j));
    }
}

/// Well-formed UTF-8 cut at two positions that allow it leaves well-formed
/// UTF-8.
pub proof fn lemma_valid_between(b: Seq<u8>, i: int, j: int)
    requires
        valid_utf8(b),
        cut_ok(b, i),
        cut_ok(b, j),
        i <= j,
    ensures
        valid_utf8(b.subrange(i, j)),
{
    let n = b.len() as int;
    lemma_valid_suffix(b, i);
    let d = b.subrange(i, n);
    if j > i && j < n && b[j] >= 0x80 {
        assert(d[j - i - 1] == b[j - 1]);
    }
    if j < n {
        assert(d[j - i] == b[j]);
    }
    assert(cut_ok(d, j - i));
    lemma_valid_prefix(d, j - i);
    assert(d.subrange(0, j - i) =~= b.subrange(i, j));
}

} // verus!
