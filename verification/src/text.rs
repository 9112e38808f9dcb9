//! Conversions between strings and character vectors, and decimal rendering
//! of counters for diagnostic messages.

use vstd::prelude::*;

verus! {

/// Relies on `str::chars` and `Vec`'s `FromIterator`: the result holds
/// exactly the characters of the string, in order. The count is below
/// `usize::MAX` because a string occupies at most `isize::MAX` bytes and
/// every character occupies at least one byte.
#[verifier::external_body]
pub(crate) fn chars_of_str(s: &str) -> (v: Vec<char>)
    ensures
        v@ == s@,
        v@.len() < usize::MAX,
{
    s.chars().collect()
}

/// Relies on `String`'s `FromIterator<char>`: collecting characters yields
/// the string of exactly those characters, in order.
#[verifier::external_body]
pub(crate) fn string_of_chars(v: Vec<char>) -> (s: String)
    ensures
        s@ == v@,
{
    v.into_iter().collect()
}

/// The character for one decimal digit.
pub open spec fn decimal_digit(d: int) -> char {
    if d == 0 {
        '0'
    } else if d == 1 {
        '1'
    } else if d == 2 {
        '2'
    } else if d == 3 {
        '3'
    } else if d == 4 {
        '4'
    } else if d == 5 {
        '5'
    } else if d == 6 {
        '6'
    } else if d == 7 {
        '7'
    } else if d == 8 {
        '8'
    } else {
        '9'
    }
}

/// The usual decimal rendering of a natural number, most significant digit
/// first and without leading zeros (except for zero itself).
pub open spec fn decimal_rep(n: nat) -> Seq<char>
    decreases n,
    via decimal_rep_decreases
{
    if n < 10 {
        seq![decimal_digit(n as int)]
    } else {
        decimal_rep((n / 10) as nat).push(decimal_digit((n % 10) as int))
    }
}

#[via_fn]
proof fn decimal_rep_decreases(n: nat) {
    if n >= 10 {
        assert(n / 10 < n) by (nonlinear_arith)
            requires n >= 10,
        ;
    }
}

/// Render a number in decimal.
pub fn decimal_string(n: usize) -> (s: String)
    ensures
        s@ == decimal_rep(n as nat),
{
    let mut out: Vec<char> = Vec::new();
    let mut m: usize = n;
    while m >= 10
        invariant
            decimal_rep(n as nat) =~= decimal_rep(m as nat) + out@,
        decreases m,
    {
        let d: usize = m % 10;
        let ghost pre = out@;
        out.insert(0, digit_char(d));
        proof {
            assert(out@ =~= seq![decimal_digit(d as int)] + pre);
            assert(decimal_rep(m as nat) == decimal_rep((m / 10) as nat).push(
                decimal_digit((m % 10) as int),
            ));
            assert(decimal_rep((m / 10) as nat).push(decimal_digit((m % 10) as int))
                =~= decimal_rep((m / 10) as nat) + seq![decimal_digit((m % 10) as int)]);
            assert(m / 10 < m) by (nonlinear_arith)
                requires
                    m >= 10,
            ;
            assert(decimal_rep(n as nat) =~= decimal_rep((m / 10) as nat) + out@);
        }
        m = m / 10;
    }
    let ghost pre = out@;
    out.insert(0, digit_char(m));
    proof {
        assert(decimal_rep(m as nat) == seq![decimal_digit(m as int)]);
        assert(out@ =~= seq![decimal_digit(m as int)] + pre);
        assert(decimal_rep(n as nat) =~= out@);
    }
    string_of_chars(out)
}

/// The character for one decimal digit.
fn digit_char(d: usize) -> (c: char)
    requires
        d < 10,
    ensures
        c == decimal_digit(d as int),
{
    if d == 0 {
        '0'
    } else if d == 1 {
        '1'
    } else if d == 2 {
        '2'
    } else if d == 3 {
        '3'
    } else if d == 4 {
        '4'
    } else if d == 5 {
        '5'
    } else if d == 6 {
        '6'
    } else if d == 7 {
        '7'
    } else if d == 8 {
        '8'
    } else {
        '9'
    }
}

/// A one-character string.
pub(crate) fn char_string(c: char) -> (r: String)
    ensures
        r@ == seq![c],
{
    let mut v: Vec<char> = Vec::new();
    v.push(c);
    proof {
        assert(v@ =~= seq![c]);
    }
    string_of_chars(v)
}

/// Append the characters of a string slice onto a character vector.
pub(crate) fn push_str_chars(out: &mut Vec<char>, s: &str)
    ensures
        final(out)@ == old(out)@ + s@,
{
    let ghost base = out@;
    let v = chars_of_str(s);
    let n = v.len();
    let mut i: usize = 0;
    while i < n
        invariant
            n == v@.len(),
            v@ == s@,
            0 <= i <= n,
            out@ == base + s@.take(i as int),
        decreases n - i,
    {
        out.push(v[i]);
        proof {
            assert(s@.take(i as int).push(s@[i as int]) =~= s@.take(i as int + 1));
        }
        i = i + 1;
    }
    proof {
        assert(s@.take(n as int) =~= s@);
    }
}

} // verus!
