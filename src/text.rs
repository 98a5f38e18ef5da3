//! Building blocks of canonical JSON text.

use vstd::prelude::*;

verus! {

/// The largest integer that an IEEE 754 double holds exactly.
pub const MAX_SAFE_INT: i64 = 0x001F_FFFF_FFFF_FFFF;

/// The smallest integer that an IEEE 754 double holds exactly.
pub const MIN_SAFE_INT: i64 = -0x001F_FFFF_FFFF_FFFF;

/// `n` lies in the range of integers that JSON numbers carry without loss.
pub open spec fn is_safe_int(n: int) -> bool {
    MIN_SAFE_INT <= n <= MAX_SAFE_INT
}

/// The JSON string literal (quoted and escaped) that stands for `s`.
pub uninterp spec fn json_quoted(s: Seq<char>) -> Seq<char>;

/// The decimal digit for `d < 10`.
pub open spec fn digit_char(d: nat) -> char {
    ((48 + d) as u8) as char
}

/// The decimal digits of `n`, most significant first, without leading zeros.
pub open spec fn decimal_digits(n: nat) -> Seq<char>
    decreases n,
{
    if n < 10 {
        seq![digit_char(n)]
    } else {
        decimal_digits(n / 10).push(digit_char(n % 10))
    }
}

/// The decimal form of an integer, with a leading `-` when it is negative.
pub open spec fn decimal(n: int) -> Seq<char> {
    if n < 0 {
        seq!['-'] + decimal_digits((-n) as nat)
    } else {
        decimal_digits(n as nat)
    }
}

/// Relies on `String::push_str`: appends `s` to `buf`.
#[verifier::external_body]
pub(crate) fn append_str(buf: &mut String, s: &str)
    ensures
        final(buf)@ == old(buf)@ + s@,
{
    buf.push_str(s)
}

/// Relies on `String::push`: appends `c` to `buf`.
#[verifier::external_body]
pub(crate) fn append_char(buf: &mut String, c: char)
    ensures
        final(buf)@ == old(buf)@.push(c),
{
    buf.push(c)
}

/// Relies on `serde_json::to_string` applied to a `str`: the JSON string
/// literal for `s`, quoted and escaped. The serializer writes into a `Vec`,
/// which never fails, so the error arm is never taken.
#[verifier::external_body]
pub(crate) fn quote(s: &str) -> (r: String)
    ensures
        r@ == json_quoted(s@),
{
    serde_json::to_string(s).unwrap_or_default()
}

/// Relies on `js_int::Int::new`: `Some` exactly for integers within
/// `MIN_SAFE_INT ..= MAX_SAFE_INT`, holding the same value.
#[verifier::external_body]
pub(crate) fn safe_int(n: i64) -> (r: Option<i64>)
    ensures
        r == (if is_safe_int(n as int) { Some(n) } else { None::<i64> }),
{
    js_int::Int::new(n).map(i64::from)
}

/// Appends the decimal digits of `n` to `buf`.
fn append_digits(buf: &mut String, n: u64)
    ensures
        final(buf)@ == old(buf)@ + decimal_digits(n as nat),
    decreases n,
{
    let d: u64 = n % 10;
    let c = ((48 + d) as u8) as char;
    if n >= 10 {
        append_digits(buf, n / 10);
    }
    append_char(buf, c);
    proof {
        if n >= 10 {
            assert(old(buf)@ + decimal_digits(n as nat) =~= old(buf)@ + decimal_digits((n / 10) as nat)
                + seq![c]);
        } else {
            assert(old(buf)@ + decimal_digits(n as nat) =~= old(buf)@ + seq![c]);
        }
    }
}

/// Appends the decimal form of `n` to `buf`.
pub(crate) fn append_decimal(buf: &mut String, n: i64)
    ensures
        final(buf)@ == old(buf)@ + decimal(n as int),
{
    if n < 0 {
        append_char(buf, '-');
        let m: u64 = (0 - (n as i128)) as u64;
        append_digits(buf, m);
        proof {
            assert(old(buf)@ + decimal(n as int) =~= old(buf)@.push('-') + decimal_digits(m as nat));
        }
    } else {
        append_digits(buf, n as u64);
    }
}

} // verus!
