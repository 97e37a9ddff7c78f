//! Decimal rendering of integers.

use vstd::prelude::*;

verus! {

/// The decimal digit characters of `n`, most significant first, no sign
/// and no leading zeros (`0` renders as `"0"`).
pub open spec fn dec_digits(n: nat) -> Seq<u8>
    decreases n,
{
    if n < 10 {
        seq![(48 + n) as u8]
    } else {
        dec_digits(n / 10).push((48 + n % 10) as u8)
    }
}

/// The decimal rendering of a possibly negative integer: a `-` sign
/// followed by the digits of the magnitude.
pub open spec fn dec_signed(n: int) -> Seq<u8> {
    if n >= 0 {
        dec_digits(n as nat)
    } else {
        seq!['-' as u8] + dec_digits((-n) as nat)
    }
}

/// How many digits a number has, for the ranges the formatters pad in.
pub proof fn lemma_dec_digits_len(n: nat)
    ensures
        dec_digits(n).len() >= 1,
        (dec_digits(n).len() == 1) == (n < 10),
        (dec_digits(n).len() == 2) == (10 <= n && n < 100),
        (dec_digits(n).len() == 3) == (100 <= n && n < 1000),
        (dec_digits(n).len() == 4) == (1000 <= n && n < 10000),
    decreases n,
{
    if n >= 10 {
        lemma_dec_digits_len(n / 10);
    }
}

/// Relies on `itoa::Buffer::format`: the decimal digits of the integer,
/// most significant first.
#[verifier::external_body]
pub fn format_u64(n: u64) -> (r: Vec<u8>)
    ensures
        r@ == dec_digits(n as nat),
{
    let mut buf = itoa::Buffer::new();
    buf.format(n).as_bytes().to_vec()
}

/// The decimal rendering of a signed integer, sign included.
pub fn format_i64(n: i64) -> (r: Vec<u8>)
    ensures
        r@ == dec_signed(n as int),
{
    if n >= 0 {
        format_u64(n as u64)
    } else {
        let wide: i128 = -(n as i128);
        let mag: u64 = wide as u64;
        let mut digits = format_u64(mag);
        let mut r: Vec<u8> = Vec::new();
        r.push('-' as u8);
        r.append(&mut digits);
        proof {
            assert(r@ =~= dec_signed(n as int));
        }
        r
    }
}

} // verus!
