//! Field elements of the witness calculator as little-endian byte strings,
//! with the arbitrary-precision arithmetic done by `num-bigint`: reading a
//! decimal input value, reducing it modulo the circuit's prime, and
//! printing a value in decimal.

use vstd::prelude::*;
use num_bigint::BigUint;
use crate::text::{decimal, digits_value, is_digit};
use crate::tracer::{from_array32_le, le_value, limbs_bytes, limbs_of, to_array32_le};

verus! {

/// The shortest little-endian bytes of `n` (one zero byte for 0).
pub open spec fn le_bytes_of(n: nat) -> Seq<u8>
    decreases n,
{
    if n < 256 {
        seq![n as u8]
    } else {
        seq![(n % 256) as u8] + le_bytes_of(n / 256)
    }
}

/// The characters of `s` other than `_`.
pub open spec fn without_underscores(s: Seq<char>) -> Seq<char> {
    s.filter(|c: char| c != '_')
}

/// A decimal number as `BigUint` reads it: an optional `+`, then digits,
/// where `_` may separate digits but not lead; `None` for anything else.
pub open spec fn big_decimal(s: Seq<char>) -> Option<nat> {
    let body = if s.len() > 0 && s[0] == '+' {
        s.drop_first()
    } else {
        s
    };
    if body.len() == 0 || body[0] == '_' || !(forall|k: int|
        0 <= k < body.len() ==> is_digit(#[trigger] body[k]) || body[k] == '_') {
        None
    } else {
        Some(digits_value(without_underscores(body)))
    }
}

/// `str::parse::<BigUint>`: the number a decimal text stands for, as its
/// shortest little-endian bytes (`BigUint::to_bytes_le`).  The contract
/// claims what num-bigint's `from_str_radix` with radix 10 accepts and
/// that the bytes are those of the number read.
#[verifier::external_body]
fn parse_big_decimal(s: &str) -> (r: Option<Vec<u8>>)
    ensures
        match r {
            Some(b) => big_decimal(s@) is Some && b@ == le_bytes_of(big_decimal(s@)->0),
            None => big_decimal(s@) is None,
        },
{
    match s.parse::<BigUint>() {
        Ok(v) => Some(v.to_bytes_le()),
        Err(_) => None,
    }
}

/// `%` on `BigUint`s given by little-endian bytes
/// (`BigUint::from_bytes_le`, then `to_bytes_le` of the remainder).  The
/// contract claims the remainder's shortest bytes; a zero divisor, on which
/// the operator panics, is left out.
#[verifier::external_body]
fn big_rem(a: &[u8], m: &[u8]) -> (r: Vec<u8>)
    requires
        le_value(m@) > 0,
    ensures
        r@ == le_bytes_of(le_value(a@) % le_value(m@)),
{
    (BigUint::from_bytes_le(a) % BigUint::from_bytes_le(m)).to_bytes_le()
}

/// `BigUint`'s `Display` of a number given by little-endian bytes: its
/// decimal digits, without leading zeros.
#[verifier::external_body]
fn big_decimal_text(b: &[u8]) -> (r: String)
    ensures
        r@ == decimal(le_value(b@)),
{
    BigUint::from_bytes_le(b).to_string()
}

/// The number that `n32` limbs of the calculator's shared memory hold.
pub open spec fn limbs_value(limbs: Seq<u32>) -> nat {
    le_value(limbs_bytes(limbs))
}

/// The limbs written to the calculator's shared memory for an input value:
/// the decimal text read as a number, reduced modulo the prime given by its
/// limbs, as `n32` limbs; `None` where the text is no decimal number.
pub fn input_value_limbs(value: &str, prime_limbs: &[u32], n32: usize) -> (r: Option<Vec<u32>>)
    requires
        limbs_value(prime_limbs@) > 0,
    ensures
        match big_decimal(value@) {
            None => r is None,
            Some(n) => r is Some && r->0@ == limbs_of(
                le_bytes_of(n % limbs_value(prime_limbs@)),
                n32 as int,
            ),
        },
{
    let prime = from_array32_le(prime_limbs);
    match parse_big_decimal(value) {
        None => None,
        Some(v) => {
            proof {
                lemma_le_bytes_of_value(big_decimal(value@)->0);
            }
            let reduced = big_rem(v.as_slice(), prime.as_slice());
            Some(to_array32_le(reduced.as_slice(), n32))
        },
    }
}

/// The decimal text of the number that limbs hold, as the calculator's
/// memory dump logs it.
pub fn limbs_text(limbs: &[u32]) -> (r: String)
    ensures
        r@ == decimal(limbs_value(limbs@)),
{
    let b = from_array32_le(limbs);
    big_decimal_text(b.as_slice())
}

/// The shortest bytes of `n` stand for `n`.
pub proof fn lemma_le_bytes_of_value(n: nat)
    ensures
        le_value(le_bytes_of(n)) == n,
    decreases n,
{
    if n < 256 {
        let b = le_bytes_of(n);
        assert(b.drop_first() =~= Seq::<u8>::empty());
        assert(le_value(b) == b[0] as nat + 256 * le_value(b.drop_first()));
    } else {
        lemma_le_bytes_of_value(n / 256);
        let b = le_bytes_of(n);
        assert(b.drop_first() =~= le_bytes_of(n / 256));
        assert(b[0] as nat == n % 256);
        assert(n % 256 + 256 * (n / 256) == n);
    }
}

} // verus!
