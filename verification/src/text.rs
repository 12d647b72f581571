//! Decimal rendering of integers into byte strings.
//!
//! Corpus lines and command arguments are byte strings; this module renders
//! `u64` and `i64` values as ASCII decimal, with an exact sequence-level
//! specification that the rest of the crate's contracts build on.

use vstd::prelude::*;

verus! {

/// The ASCII digits of `n` in decimal, most significant first.
pub open spec fn dec_digits(n: nat) -> Seq<u8>
    decreases n,
{
    if n < 10 {
        seq![(n + 48) as u8]
    } else {
        dec_digits(n / 10) + seq![((n % 10) + 48) as u8]
    }
}

/// The ASCII decimal form of a signed value: a `-` sign, then the digits of
/// its magnitude.
pub open spec fn dec_i64(v: int) -> Seq<u8> {
    if v < 0 {
        seq![45u8] + dec_digits((-v) as nat)
    } else {
        dec_digits(v as nat)
    }
}

/// Appends the decimal digits of `n` to `out`.
pub fn push_u64_dec(out: &mut Vec<u8>, n: u64)
    ensures
        final(out)@ == old(out)@ + dec_digits(n as nat),
    decreases n,
{
    if n >= 10 {
        push_u64_dec(out, n / 10);
    }
    out.push((n % 10) as u8 + 48);
    proof {
        if n < 10 {
            assert(out@ =~= old(out)@ + dec_digits(n as nat));
        } else {
            assert(out@ =~= old(out)@ + dec_digits(n as nat));
        }
    }
}

/// Appends the decimal form of `v` to `out`, with a leading `-` when negative.
pub fn push_i64_dec(out: &mut Vec<u8>, v: i64)
    ensures
        final(out)@ == old(out)@ + dec_i64(v as int),
{
    if v < 0 {
        out.push(45u8);
        let wide: i128 = -(v as i128);
        let mag: u64 = wide as u64;
        push_u64_dec(out, mag);
        proof {
            assert(out@ =~= old(out)@ + dec_i64(v as int));
        }
    } else {
        let mag: u64 = v as u64;
        push_u64_dec(out, mag);
    }
}

/// The decimal form of `v` as a fresh byte string.
pub fn i64_dec(v: i64) -> (r: Vec<u8>)
    ensures
        r@ == dec_i64(v as int),
{
    let mut out: Vec<u8> = Vec::new();
    push_i64_dec(&mut out, v);
    proof {
        assert(out@ =~= dec_i64(v as int));
    }
    out
}

/// True iff the two byte strings hold the same bytes.
pub(crate) fn bytes_eq(a: &Vec<u8>, b: &Vec<u8>) -> (r: bool)
    ensures
        r == (a@ == b@),
{
    if a.len() != b.len() {
        return false;
    }
    let n = a.len();
    let mut i: usize = 0;
    while i < n
        invariant
            i <= n,
            n == a@.len() == b@.len(),
            forall|j: int| 0 <= j < i ==> a@[j] == b@[j],
        decreases n - i,
    {
        if a[i] != b[i] {
            return false;
        }
        i = i + 1;
    }
    proof {
        assert(a@ =~= b@);
    }
    true
}

} // verus!
