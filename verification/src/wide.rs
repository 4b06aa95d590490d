//! 256- and 512-bit unsigned arithmetic on big-endian byte arrays, computed by
//! `primitive_types`.
use vstd::prelude::*;
use primitive_types::{U256, U512};
use crate::bytes::{
    be_value, lemma_be_value_bound, lemma_be_value_concat, lemma_be_value_zeros_prefix, pow256,
    zeros,
};

verus! {

/// `U512::checked_mul` of `a` (big-endian) by the `u64` `b`.
#[verifier::external_body]
pub(crate) fn u512_checked_mul(a: &[u8; 64], b: u64) -> (r: Option<[u8; 64]>)
    ensures
        r is Some <==> be_value(a@) * b < pow256(64),
        r matches Some(x) ==> be_value(x@) == be_value(a@) * b,
{
    match U512::from_big_endian(a).checked_mul(U512::from(b)) {
        Some(v) => Some(v.to_big_endian()),
        None => None,
    }
}

/// `U512::checked_div`: the quotient, or `None` when dividing by zero.
#[verifier::external_body]
pub(crate) fn u512_checked_div(a: &[u8; 64], b: &[u8; 64]) -> (r: Option<[u8; 64]>)
    ensures
        r is Some <==> be_value(b@) != 0,
        r matches Some(x) ==> be_value(x@) == be_value(a@) / be_value(b@),
{
    match U512::from_big_endian(a).checked_div(U512::from_big_endian(b)) {
        Some(v) => Some(v.to_big_endian()),
        None => None,
    }
}

/// `U512::checked_add`: the sum, or `None` when it does not fit in 512 bits.
#[verifier::external_body]
pub(crate) fn u512_checked_add(a: &[u8; 64], b: &[u8; 64]) -> (r: Option<[u8; 64]>)
    ensures
        r is Some <==> be_value(a@) + be_value(b@) < pow256(64),
        r matches Some(x) ==> be_value(x@) == be_value(a@) + be_value(b@),
{
    match U512::from_big_endian(a).checked_add(U512::from_big_endian(b)) {
        Some(v) => Some(v.to_big_endian()),
        None => None,
    }
}

/// `U256::checked_add`: the sum, or `None` when it does not fit in 256 bits.
#[verifier::external_body]
pub(crate) fn u256_checked_add(a: &[u8; 32], b: &[u8; 32]) -> (r: Option<[u8; 32]>)
    ensures
        r is Some <==> be_value(a@) + be_value(b@) < pow256(32),
        r matches Some(x) ==> be_value(x@) == be_value(a@) + be_value(b@),
{
    match U256::from_big_endian(a).checked_add(U256::from_big_endian(b)) {
        Some(v) => Some(v.to_big_endian()),
        None => None,
    }
}

/// A 256-bit value as a 512-bit one.
pub fn widen(x: &[u8; 32]) -> (r: [u8; 64])
    ensures
        r@ == zeros(32) + x@,
        be_value(r@) == be_value(x@),
{
    let mut r = [0u8; 64];
    let mut i: usize = 0;
    while i < 32
        invariant
            i <= 32,
            forall|j: int| 0 <= j < 32 ==> r@[j] == 0u8,
            forall|j: int| 0 <= j < i ==> r@[32 + j] == x@[j],
        decreases 32 - i,
    {
        r[32 + i] = x[i];
        i += 1;
    }
    assert(r@ =~= zeros(32) + x@);
    proof {
        lemma_be_value_zeros_prefix(32, x@);
    }
    r
}

/// The low 256 bits of a 512-bit value below `2^256`.
pub fn narrow(x: &[u8; 64]) -> (r: [u8; 32])
    requires
        be_value(x@) < pow256(32),
    ensures
        be_value(r@) == be_value(x@),
{
    let mut r = [0u8; 32];
    let mut i: usize = 0;
    while i < 32
        invariant
            i <= 32,
            forall|j: int| 0 <= j < i ==> r@[j] == x@[32 + j],
        decreases 32 - i,
    {
        r[i] = x[32 + i];
        i += 1;
    }
    assert(r@ =~= x@.subrange(32, 64));
    proof {
        let hi = x@.subrange(0, 32);
        let lo = x@.subrange(32, 64);
        assert(x@ =~= hi + lo);
        lemma_be_value_concat(hi, lo);
        let h = be_value(hi);
        let p = pow256(32);
        assert(h == 0) by (nonlinear_arith)
            requires
                h * p + be_value(lo) < p,
                p > 0,
        {
            if h > 0 {
                assert(h * p >= p);
            }
        }
    }
    r
}

/// Every 256-bit value is below `2^256`.
pub proof fn lemma_below_2_256(s: Seq<u8>)
    requires
        s.len() == 32,
    ensures
        be_value(s) < pow256(32),
{
    lemma_be_value_bound(s);
}

} // verus!
