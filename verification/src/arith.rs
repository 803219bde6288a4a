//! Modular arithmetic helpers backed by the `spiral_rs` lattice crate:
//! Barrett reduction and modular inversion, with exact contracts.

use vstd::prelude::*;
use vstd::arithmetic::div_mod::{lemma_small_mod, lemma_mul_mod_noop_right};

verus! {

/// `2^64`, the range of a native word, as a spec-level integer.
pub open spec fn two_to_64() -> int {
    0x1_0000_0000_0000_0000
}

/// Relies on `spiral_rs::arith::barrett_raw_u64`: Barrett reduction with the
/// precomputed ratio `floor(2^64 / m)` and a single conditional subtraction
/// returns the exact residue of any 64-bit input modulo `m`.
#[verifier::external_body]
pub fn barrett_reduce(v: u64, ratio: u64, m: u64) -> (r: u64)
    requires
        m >= 2,
        ratio == two_to_64() / (m as int),
    ensures
        r == v as int % m as int,
{
    spiral_rs::arith::barrett_raw_u64(v, ratio, m)
}

/// Relies on `spiral_rs::number_theory::invert_uint_mod`: the extended
/// Euclidean algorithm returns the multiplicative inverse of `a` modulo `m`
/// exactly when one exists. The bounds on `a` and `m` keep its internal
/// signed cofactor arithmetic far from overflow.
#[verifier::external_body]
pub fn mod_inverse(a: u64, m: u64) -> (r: Option<u64>)
    requires
        2 <= m <= 0xFFFF_FFFFu64,
        a <= 0xFFFF_FFFFu64,
    ensures
        (exists|w: int| 0 <= w < m && #[trigger] ((w * a as int) % (m as int)) == 1) <==> r is Some,
        r is Some ==> r.unwrap() < m && (r.unwrap() as int * a as int) % (m as int) == 1,
{
    spiral_rs::number_theory::invert_uint_mod(a, m)
}

/// A multiplicative inverse modulo `m` is unique among the residues
/// `0 <= v < m`.
pub proof fn lemma_mod_inverse_unique(a: int, m: int, v1: int, v2: int)
    requires
        m >= 2,
        0 <= v1 < m,
        0 <= v2 < m,
        (v1 * a) % m == 1,
        (v2 * a) % m == 1,
    ensures
        v1 == v2,
{
    assert((v1 * (v2 * a)) % m == (v1 * ((v2 * a) % m)) % m) by {
        lemma_mul_mod_noop_right(v1, v2 * a, m);
    }
    assert((v2 * (v1 * a)) % m == (v2 * ((v1 * a) % m)) % m) by {
        lemma_mul_mod_noop_right(v2, v1 * a, m);
    }
    assert(v1 % m == v1 && v2 % m == v2) by {
        lemma_small_mod(v1 as nat, m as nat);
        lemma_small_mod(v2 as nat, m as nat);
    }
    assert(v1 * (v2 * a) == v2 * (v1 * a)) by (nonlinear_arith);
}

/// Computes `floor(2^64 / m)`, the ratio that `barrett_reduce` expects.
pub fn barrett_ratio(m: u64) -> (r: u64)
    requires
        m >= 2,
    ensures
        r == two_to_64() / (m as int),
{
    let wide: u128 = (1u128 << 64) / (m as u128);
    assert(1u128 << 64 == two_to_64()) by (bit_vector);
    assert(two_to_64() / (m as int) <= two_to_64() / 2) by {
        vstd::arithmetic::div_mod::lemma_div_is_ordered_by_denominator(two_to_64(), 2, m as int);
    }
    wide as u64
}

} // verus!
