//! The homomorphic batched dot-product kernel: for `k` independent query
//! batches, the inner product of query coefficients against every database
//! column, accumulated in two wrap-on-overflow CRT limbs, reduced, composed,
//! and added into the output cells.
//!
//! These are the scalar reference semantics of the kernel: any vectorized
//! implementation must produce bit-identical results, so every output cell
//! is pinned exactly by `kernel_cell`.

use vstd::prelude::*;
use vstd::arithmetic::div_mod::{lemma_mod_bound, lemma_small_mod};
use vstd::arithmetic::mul::{
    lemma_mul_inequality, lemma_mul_is_commutative, lemma_mul_is_distributive_add_other_way,
};
use crate::arith::barrett_reduce;
use crate::params::{ParameterSet, PirError};

verus! {

/// The low 32 bits of a query word: its residue for the first CRT prime.
pub open spec fn lo_limb(w: u64) -> u64 {
    (w as int % 0x1_0000_0000) as u64
}

/// The high 32 bits of a query word: its residue for the second CRT prime.
pub open spec fn hi_limb(w: u64) -> u64 {
    (w as int / 0x1_0000_0000) as u64
}

/// Dot product of the first `n` entries of a limb sequence against a byte
/// column, in native 64-bit wrap-on-overflow arithmetic. Overflow is
/// expected and intentional here, not an error condition.
pub open spec fn dot_wrap(q: Seq<u64>, d: Seq<u8>, n: int) -> u64
    decreases n,
{
    if n <= 0 {
        0u64
    } else {
        dot_wrap(q, d, n - 1).wrapping_add(q[n - 1].wrapping_mul(d[n - 1] as u64))
    }
}

/// The wrapped low-limb dot product of batch `batch` against column `j`.
pub open spec fn column_dot_lo(
    a: Seq<u64>,
    bt: Seq<u8>,
    a_elems: int,
    b_rows: int,
    batch: int,
    j: int,
) -> u64 {
    dot_wrap(
        a.subrange(batch * a_elems, (batch + 1) * a_elems).map_values(|w: u64| lo_limb(w)),
        bt.subrange(j * b_rows, (j + 1) * b_rows),
        b_rows,
    )
}

/// The wrapped high-limb dot product of batch `batch` against column `j`.
pub open spec fn column_dot_hi(
    a: Seq<u64>,
    bt: Seq<u8>,
    a_elems: int,
    b_rows: int,
    batch: int,
    j: int,
) -> u64 {
    dot_wrap(
        a.subrange(batch * a_elems, (batch + 1) * a_elems).map_values(|w: u64| hi_limb(w)),
        bt.subrange(j * b_rows, (j + 1) * b_rows),
        b_rows,
    )
}

/// Reduces the two wrapped limb sums by their primes and recomposes them via
/// the parameter set's CRT coefficients, modulo the combined modulus.
pub open spec fn crt_composed(p: ParameterSet, sum_lo: u64, sum_hi: u64) -> u64 {
    let lo = sum_lo as int % p.modulus_0 as int;
    let hi = sum_hi as int % p.modulus_1 as int;
    ((lo * p.crt_coeff_0 as int + hi * p.crt_coeff_1 as int) % p.modulus as int) as u64
}

/// Adds a composed value into an existing output cell, reducing once by the
/// combined modulus: the kernel accumulates, it does not overwrite.
pub open spec fn accumulate_cell(p: ParameterSet, prev: u64, v: u64) -> u64 {
    (prev.wrapping_add(v) as int % p.modulus as int) as u64
}

/// The exact value of output cell `(batch, j)` after one kernel run, given
/// its previous value.
pub open spec fn kernel_cell(
    p: ParameterSet,
    a: Seq<u64>,
    bt: Seq<u8>,
    a_elems: int,
    b_rows: int,
    batch: int,
    j: int,
    prev: u64,
) -> u64 {
    accumulate_cell(
        p,
        prev,
        crt_composed(
            p,
            column_dot_lo(a, bt, a_elems, b_rows, batch, j),
            column_dot_hi(a, bt, a_elems, b_rows, batch, j),
        ),
    )
}

/// Flat position of output cell `(batch, j)` in the batch-major output
/// buffer.
pub open spec fn cell_index(b_cols: int, batch: int, j: int) -> int {
    batch * b_cols + j
}

/// Splitting a word with shift and mask agrees with the limb spec functions.
proof fn lemma_limb_split(w: u64)
    ensures
        w & 0xFFFF_FFFF == lo_limb(w),
        w >> 32 == hi_limb(w),
{
    assert(w & 0xFFFF_FFFF == w % 0x1_0000_0000) by (bit_vector);
    assert(w >> 32 == w / 0x1_0000_0000) by (bit_vector);
}

/// Scalar reference implementation of the batched dot-product kernel.
///
/// `a` holds `k` query batches concatenated, each of `a_elems` words;
/// `b_t` is the database in transposed (column-major) layout, so the entry
/// for column `j` and row `r` sits at `b_t[j * b_rows + r]`; `c` holds
/// `k * b_cols` output cells, batch-major, which the kernel accumulates
/// into. The name matches the vectorized variant it is the reference for;
/// this body is scalar and portable.
#[allow(clippy::too_many_arguments)]
pub fn fast_batched_dot_product_avx512(
    params: &ParameterSet,
    c: &mut Vec<u64>,
    a: &Vec<u64>,
    a_elems: usize,
    b_t: &Vec<u8>,
    b_rows: usize,
    b_cols: usize,
    k: usize,
)
    requires
        params.wf(),
        a_elems == b_rows,
        old(c)@.len() == k * b_cols,
        a@.len() == k * a_elems,
        b_t@.len() == b_cols * b_rows,
    ensures
        final(c)@.len() == old(c)@.len(),
        forall|bi: int, j: int|
            0 <= bi < k && 0 <= j < b_cols ==> final(c)@[cell_index(b_cols as int, bi, j)] == kernel_cell(
                *params,
                a@,
                b_t@,
                a_elems as int,
                b_rows as int,
                bi,
                j,
                old(c)@[cell_index(b_cols as int, bi, j)],
            ),
{
    let mut batch: usize = 0;
    while batch < k
        invariant
            params.wf(),
            a_elems == b_rows,
            batch <= k,
            c@.len() == k * b_cols,
            a@.len() == k * a_elems,
            b_t@.len() == b_cols * b_rows,
            forall|bi: int, jj: int|
                0 <= bi < batch && 0 <= jj < b_cols ==> c@[cell_index(b_cols as int, bi, jj)] == kernel_cell(
                    *params,
                    a@,
                    b_t@,
                    a_elems as int,
                    b_rows as int,
                    bi,
                    jj,
                    old(c)@[cell_index(b_cols as int, bi, jj)],
                ),
            forall|i: int| batch * b_cols <= i < k * b_cols ==> c@[i] == old(c)@[i],
        decreases k - batch,
    {
        let mut j: usize = 0;
        while j < b_cols
            invariant
                params.wf(),
                a_elems == b_rows,
                batch < k,
                j <= b_cols,
                c@.len() == k * b_cols,
                a@.len() == k * a_elems,
                b_t@.len() == b_cols * b_rows,
                forall|bi: int, jj: int|
                    0 <= bi < batch && 0 <= jj < b_cols ==> c@[cell_index(b_cols as int, bi, jj)] == kernel_cell(
                        *params,
                        a@,
                        b_t@,
                        a_elems as int,
                        b_rows as int,
                        bi,
                        jj,
                        old(c)@[cell_index(b_cols as int, bi, jj)],
                    ),
                forall|jj: int|
                    0 <= jj < j ==> c@[cell_index(b_cols as int, batch as int, jj)] == kernel_cell(
                        *params,
                        a@,
                        b_t@,
                        a_elems as int,
                        b_rows as int,
                        batch as int,
                        jj,
                        old(c)@[cell_index(b_cols as int, batch as int, jj)],
                    ),
                forall|i: int| batch * b_cols + j <= i < k * b_cols ==> c@[i] == old(c)@[i],
            decreases b_cols - j,
        {
            proof {
                vstd::std_specs::vec::axiom_spec_len(a);
                vstd::std_specs::vec::axiom_spec_len(b_t);
                lemma_mul_inequality(j as int + 1, b_cols as int, b_rows as int);
                lemma_mul_is_distributive_add_other_way(b_rows as int, j as int, 1);
                lemma_mul_inequality(batch as int + 1, k as int, a_elems as int);
                lemma_mul_is_distributive_add_other_way(a_elems as int, batch as int, 1);
                lemma_mul_inequality(batch as int + 1, k as int, b_cols as int);
                lemma_mul_is_distributive_add_other_way(b_cols as int, batch as int, 1);
            }
            let base = j * b_rows;
            let a_off = batch * a_elems;
            let ghost av_lo = a@.subrange(a_off as int, a_off + a_elems as int).map_values(
                |w: u64| lo_limb(w),
            );
            let ghost av_hi = a@.subrange(a_off as int, a_off + a_elems as int).map_values(
                |w: u64| hi_limb(w),
            );
            let ghost col = b_t@.subrange(base as int, base + b_rows as int);
            let mut sum_lo: u64 = 0;
            let mut sum_hi: u64 = 0;
            let mut r: usize = 0;
            while r < a_elems
                invariant
                    r <= a_elems,
                    a_elems == b_rows,
                    base + b_rows <= b_t@.len(),
                    a_off + a_elems <= a@.len(),
                    av_lo == a@.subrange(a_off as int, a_off + a_elems as int).map_values(
                        |w: u64| lo_limb(w),
                    ),
                    av_hi == a@.subrange(a_off as int, a_off + a_elems as int).map_values(
                        |w: u64| hi_limb(w),
                    ),
                    col == b_t@.subrange(base as int, base + b_rows as int),
                    sum_lo == dot_wrap(av_lo, col, r as int),
                    sum_hi == dot_wrap(av_hi, col, r as int),
                decreases a_elems - r,
            {
                proof {
                    vstd::std_specs::vec::axiom_spec_len(a);
                    vstd::std_specs::vec::axiom_spec_len(b_t);
                }
                let b_val = b_t[base + r] as u64;
                let a_val = a[a_off + r];
                let a_lo = a_val & 0xFFFF_FFFF;
                let a_hi = a_val >> 32;
                proof {
                    lemma_limb_split(a_val);
                    assert(av_lo[r as int] == lo_limb(a@[a_off + r as int]));
                    assert(av_hi[r as int] == hi_limb(a@[a_off + r as int]));
                    assert(col[r as int] == b_t@[base + r as int]);
                }
                sum_lo = sum_lo.wrapping_add(a_lo.wrapping_mul(b_val));
                sum_hi = sum_hi.wrapping_add(a_hi.wrapping_mul(b_val));
                r = r + 1;
            }
            let lo = barrett_reduce(sum_lo, params.barrett_ratio_0, params.modulus_0);
            let hi = barrett_reduce(sum_hi, params.barrett_ratio_1, params.modulus_1);
            proof {
                lemma_mod_bound(sum_lo as int, params.modulus_0 as int);
                lemma_mod_bound(sum_hi as int, params.modulus_1 as int);
                assert(lo as int * params.crt_coeff_0 as int
                    <= 0xFFFF_FFFFint * 0x8000_0000_0000_0000) by (nonlinear_arith)
                    requires
                        0 <= lo as int <= 0xFFFF_FFFFint,
                        0 <= params.crt_coeff_0 as int <= 0x8000_0000_0000_0000int;
                assert(hi as int * params.crt_coeff_1 as int
                    <= 0xFFFF_FFFFint * 0x8000_0000_0000_0000) by (nonlinear_arith)
                    requires
                        0 <= hi as int <= 0xFFFF_FFFFint,
                        0 <= params.crt_coeff_1 as int <= 0x8000_0000_0000_0000int;
                assert(lo as int * params.crt_coeff_0 as int >= 0) by (nonlinear_arith)
                    requires lo as int >= 0, params.crt_coeff_0 as int >= 0;
                assert(hi as int * params.crt_coeff_1 as int >= 0) by (nonlinear_arith)
                    requires hi as int >= 0, params.crt_coeff_1 as int >= 0;
            }
            let wide = (lo as u128) * (params.crt_coeff_0 as u128) + (hi as u128) * (
            params.crt_coeff_1 as u128);
            let res = (wide % (params.modulus as u128)) as u64;
            proof {
                lemma_mod_bound(wide as int, params.modulus as int);
            }
            proof {
                vstd::std_specs::vec::axiom_spec_len(&*c);
            }
            let idx = batch * b_cols + j;
            let prev = c[idx];
            let nv = barrett_reduce(
                prev.wrapping_add(res),
                params.barrett_ratio_full,
                params.modulus,
            );
            proof {
                assert(res == crt_composed(*params, sum_lo, sum_hi));
                assert((batch + 1) * a_elems == batch * a_elems + a_elems);
                assert((j + 1) * b_rows == j * b_rows + b_rows) by {
                    lemma_mul_is_distributive_add_other_way(b_rows as int, j as int, 1);
                    lemma_mul_is_commutative(b_rows as int, j as int + 1);
                    lemma_mul_is_commutative(b_rows as int, j as int);
                };
                assert(nv == kernel_cell(
                    *params,
                    a@,
                    b_t@,
                    a_elems as int,
                    b_rows as int,
                    batch as int,
                    j as int,
                    c@[idx as int],
                ));
                assert(c@[idx as int] == old(c)@[idx as int]);
            }
            c.set(idx, nv);
            proof {
                // Cells of earlier batches sit strictly below the updated
                // index, so the update leaves them alone.
                assert forall|bi: int, jj: int| 0 <= bi < batch && 0 <= jj < b_cols implies
                    #[trigger] cell_index(b_cols as int, bi, jj) < cell_index(
                    b_cols as int,
                    batch as int,
                    j as int,
                ) by {
                    lemma_mul_inequality(bi + 1, batch as int, b_cols as int);
                    lemma_mul_is_distributive_add_other_way(b_cols as int, bi, 1);
                }
            }
            j = j + 1;
        }
        proof {
            lemma_mul_is_distributive_add_other_way(b_cols as int, batch as int, 1);
        }
        batch = batch + 1;
    }
}

/// Validated entry to the kernel: checks the shape preconditions the kernel
/// itself assumes, and signals their violation as `InvariantViolation`
/// instead of running. A caller bug, not user error.
#[allow(clippy::too_many_arguments)]
pub fn batched_dot_product(
    params: &ParameterSet,
    c: &mut Vec<u64>,
    a: &Vec<u64>,
    a_elems: usize,
    b_t: &Vec<u8>,
    b_rows: usize,
    b_cols: usize,
    k: usize,
) -> (r: Result<(), PirError>)
    requires
        params.wf(),
    ensures
        r is Ok <==> (a_elems == b_rows && old(c)@.len() == k * b_cols && a@.len() == k * a_elems
            && b_t@.len() == b_cols * b_rows),
        r matches Err(e) ==> e == PirError::InvariantViolation && final(c)@ == old(c)@,
        r is Ok ==> final(c)@.len() == old(c)@.len() && forall|bi: int, j: int|
            0 <= bi < k && 0 <= j < b_cols ==> final(c)@[cell_index(b_cols as int, bi, j)] == kernel_cell(
                *params,
                a@,
                b_t@,
                a_elems as int,
                b_rows as int,
                bi,
                j,
                old(c)@[cell_index(b_cols as int, bi, j)],
            ),
{
    proof {
        vstd::std_specs::vec::axiom_spec_len(&*c);
        vstd::std_specs::vec::axiom_spec_len(a);
        vstd::std_specs::vec::axiom_spec_len(b_t);
    }
    if a_elems != b_rows {
        return Err(PirError::InvariantViolation);
    }
    let cells = match k.checked_mul(b_cols) {
        Some(v) => v,
        None => {
            proof {
                vstd::arithmetic::mul::lemma_mul_nonnegative(k as int, b_cols as int);
            }
            return Err(PirError::InvariantViolation);
        },
    };
    if c.len() != cells {
        return Err(PirError::InvariantViolation);
    }
    let words = match k.checked_mul(a_elems) {
        Some(v) => v,
        None => {
            proof {
                vstd::arithmetic::mul::lemma_mul_nonnegative(k as int, a_elems as int);
            }
            return Err(PirError::InvariantViolation);
        },
    };
    if a.len() != words {
        return Err(PirError::InvariantViolation);
    }
    let dbl = match b_cols.checked_mul(b_rows) {
        Some(v) => v,
        None => {
            proof {
                vstd::arithmetic::mul::lemma_mul_nonnegative(b_cols as int, b_rows as int);
            }
            return Err(PirError::InvariantViolation);
        },
    };
    if b_t.len() != dbl {
        return Err(PirError::InvariantViolation);
    }
    fast_batched_dot_product_avx512(params, c, a, a_elems, b_t, b_rows, b_cols, k);
    Ok(())
}

/// Kernel additivity: against a zero-initialized output cell one run
/// stores the composed residue itself, and a second identical run doubles
/// it under the combined modulus. The kernel accumulates, it never
/// overwrites.
pub proof fn lemma_kernel_additivity(
    p: ParameterSet,
    a: Seq<u64>,
    bt: Seq<u8>,
    a_elems: int,
    b_rows: int,
    batch: int,
    j: int,
)
    requires
        p.wf(),
    ensures
        ({
            let v = crt_composed(
                p,
                column_dot_lo(a, bt, a_elems, b_rows, batch, j),
                column_dot_hi(a, bt, a_elems, b_rows, batch, j),
            );
            let once = kernel_cell(p, a, bt, a_elems, b_rows, batch, j, 0u64);
            let twice = kernel_cell(p, a, bt, a_elems, b_rows, batch, j, once);
            once == v && twice == (2 * v as int) % (p.modulus as int)
        }),
{
    let q = p.modulus as int;
    let sum_lo = column_dot_lo(a, bt, a_elems, b_rows, batch, j);
    let sum_hi = column_dot_hi(a, bt, a_elems, b_rows, batch, j);
    let lo = sum_lo as int % p.modulus_0 as int;
    let hi = sum_hi as int % p.modulus_1 as int;
    lemma_mod_bound(sum_lo as int, p.modulus_0 as int);
    lemma_mod_bound(sum_hi as int, p.modulus_1 as int);
    vstd::arithmetic::mul::lemma_mul_nonnegative(lo, p.crt_coeff_0 as int);
    vstd::arithmetic::mul::lemma_mul_nonnegative(hi, p.crt_coeff_1 as int);
    lemma_mod_bound(lo * p.crt_coeff_0 as int + hi * p.crt_coeff_1 as int, q);
    let v = crt_composed(p, sum_lo, sum_hi);
    assert(v < q);
    lemma_small_mod(v as nat, q as nat);
    let once = kernel_cell(p, a, bt, a_elems, b_rows, batch, j, 0u64);
    assert(once == v);
    assert((0u64).wrapping_add(v) == v);
    assert(v.wrapping_add(v) == v as int + v as int);
    assert(v as int + v as int == 2 * v as int);
}

/// CRT composition is exact: the composed value reduces back to each of
/// the two limb residues that went in, so a decoder holding either prime
/// recovers its residue from the recomposed cell.
pub proof fn lemma_crt_composed_recomposes(p: ParameterSet, sum_lo: u64, sum_hi: u64)
    requires
        p.wf(),
    ensures
        crt_composed(p, sum_lo, sum_hi) as int % p.modulus_0 as int == sum_lo as int
            % p.modulus_0 as int,
        crt_composed(p, sum_lo, sum_hi) as int % p.modulus_1 as int == sum_hi as int
            % p.modulus_1 as int,
{
    let m0 = p.modulus_0 as int;
    let m1 = p.modulus_1 as int;
    let q = p.modulus as int;
    let c0 = p.crt_coeff_0 as int;
    let c1 = p.crt_coeff_1 as int;
    let lo = sum_lo as int % m0;
    let hi = sum_hi as int % m1;
    let t = lo * c0 + hi * c1;
    lemma_mod_bound(sum_lo as int, m0);
    lemma_mod_bound(sum_hi as int, m1);
    vstd::arithmetic::mul::lemma_mul_nonnegative(lo, c0);
    vstd::arithmetic::mul::lemma_mul_nonnegative(hi, c1);
    lemma_mod_bound(t, q);
    assert(crt_composed(p, sum_lo, sum_hi) == t % q);
    // Reducing modulo the combined modulus keeps both residues.
    assert((t % q) % m0 == t % m0) by {
        vstd::arithmetic::div_mod::lemma_mod_mod(t, m0, m1);
    }
    assert((t % q) % m1 == t % m1) by {
        vstd::arithmetic::mul::lemma_mul_is_commutative(m0, m1);
        vstd::arithmetic::div_mod::lemma_mod_mod(t, m1, m0);
    }
    // The coefficients are 1 and 0 modulo the first prime.
    assert(t % m0 == lo) by {
        vstd::arithmetic::div_mod::lemma_add_mod_noop(lo * c0, hi * c1, m0);
        vstd::arithmetic::div_mod::lemma_mul_mod_noop_right(lo, c0, m0);
        vstd::arithmetic::div_mod::lemma_mul_mod_noop_right(hi, c1, m0);
        assert(lo * 1 == lo && hi * 0 == 0) by (nonlinear_arith);
        lemma_small_mod(lo as nat, m0 as nat);
        assert((lo % m0 + 0int % m0) % m0 == lo);
    }
    // And 0 and 1 modulo the second.
    assert(t % m1 == hi) by {
        vstd::arithmetic::div_mod::lemma_add_mod_noop(lo * c0, hi * c1, m1);
        vstd::arithmetic::div_mod::lemma_mul_mod_noop_right(lo, c0, m1);
        vstd::arithmetic::div_mod::lemma_mul_mod_noop_right(hi, c1, m1);
        assert(lo * 0 == 0 && hi * 1 == hi) by (nonlinear_arith);
        lemma_small_mod(hi as nat, m1 as nat);
        assert((0int % m1 + hi % m1) % m1 == hi);
    }
    vstd::arithmetic::div_mod::lemma_mod_twice(sum_lo as int, m0);
    vstd::arithmetic::div_mod::lemma_mod_twice(sum_hi as int, m1);
}

} // verus!
