//! Parameter derivation and database layout: maps a
//! `(num_items, item_size_bits, variant)` scenario to concrete lattice
//! dimensions and the byte-buffer shape the kernel expects.

use vstd::prelude::*;
use vstd::arithmetic::power2::{
    lemma2_to64, lemma_pow2_adds, lemma_pow2_pos, lemma_pow2_strictly_increases, pow2,
};
use crate::arith::two_to_64;

verus! {

/// First CRT prime: query words carry a residue modulo this in their low
/// 32 bits.
pub const CRT_MODULUS_0: u64 = 268369921;

/// Second CRT prime: query words carry a residue modulo this in their high
/// 32 bits.
pub const CRT_MODULUS_1: u64 = 249561089;

/// The combined ciphertext modulus, `CRT_MODULUS_0 * CRT_MODULUS_1`.
pub const COMBINED_MODULUS: u64 = 66974689739603969;

/// CRT recomposition coefficient congruent to 1 modulo the first prime and
/// 0 modulo the second.
pub const CRT_COEFF_0: u64 = 40838229011788690;

/// CRT recomposition coefficient congruent to 0 modulo the first prime and
/// 1 modulo the second.
pub const CRT_COEFF_1: u64 = 26136460727815280;

/// Ring polynomial length; rows and columns are sized in multiples of it.
pub const POLY_LEN: usize = 2048;

/// Base-2 logarithm of `POLY_LEN`.
pub const POLY_LEN_LOG2: usize = 11;

/// Scheme variant: one flat pass over the database, or a hierarchical
/// two-level column layout.
#[derive(Clone, Copy, Debug, PartialEq, Eq, Structural)]
pub enum Variant {
    SinglePass,
    TwoPass,
}

/// Error taxonomy: every operation is a pure function of its inputs, so no
/// failure is transient and there is no retry policy.
#[derive(Clone, Copy, Debug, PartialEq, Eq, Structural)]
pub enum PirError {
    /// Zero-valued sizes, misaligned byte lengths, or shape mismatches the
    /// caller could have checked.
    InvalidArgument,
    /// The supplied database is smaller than the derived requirement; carries
    /// the expected shape and the actual byte count for diagnosis.
    InsufficientData { expected_rows: usize, expected_cols: usize, actual_bytes: usize },
    /// A kernel precondition failed: a caller bug, not user error, and not
    /// recoverable.
    InvariantViolation,
}

/// A derived lattice configuration. Immutable once derived; shared read-only
/// by every other component.
#[derive(Clone, Copy, Debug, PartialEq, Eq, Structural)]
pub struct ParameterSet {
    /// First CRT prime.
    pub modulus_0: u64,
    /// Second CRT prime.
    pub modulus_1: u64,
    /// Combined modulus, the product of the two primes.
    pub modulus: u64,
    /// CRT recomposition coefficient for the first residue.
    pub crt_coeff_0: u64,
    /// CRT recomposition coefficient for the second residue.
    pub crt_coeff_1: u64,
    /// `floor(2^64 / modulus_0)`, the Barrett ratio for the first prime.
    pub barrett_ratio_0: u64,
    /// `floor(2^64 / modulus_1)`, the Barrett ratio for the second prime.
    pub barrett_ratio_1: u64,
    /// `floor(2^64 / modulus)`, the Barrett ratio for the combined modulus.
    pub barrett_ratio_full: u64,
    /// Ring polynomial length, a power of two.
    pub poly_len: usize,
    /// Base-2 logarithm of `poly_len`.
    pub poly_len_log2: usize,
    /// Row dimension exponent: `db_rows == 2^(db_dim_1 + poly_len_log2)`.
    pub db_dim_1: usize,
    /// Column dimension exponent, used by the two-pass variant.
    pub db_dim_2: usize,
    /// Instance count, used by the single-pass variant.
    pub instances: usize,
    /// The scheme variant this set was derived for.
    pub variant: Variant,
}

impl ParameterSet {
    /// Number of database rows implied by this parameter set.
    pub open spec fn spec_db_rows(self) -> nat {
        pow2((self.db_dim_1 + self.poly_len_log2) as nat)
    }

    /// Number of database columns implied by this parameter set.
    pub open spec fn spec_db_cols(self) -> nat {
        match self.variant {
            Variant::SinglePass => self.instances as nat * self.poly_len as nat,
            Variant::TwoPass => pow2((self.db_dim_2 + self.poly_len_log2) as nat),
        }
    }

    /// Size in bytes of the buffer the database must occupy: one byte per
    /// entry.
    pub open spec fn spec_required_db_bytes(self) -> nat {
        self.spec_db_rows() * self.spec_db_cols()
    }

    /// Well-formedness: the modulus structure is consistent (the combined
    /// modulus is the product of the two primes, the CRT coefficients
    /// recompose residues, the Barrett ratios match their moduli), and the
    /// implied database shape is addressable.
    pub open spec fn wf(self) -> bool {
        &&& 2 <= self.modulus_0 <= 0xFFFF_FFFFu64
        &&& 2 <= self.modulus_1 <= 0xFFFF_FFFFu64
        &&& self.modulus == self.modulus_0 * self.modulus_1
        &&& self.modulus <= 0x8000_0000_0000_0000u64
        &&& self.barrett_ratio_0 == two_to_64() / (self.modulus_0 as int)
        &&& self.barrett_ratio_1 == two_to_64() / (self.modulus_1 as int)
        &&& self.barrett_ratio_full == two_to_64() / (self.modulus as int)
        &&& self.crt_coeff_0 < self.modulus
        &&& self.crt_coeff_1 < self.modulus
        &&& self.crt_coeff_0 as int % self.modulus_0 as int == 1
        &&& self.crt_coeff_0 as int % self.modulus_1 as int == 0
        &&& self.crt_coeff_1 as int % self.modulus_0 as int == 0
        &&& self.crt_coeff_1 as int % self.modulus_1 as int == 1
        &&& self.poly_len == pow2(self.poly_len_log2 as nat)
        &&& self.instances >= 1
        &&& self.spec_required_db_bytes() <= usize::MAX
    }
}

/// `2^e`, computed without bit tricks.
pub fn pow2_usize(e: usize) -> (r: usize)
    requires
        pow2(e as nat) <= usize::MAX,
    ensures
        r == pow2(e as nat),
{
    proof {
        lemma2_to64();
    }
    let mut r: usize = 1;
    let mut i: usize = 0;
    while i < e
        invariant
            i <= e,
            r == pow2(i as nat),
            pow2(e as nat) <= usize::MAX,
        decreases e - i,
    {
        proof {
            if ((i + 1) as nat) < (e as nat) {
                lemma_pow2_strictly_increases((i + 1) as nat, e as nat);
            }
            lemma_pow2_adds(i as nat, 1);
            lemma2_to64();
        }
        r = r * 2;
        i = i + 1;
    }
    r
}

/// Bounds that follow from well-formedness: the shape is positive, each
/// dimension fits in the required byte count, and the dimension exponents
/// stay below the word width.
pub proof fn lemma_shape_bounds(p: ParameterSet)
    requires
        p.wf(),
    ensures
        p.spec_db_rows() >= 1,
        p.spec_db_cols() >= 1,
        p.spec_db_rows() <= p.spec_required_db_bytes(),
        p.spec_db_cols() <= p.spec_required_db_bytes(),
        p.db_dim_1 + p.poly_len_log2 <= 63,
        p.variant is TwoPass ==> p.db_dim_2 + p.poly_len_log2 <= 63,
{
    let rows = p.spec_db_rows() as int;
    let cols = p.spec_db_cols() as int;
    lemma_pow2_pos((p.db_dim_1 + p.poly_len_log2) as nat);
    match p.variant {
        Variant::SinglePass => {
            lemma_pow2_pos(p.poly_len_log2 as nat);
            vstd::arithmetic::mul::lemma_mul_inequality(1, p.instances as int, p.poly_len as int);
        },
        Variant::TwoPass => {
            lemma_pow2_pos((p.db_dim_2 + p.poly_len_log2) as nat);
        },
    }
    assert(1 * rows <= cols * rows) by {
        vstd::arithmetic::mul::lemma_mul_inequality(1, cols, rows);
    }
    assert(1 * cols <= rows * cols) by {
        vstd::arithmetic::mul::lemma_mul_inequality(1, rows, cols);
    }
    vstd::arithmetic::mul::lemma_mul_is_commutative(cols, rows);
    lemma2_to64();
    assert(usize::MAX < pow2(64));
    if p.db_dim_1 + p.poly_len_log2 > 63 {
        if (p.db_dim_1 + p.poly_len_log2) as nat > 64 {
            lemma_pow2_strictly_increases(64, (p.db_dim_1 + p.poly_len_log2) as nat);
        }
        assert(false);
    }
    if p.variant is TwoPass && p.db_dim_2 + p.poly_len_log2 > 63 {
        if (p.db_dim_2 + p.poly_len_log2) as nat > 64 {
            lemma_pow2_strictly_increases(64, (p.db_dim_2 + p.poly_len_log2) as nat);
        }
        assert(false);
    }
}

/// Row count of the database this parameter set describes.
pub fn db_rows(params: &ParameterSet) -> (r: usize)
    requires
        params.wf(),
    ensures
        r == params.spec_db_rows(),
{
    proof {
        lemma_shape_bounds(*params);
    }
    pow2_usize(params.db_dim_1 + params.poly_len_log2)
}

/// Column count of the database this parameter set describes.
pub fn db_cols(params: &ParameterSet) -> (r: usize)
    requires
        params.wf(),
    ensures
        r == params.spec_db_cols(),
{
    proof {
        lemma_shape_bounds(*params);
    }
    match params.variant {
        Variant::SinglePass => params.instances * params.poly_len,
        Variant::TwoPass => pow2_usize(params.db_dim_2 + params.poly_len_log2),
    }
}

/// Exact byte count a database buffer must supply for this parameter set:
/// `db_rows * db_cols`, one byte per entry.
pub fn required_db_bytes(params: &ParameterSet) -> (r: usize)
    requires
        params.wf(),
    ensures
        r == params.spec_required_db_bytes(),
{
    let rows = db_rows(params);
    let cols = db_cols(params);
    rows * cols
}

/// Projection of the row dimension exponent.
pub fn params_db_dim_1(params: &ParameterSet) -> (r: usize)
    ensures
        r == params.db_dim_1,
{
    params.db_dim_1
}

/// Smallest exponent `e` with `2^e >= n` (0 for `n <= 1`).
pub open spec fn log2_up(n: int) -> nat
    decreases n,
{
    if n <= 1 {
        0
    } else {
        (1 + log2_up((n + 1) / 2)) as nat
    }
}

/// `2^log2_up(n)` indeed covers `n`.
pub proof fn lemma_log2_up_covers(n: int)
    requires
        n >= 1,
    ensures
        pow2(log2_up(n)) >= n,
    decreases n,
{
    if n <= 1 {
        lemma2_to64();
    } else {
        let m = (n + 1) / 2;
        lemma_log2_up_covers(m);
        lemma_pow2_adds(1, log2_up(m));
        lemma2_to64();
        assert(pow2(log2_up(n)) == 2 * pow2(log2_up(m)));
    }
}

/// `log2_up` never overshoots a power of two that already covers `n`.
pub proof fn lemma_log2_up_le(n: int, k: nat)
    requires
        1 <= n,
        n <= pow2(k),
    ensures
        log2_up(n) <= k,
    decreases n,
{
    if n <= 1 {
    } else {
        let m = (n + 1) / 2;
        assert(k >= 1) by {
            lemma2_to64();
            if k == 0 {
            }
        }
        assert(pow2(k) == 2 * pow2((k - 1) as nat)) by {
            lemma_pow2_adds(1, (k - 1) as nat);
            lemma2_to64();
        }
        assert(m <= pow2((k - 1) as nat));
        lemma_log2_up_le(m, (k - 1) as nat);
    }
}

/// `2^128` exceeds every 128-bit value.
proof fn lemma_pow2_128()
    ensures
        pow2(128) == 0x1_0000_0000_0000_0000_0000_0000_0000_0000,
{
    lemma2_to64();
    lemma_pow2_adds(64, 64);
    assert(0x1_0000_0000_0000_0000int * 0x1_0000_0000_0000_0000
        == 0x1_0000_0000_0000_0000_0000_0000_0000_0000) by (nonlinear_arith);
}

/// Smallest exponent `e` with `2^e >= n`, computed by halving.
fn log2_up_exec(n: u128) -> (e: usize)
    requires
        n >= 1,
    ensures
        e == log2_up(n as int),
        e <= 128,
{
    let mut m: u128 = n;
    let mut e: usize = 0;
    proof {
        lemma2_to64();
    }
    while m > 1
        invariant
            1 <= m <= n,
            log2_up(n as int) == e + log2_up(m as int),
            m as int <= n as int / (pow2(e as nat) as int) + 1,
            e <= 128,
        decreases m,
    {
        proof {
            lemma_pow2_pos(e as nat);
            let p = pow2(e as nat) as int;
            let ni = n as int;
            let mi = m as int;
            // The guard gives n / 2^e >= 1, so 2^e <= n < 2^128 and e < 128.
            if p > ni {
                vstd::arithmetic::div_mod::lemma_basic_div(ni, p);
            }
            assert(p <= ni);
            lemma_pow2_128();
            if e >= 128 {
                if e as nat > 128 {
                    lemma_pow2_strictly_increases(128, e as nat);
                }
                assert(false);
            }
            // The ceiling-halved value keeps the division invariant.
            assert((mi + 1) / 2 <= (ni / p + 2) / 2) by {
                vstd::arithmetic::div_mod::lemma_div_is_ordered(mi + 1, ni / p + 2, 2);
            }
            assert((ni / p + 2) / 2 == ni / p / 2 + 1);
            assert(ni / p / 2 == ni / (p * 2)) by {
                vstd::arithmetic::div_mod::lemma_div_denominator(ni, p, 2);
            }
            assert(pow2((e + 1) as nat) == p * 2) by {
                lemma_pow2_adds(e as nat, 1);
                lemma2_to64();
            }
            // One definitional unfolding of log2_up at m.
            assert(log2_up(mi) == 1 + log2_up((mi + 1) / 2));
            assert(mi / 2 + mi % 2 == (mi + 1) / 2);
        }
        m = m / 2 + m % 2;
        e = e + 1;
    }
    e
}

/// `2^e` as a 128-bit value, computed without bit tricks.
fn pow2_u128(e: usize) -> (r: u128)
    requires
        e <= 127,
    ensures
        r == pow2(e as nat),
{
    proof {
        lemma2_to64();
    }
    let mut r: u128 = 1;
    let mut i: usize = 0;
    while i < e
        invariant
            i <= e,
            e <= 127,
            r == pow2(i as nat),
        decreases e - i,
    {
        proof {
            lemma_pow2_adds(i as nat, 1);
            lemma2_to64();
            if ((i + 1) as nat) < 128 {
                lemma_pow2_strictly_increases((i + 1) as nat, 128);
            }
            lemma_pow2_128();
        }
        r = r * 2;
        i = i + 1;
    }
    r
}

/// Row dimension exponent derived for `num_items`: the smallest `d` with
/// `2^(d + POLY_LEN_LOG2) >= num_items`.
pub open spec fn spec_dim_1(num_items: int) -> nat {
    if log2_up(num_items) <= POLY_LEN_LOG2 as nat {
        0
    } else {
        (log2_up(num_items) - POLY_LEN_LOG2 as nat) as nat
    }
}

/// Instance count derived for the single-pass variant: the smallest count
/// whose row capacity of `POLY_LEN` bytes covers one item.
pub open spec fn spec_single_pass_instances(item_size_bits: int) -> int {
    (item_size_bits + 16383) / 16384
}

/// Total bytes the database must hold: `num_items` items of
/// `item_size_bits` bits, one byte per entry.
pub open spec fn spec_needed_bytes(num_items: int, item_size_bits: int) -> int {
    (num_items * item_size_bits + 7) / 8
}

/// Combined extra dimension exponent for the two-pass variant.
pub open spec fn spec_two_pass_extra(num_items: int, item_size_bits: int) -> nat {
    let lg = log2_up(spec_needed_bytes(num_items, item_size_bits));
    if lg <= 2 * POLY_LEN_LOG2 as nat {
        0
    } else {
        (lg - 2 * POLY_LEN_LOG2 as nat) as nat
    }
}

/// The parameter set built from derived dimensions; the modulus structure is
/// a fixed property of the scheme.
pub open spec fn spec_make_params(d1: nat, d2: nat, inst: nat, variant: Variant) -> ParameterSet {
    ParameterSet {
        modulus_0: CRT_MODULUS_0,
        modulus_1: CRT_MODULUS_1,
        modulus: COMBINED_MODULUS,
        crt_coeff_0: CRT_COEFF_0,
        crt_coeff_1: CRT_COEFF_1,
        barrett_ratio_0: (two_to_64() / CRT_MODULUS_0 as int) as u64,
        barrett_ratio_1: (two_to_64() / CRT_MODULUS_1 as int) as u64,
        barrett_ratio_full: (two_to_64() / COMBINED_MODULUS as int) as u64,
        poly_len: POLY_LEN,
        poly_len_log2: POLY_LEN_LOG2,
        db_dim_1: d1 as usize,
        db_dim_2: d2 as usize,
        instances: inst as usize,
        variant,
    }
}

/// Derived dimensions `(db_dim_1, db_dim_2, instances)` for a scenario.
pub open spec fn spec_derived_dims(num_items: int, item_size_bits: int, variant: Variant) -> (
    nat,
    nat,
    nat,
) {
    match variant {
        Variant::SinglePass => (
            spec_dim_1(num_items),
            0nat,
            spec_single_pass_instances(item_size_bits) as nat,
        ),
        Variant::TwoPass => {
            let e = spec_two_pass_extra(num_items, item_size_bits);
            ((((e + 1) as int / 2)) as nat, ((e as int / 2)) as nat, 1nat)
        },
    }
}

/// Row count the derived parameter set implies, before any word-size check.
pub open spec fn spec_derived_rows(num_items: int, item_size_bits: int, variant: Variant) -> nat {
    let (d1, _, _) = spec_derived_dims(num_items, item_size_bits, variant);
    pow2(d1 + POLY_LEN_LOG2 as nat)
}

/// Column count the derived parameter set implies, before any word-size
/// check.
pub open spec fn spec_derived_cols(num_items: int, item_size_bits: int, variant: Variant) -> nat {
    let (_, d2, inst) = spec_derived_dims(num_items, item_size_bits, variant);
    match variant {
        Variant::SinglePass => inst * POLY_LEN as nat,
        Variant::TwoPass => pow2(d2 + POLY_LEN_LOG2 as nat),
    }
}

/// Whether the derived shape is addressable: each dimension and their
/// product fit in a machine word.
pub open spec fn spec_shape_fits(num_items: int, item_size_bits: int, variant: Variant) -> bool {
    let rows = spec_derived_rows(num_items, item_size_bits, variant);
    let cols = spec_derived_cols(num_items, item_size_bits, variant);
    rows <= usize::MAX && cols <= usize::MAX && rows * cols <= usize::MAX
}

/// The parameter set derived for a scenario.
pub open spec fn spec_derive(num_items: int, item_size_bits: int, variant: Variant) -> ParameterSet {
    let (d1, d2, inst) = spec_derived_dims(num_items, item_size_bits, variant);
    spec_make_params(d1, d2, inst, variant)
}

/// Derives the lattice parameter set and database shape for a scenario of
/// `num_items` items of `item_size_bits` bits each.
///
/// Rejects zero-valued sizes eagerly, and likewise a scenario whose derived
/// buffer shape would not be addressable in a machine word. Identical inputs
/// always yield an identical parameter set: the result is pinned, field by
/// field, to `spec_derive`.
pub fn derive(num_items: usize, item_size_bits: usize, variant: Variant) -> (r: Result<
    ParameterSet,
    PirError,
>)
    ensures
        r is Ok <==> num_items > 0 && item_size_bits > 0 && spec_shape_fits(
            num_items as int,
            item_size_bits as int,
            variant,
        ),
        r matches Ok(p) ==> p == spec_derive(num_items as int, item_size_bits as int, variant)
            && p.wf(),
        r matches Err(e) ==> e == PirError::InvalidArgument,
{
    if num_items == 0 || item_size_bits == 0 {
        return Err(PirError::InvalidArgument);
    }
    let ghost ni = num_items as int;
    let ghost bi = item_size_bits as int;
    let d1: usize;
    let d2: usize;
    let inst: u128;
    let rows_w: u128;
    let cols_w: u128;
    match variant {
        Variant::SinglePass => {
            proof {
                lemma2_to64();
                lemma_log2_up_le(ni, 64);
            }
            let lg = log2_up_exec(num_items as u128);
            d1 = if lg <= POLY_LEN_LOG2 {
                0
            } else {
                lg - POLY_LEN_LOG2
            };
            d2 = 0;
            inst = ((item_size_bits as u128) + 16383) / 16384;
            proof {
                assert(inst <= 0x4_0000_0000_0000u128) by {
                    vstd::arithmetic::div_mod::lemma_div_is_ordered(
                        bi + 16383,
                        0xFFFF_FFFF_FFFF_FFFFint + 16383,
                        16384,
                    );
                }
                assert(inst as int * POLY_LEN as int <= 0x4_0000_0000_0000int * 2048)
                    by (nonlinear_arith)
                    requires inst <= 0x4_0000_0000_0000u128;
            }
            rows_w = pow2_u128(d1 + POLY_LEN_LOG2);
            cols_w = inst * (POLY_LEN as u128);
        },
        Variant::TwoPass => {
            proof {
                assert((num_items as u128) as int * (item_size_bits as u128) as int
                    <= 0xFFFF_FFFF_FFFF_FFFFint * 0xFFFF_FFFF_FFFF_FFFF) by (nonlinear_arith)
                    requires
                        (num_items as u128) <= 0xFFFF_FFFF_FFFF_FFFFu128,
                        (item_size_bits as u128) <= 0xFFFF_FFFF_FFFF_FFFFu128;
            }
            let prod = (num_items as u128) * (item_size_bits as u128);
            let needed = (prod + 7) / 8;
            proof {
                assert(needed >= 1) by {
                    assert((num_items as u128) as int * (item_size_bits as u128) as int >= 1)
                        by (nonlinear_arith)
                        requires (num_items as u128) >= 1, (item_size_bits as u128) >= 1;
                    vstd::arithmetic::div_mod::lemma_div_is_ordered(8, prod as int + 7, 8);
                }
                lemma_pow2_128();
                lemma_log2_up_le(needed as int, 128);
            }
            let lg = log2_up_exec(needed);
            let e = if lg <= 2 * POLY_LEN_LOG2 {
                0
            } else {
                lg - 2 * POLY_LEN_LOG2
            };
            d1 = (e + 1) / 2;
            d2 = e / 2;
            inst = 1;
            rows_w = pow2_u128(d1 + POLY_LEN_LOG2);
            cols_w = pow2_u128(d2 + POLY_LEN_LOG2);
        },
    }
    proof {
        assert(rows_w == spec_derived_rows(ni, bi, variant));
        assert(cols_w == spec_derived_cols(ni, bi, variant));
    }
    let umax = usize::MAX as u128;
    if rows_w > umax || cols_w > umax {
        return Err(PirError::InvalidArgument);
    }
    proof {
        assert(rows_w as int * cols_w as int <= umax as int * umax as int) by (nonlinear_arith)
            requires rows_w <= umax, cols_w <= umax;
        assert(0xFFFF_FFFF_FFFF_FFFFint * 0xFFFF_FFFF_FFFF_FFFF
            < 0x1_0000_0000_0000_0000_0000_0000_0000_0000);
        assert(umax as int * umax as int <= 0xFFFF_FFFF_FFFF_FFFFint * 0xFFFF_FFFF_FFFF_FFFF)
            by (nonlinear_arith)
            requires umax <= 0xFFFF_FFFF_FFFF_FFFFu128;
    }
    let total = rows_w * cols_w;
    if total > umax {
        return Err(PirError::InvalidArgument);
    }
    let ratio_0 = crate::arith::barrett_ratio(CRT_MODULUS_0);
    let ratio_1 = crate::arith::barrett_ratio(CRT_MODULUS_1);
    assert(CRT_MODULUS_0 as int * CRT_MODULUS_1 as int == COMBINED_MODULUS);
    let modulus = CRT_MODULUS_0 * CRT_MODULUS_1;
    let ratio_full = crate::arith::barrett_ratio(modulus);
    let inv_0 = crate::arith::mod_inverse(CRT_MODULUS_1, CRT_MODULUS_0);
    let coeff_0: u64 = match inv_0 {
        Some(v) => {
            proof {
                assert((163640210int * CRT_MODULUS_1 as int) % (CRT_MODULUS_0 as int) == 1);
                crate::arith::lemma_mod_inverse_unique(
                    CRT_MODULUS_1 as int,
                    CRT_MODULUS_0 as int,
                    v as int,
                    163640210,
                );
            }
            CRT_MODULUS_1 * v
        },
        None => {
            proof {
                assert((163640210int * CRT_MODULUS_1 as int) % (CRT_MODULUS_0 as int) == 1);
                assert(false);
            }
            0
        },
    };
    let inv_1 = crate::arith::mod_inverse(CRT_MODULUS_0, CRT_MODULUS_1);
    let coeff_1: u64 = match inv_1 {
        Some(v) => {
            proof {
                assert((97389680int * CRT_MODULUS_0 as int) % (CRT_MODULUS_1 as int) == 1);
                crate::arith::lemma_mod_inverse_unique(
                    CRT_MODULUS_0 as int,
                    CRT_MODULUS_1 as int,
                    v as int,
                    97389680,
                );
            }
            CRT_MODULUS_0 * v
        },
        None => {
            proof {
                assert((97389680int * CRT_MODULUS_0 as int) % (CRT_MODULUS_1 as int) == 1);
                assert(false);
            }
            0
        },
    };
    proof {
        assert(inst * 1 <= inst as int * POLY_LEN as int) by (nonlinear_arith)
            requires inst >= 0;
    }
    let p = ParameterSet {
        modulus_0: CRT_MODULUS_0,
        modulus_1: CRT_MODULUS_1,
        modulus,
        crt_coeff_0: coeff_0,
        crt_coeff_1: coeff_1,
        barrett_ratio_0: ratio_0,
        barrett_ratio_1: ratio_1,
        barrett_ratio_full: ratio_full,
        poly_len: POLY_LEN,
        poly_len_log2: POLY_LEN_LOG2,
        db_dim_1: d1,
        db_dim_2: d2,
        instances: inst as usize,
        variant,
    };
    proof {
        lemma2_to64();
        assert(p == spec_derive(ni, bi, variant));
        assert(p.spec_db_rows() == rows_w);
        assert(p.spec_db_cols() == cols_w);
        assert(p.spec_required_db_bytes() == total);
        assert(p.wf());
    }
    Ok(p)
}

/// Parameter derivation is deterministic: two parameter sets derived from
/// identical scenario inputs are identical, bit for bit.
pub proof fn lemma_derive_deterministic(
    p1: ParameterSet,
    p2: ParameterSet,
    num_items: int,
    item_size_bits: int,
    variant: Variant,
)
    requires
        p1 == spec_derive(num_items, item_size_bits, variant),
        p2 == spec_derive(num_items, item_size_bits, variant),
    ensures
        p1 == p2,
{
}

/// Derivation entry point that takes the item size in bytes and the variant
/// as a flag.
pub fn params_for(num_items: usize, item_size_bytes: usize, is_simplepir: bool) -> (r: Result<
    ParameterSet,
    PirError,
>)
    ensures
        ({
            let variant = if is_simplepir {
                Variant::SinglePass
            } else {
                Variant::TwoPass
            };
            &&& (r is Ok <==> num_items > 0 && item_size_bytes > 0 && item_size_bytes * 8
                <= usize::MAX && spec_shape_fits(
                num_items as int,
                item_size_bytes as int * 8,
                variant,
            ))
            &&& (r matches Ok(p) ==> p == spec_derive(
                num_items as int,
                item_size_bytes as int * 8,
                variant,
            ) && p.wf())
            &&& (r matches Err(e) ==> e == PirError::InvalidArgument)
        }),
{
    let variant = if is_simplepir {
        Variant::SinglePass
    } else {
        Variant::TwoPass
    };
    if item_size_bytes > usize::MAX / 8 {
        return Err(PirError::InvalidArgument);
    }
    derive(num_items, item_size_bytes * 8, variant)
}

/// The derived shape covers its scenario: in the single-pass variant the
/// rows cover the item count and one row's byte capacity covers one item;
/// in the two-pass variant the whole buffer covers the total byte need.
pub proof fn lemma_derive_capacity(num_items: int, item_size_bits: int, variant: Variant)
    requires
        num_items >= 1,
        item_size_bits >= 1,
    ensures
        variant is SinglePass ==> spec_derived_rows(num_items, item_size_bits, variant)
            >= num_items,
        variant is SinglePass ==> spec_derived_cols(num_items, item_size_bits, variant) * 8
            >= item_size_bits,
        variant is TwoPass ==> spec_derived_rows(num_items, item_size_bits, variant)
            * spec_derived_cols(num_items, item_size_bits, variant) >= spec_needed_bytes(
            num_items,
            item_size_bits,
        ),
{
    match variant {
        Variant::SinglePass => {
            let lg = log2_up(num_items);
            let d1 = spec_dim_1(num_items);
            lemma_log2_up_covers(num_items);
            if lg <= POLY_LEN_LOG2 as nat {
                if lg < POLY_LEN_LOG2 as nat {
                    lemma_pow2_strictly_increases(lg, POLY_LEN_LOG2 as nat);
                }
            }
            assert(pow2(d1 + POLY_LEN_LOG2 as nat) >= num_items);
            // One instance holds POLY_LEN bytes, 16384 bits.
            let inst = spec_single_pass_instances(item_size_bits);
            vstd::arithmetic::div_mod::lemma_fundamental_div_mod(item_size_bits + 16383, 16384);
            vstd::arithmetic::div_mod::lemma_mod_bound(item_size_bits + 16383, 16384);
            assert(inst * 16384 >= item_size_bits);
            assert((inst * POLY_LEN as int) * 8 == inst * 16384) by (nonlinear_arith);
        },
        Variant::TwoPass => {
            let needed = spec_needed_bytes(num_items, item_size_bits);
            assert(needed >= 1) by {
                vstd::arithmetic::mul::lemma_mul_inequality(1, num_items, item_size_bits);
                vstd::arithmetic::mul::lemma_mul_is_commutative(num_items, item_size_bits);
                vstd::arithmetic::div_mod::lemma_div_is_ordered(8, num_items * item_size_bits + 7, 8);
            }
            let lg = log2_up(needed);
            let e = spec_two_pass_extra(num_items, item_size_bits);
            let d1 = ((e + 1) as int / 2) as nat;
            let d2 = ((e as int / 2)) as nat;
            lemma_log2_up_covers(needed);
            assert(d1 + d2 == e);
            lemma_pow2_adds(d1 + POLY_LEN_LOG2 as nat, d2 + POLY_LEN_LOG2 as nat);
            if lg <= 2 * POLY_LEN_LOG2 as nat {
                if lg < 2 * POLY_LEN_LOG2 as nat {
                    lemma_pow2_strictly_increases(lg, 2 * POLY_LEN_LOG2 as nat);
                }
                assert(pow2(e + 2 * POLY_LEN_LOG2 as nat) >= needed);
            } else {
                assert(e + 2 * POLY_LEN_LOG2 as nat == lg);
            }
            assert(pow2(d1 + POLY_LEN_LOG2 as nat) * pow2(d2 + POLY_LEN_LOG2 as nat) == pow2(
                e + 2 * POLY_LEN_LOG2 as nat,
            ));
        },
    }
}

} // verus!
