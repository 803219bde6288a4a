//! Database ingestion: validates a raw byte buffer against the shape the
//! parameter set derives, truncates oversized input to the needed prefix,
//! zero-pads undersized input when padding is requested, and transposes
//! row-major input into the column-major layout the kernel requires.

use vstd::prelude::*;
use vstd::arithmetic::div_mod::{lemma_mod_bound, lemma_multiply_divide_lt};
use vstd::arithmetic::mul::{lemma_mul_inequality, lemma_mul_is_distributive_add_other_way};
use crate::params::{db_cols, db_rows, lemma_shape_bounds, ParameterSet, PirError};

verus! {

/// A server-held database: `rows * cols` single-byte entries in transposed
/// (column-major) layout, immutable once created.
#[derive(Debug)]
pub struct Database {
    /// The entry for column `j` and row `r` sits at `data[j * rows + r]`.
    pub data: Vec<u8>,
    /// Number of rows.
    pub rows: usize,
    /// Number of columns.
    pub cols: usize,
}

impl Database {
    /// The buffer holds exactly one byte per entry.
    pub open spec fn wf(self) -> bool {
        self.data@.len() == self.rows * self.cols
    }
}

/// The needed prefix of a raw buffer: oversized input is truncated, short
/// input is extended with zero bytes.
pub open spec fn spec_padded(raw: Seq<u8>, needed: int) -> Seq<u8> {
    if raw.len() >= needed {
        raw.take(needed)
    } else {
        raw + Seq::new((needed - raw.len()) as nat, |i: int| 0u8)
    }
}

/// Column-major rearrangement of a row-major buffer: the output entry at
/// `j * rows + r` is the input entry at `r * cols + j`.
pub open spec fn spec_transpose(s: Seq<u8>, rows: int, cols: int) -> Seq<u8> {
    Seq::new((rows * cols) as nat, |i: int| s[(i % rows) * cols + i / rows])
}

/// The bytes a database holds after ingesting `raw`: only the first
/// `required_db_bytes` bytes of the input ever matter.
pub open spec fn spec_ingested(
    p: ParameterSet,
    raw: Seq<u8>,
    already_transposed: bool,
) -> Seq<u8> {
    let needed = p.spec_required_db_bytes() as int;
    let padded = spec_padded(raw, needed);
    if already_transposed {
        padded
    } else {
        spec_transpose(padded, p.spec_db_rows() as int, p.spec_db_cols() as int)
    }
}

/// Truncation policy: ingestion reads only the needed prefix, so two
/// buffers that agree on it (however much longer either is) ingest to the
/// same database.
pub proof fn lemma_ingest_uses_prefix(
    p: ParameterSet,
    raw1: Seq<u8>,
    raw2: Seq<u8>,
    already_transposed: bool,
)
    requires
        p.wf(),
        raw1.len() >= p.spec_required_db_bytes(),
        raw2.len() >= p.spec_required_db_bytes(),
        raw1.take(p.spec_required_db_bytes() as int) == raw2.take(
            p.spec_required_db_bytes() as int,
        ),
    ensures
        spec_ingested(p, raw1, already_transposed) == spec_ingested(p, raw2, already_transposed),
{
    let needed = p.spec_required_db_bytes() as int;
    assert(spec_padded(raw1, needed) == spec_padded(raw2, needed));
}

/// Ingests a raw byte buffer into the layout the kernel expects.
///
/// `is_single_pass_variant` restates the caller's view of the scheme
/// variant and is rejected eagerly when it contradicts the parameter set:
/// a shape mismatch the caller could have checked. Without `pad_rows`, a
/// buffer smaller than the derived requirement is rejected with
/// `InsufficientData`, carrying the expected shape and the actual byte
/// count; with `pad_rows`, short input is zero-padded up to the exact row
/// boundary of the parameter set. A buffer larger than the requirement
/// succeeds and only its prefix is retained: an intentional, documented
/// policy. `already_transposed` marks input that is already column-major;
/// otherwise ingestion transposes.
pub fn ingest(
    params: &ParameterSet,
    raw: &Vec<u8>,
    is_single_pass_variant: bool,
    already_transposed: bool,
    pad_rows: bool,
) -> (r: Result<Database, PirError>)
    requires
        params.wf(),
    ensures
        r is Ok <==> is_single_pass_variant == (params.variant is SinglePass) && (pad_rows
            || raw@.len() >= params.spec_required_db_bytes()),
        r matches Ok(db) ==> db.wf() && db.rows == params.spec_db_rows() && db.cols
            == params.spec_db_cols() && db.data@ == spec_ingested(
            *params,
            raw@,
            already_transposed,
        ),
        r matches Err(e) ==> if is_single_pass_variant != (params.variant is SinglePass) {
            e == PirError::InvalidArgument
        } else {
            e == (PirError::InsufficientData {
                expected_rows: params.spec_db_rows() as usize,
                expected_cols: params.spec_db_cols() as usize,
                actual_bytes: raw@.len() as usize,
            })
        },
{
    proof {
        lemma_shape_bounds(*params);
        vstd::std_specs::vec::axiom_spec_len(raw);
    }
    let flag_matches = match params.variant {
        crate::params::Variant::SinglePass => is_single_pass_variant,
        crate::params::Variant::TwoPass => !is_single_pass_variant,
    };
    if !flag_matches {
        return Err(PirError::InvalidArgument);
    }
    let rows = db_rows(params);
    let cols = db_cols(params);
    let needed = rows * cols;
    if !pad_rows && raw.len() < needed {
        return Err(
            PirError::InsufficientData {
                expected_rows: rows,
                expected_cols: cols,
                actual_bytes: raw.len(),
            },
        );
    }
    let ghost padded = spec_padded(raw@, needed as int);
    let raw_len = raw.len();
    let mut buf: Vec<u8> = Vec::new();
    let mut i: usize = 0;
    proof {
        assert(buf@ =~= padded.take(0));
    }
    while i < needed
        invariant
            i <= needed,
            raw_len == raw@.len(),
            padded == spec_padded(raw@, needed as int),
            padded.len() == needed,
            buf@ == padded.take(i as int),
        decreases needed - i,
    {
        let b: u8 = if i < raw_len {
            raw[i]
        } else {
            0u8
        };
        proof {
            assert(padded[i as int] == b);
            assert(padded.take(i + 1 as int) =~= padded.take(i as int).push(padded[i as int]));
        }
        buf.push(b);
        i = i + 1;
    }
    proof {
        assert(buf@ =~= padded);
    }
    if already_transposed {
        return Ok(Database { data: buf, rows, cols });
    }
    let ghost transposed = spec_transpose(padded, rows as int, cols as int);
    let mut out: Vec<u8> = Vec::new();
    let mut t: usize = 0;
    proof {
        assert(out@ =~= transposed.take(0));
        assert(transposed.len() == needed);
    }
    while t < needed
        invariant
            t <= needed,
            rows >= 1,
            cols >= 1,
            needed == rows * cols,
            buf@ == padded,
            padded.len() == needed,
            transposed == spec_transpose(padded, rows as int, cols as int),
            transposed.len() == needed,
            out@ == transposed.take(t as int),
        decreases needed - t,
    {
        let r_idx = t % rows;
        let c_idx = t / rows;
        proof {
            lemma_mod_bound(t as int, rows as int);
            lemma_multiply_divide_lt(t as int, rows as int, cols as int);
            lemma_mul_inequality(r_idx as int + 1, rows as int, cols as int);
            lemma_mul_is_distributive_add_other_way(cols as int, r_idx as int, 1);
            assert(r_idx * cols + c_idx < rows * cols);
        }
        let src = r_idx * cols + c_idx;
        let b = buf[src];
        proof {
            assert(transposed[t as int] == padded[(t as int % rows as int) * cols as int + t as int
                / rows as int]);
            assert(transposed[t as int] == b);
            assert(transposed.take(t + 1 as int) =~= transposed.take(t as int).push(
                transposed[t as int],
            ));
        }
        out.push(b);
        t = t + 1;
    }
    proof {
        assert(out@ =~= transposed);
    }
    Ok(Database { data: out, rows, cols })
}

} // verus!
