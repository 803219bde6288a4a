//! Server answer protocol: holds the ingested database, validates a packed
//! query, infers the batch count, runs the kernel against zero-seeded
//! output cells, and marshals the response back to bytes.

use vstd::prelude::*;
use vstd::arithmetic::div_mod::{
    lemma_fundamental_div_mod, lemma_mod_bound, lemma_multiply_divide_lt,
};
use crate::codec::{
    bytes_to_u64_le, spec_bytes_to_words, spec_words_to_bytes, u64_to_bytes_le,
};
use crate::db::{ingest, spec_ingested, Database};
use crate::kernel::{cell_index, fast_batched_dot_product_avx512, kernel_cell};
use crate::params::{lemma_shape_bounds, ParameterSet, PirError};

verus! {

/// A server instance: the derived parameter set and the database it
/// ingested, owned for the server's lifetime and never mutated.
#[derive(Debug)]
pub struct Server {
    /// The scenario's derived configuration.
    pub params: ParameterSet,
    /// The ingested database, in transposed layout.
    pub db: Database,
}

impl Server {
    /// The database shape agrees with the parameter set.
    pub open spec fn wf(self) -> bool {
        &&& self.params.wf()
        &&& self.db.wf()
        &&& self.db.rows == self.params.spec_db_rows()
        &&& self.db.cols == self.params.spec_db_cols()
    }
}

/// The response words for `k` batches: one reduced residue per
/// `(batch, column)` pair, batch-major, starting from zero-seeded cells.
pub open spec fn spec_response(
    p: ParameterSet,
    query: Seq<u64>,
    db: Seq<u8>,
    rows: int,
    cols: int,
    k: int,
) -> Seq<u64> {
    Seq::new((k * cols) as nat, |i: int| kernel_cell(p, query, db, rows, rows, i / cols, i % cols, 0u64))
}

/// Builds a server from a parameter set and raw database bytes, ingesting
/// (validating, truncating, transposing, padding) as requested.
pub fn server_new(
    params: &ParameterSet,
    db_bytes: &Vec<u8>,
    is_single_pass_variant: bool,
    inp_transposed: bool,
    pad_rows: bool,
) -> (r: Result<Server, PirError>)
    requires
        params.wf(),
    ensures
        r is Ok <==> is_single_pass_variant == (params.variant is SinglePass) && (pad_rows
            || db_bytes@.len() >= params.spec_required_db_bytes()),
        r matches Ok(srv) ==> srv.wf() && srv.params == *params && srv.db.data@ == spec_ingested(
            *params,
            db_bytes@,
            inp_transposed,
        ),
        r matches Err(e) ==> if is_single_pass_variant != (params.variant is SinglePass) {
            e == PirError::InvalidArgument
        } else {
            e == (PirError::InsufficientData {
                expected_rows: params.spec_db_rows() as usize,
                expected_cols: params.spec_db_cols() as usize,
                actual_bytes: db_bytes@.len() as usize,
            })
        },
{
    match ingest(params, db_bytes, is_single_pass_variant, inp_transposed, pad_rows) {
        Ok(db) => Ok(Server { params: *params, db }),
        Err(e) => Err(e),
    }
}

/// Answers one query given as words: checks that the query length is a
/// positive multiple of the per-batch row count, infers the batch count
/// `k`, and runs the kernel against zero-initialized output cells.
pub fn answer_query(srv: &Server, query: &Vec<u64>) -> (r: Result<Vec<u64>, PirError>)
    requires
        srv.wf(),
    ensures
        r is Ok <==> query@.len() > 0 && query@.len() as int % (srv.db.rows as int) == 0 && (query@.len() as int
            / (srv.db.rows as int)) * srv.db.cols <= usize::MAX,
        r matches Ok(resp) ==> resp@ == spec_response(
            srv.params,
            query@,
            srv.db.data@,
            srv.db.rows as int,
            srv.db.cols as int,
            query@.len() as int / (srv.db.rows as int),
        ),
        r matches Err(e) ==> e == PirError::InvalidArgument,
{
    proof {
        lemma_shape_bounds(srv.params);
        vstd::std_specs::vec::axiom_spec_len(query);
    }
    let rows = srv.db.rows;
    let cols = srv.db.cols;
    if query.len() == 0 || query.len() % rows != 0 {
        return Err(PirError::InvalidArgument);
    }
    let k = query.len() / rows;
    let cells = match k.checked_mul(cols) {
        Some(v) => v,
        None => {
            proof {
                vstd::arithmetic::mul::lemma_mul_nonnegative(k as int, cols as int);
            }
            return Err(PirError::InvalidArgument);
        },
    };
    let mut c: Vec<u64> = Vec::new();
    let mut i: usize = 0;
    while i < cells
        invariant
            i <= cells,
            c@.len() == i,
            forall|t: int| 0 <= t < i ==> c@[t] == 0u64,
        decreases cells - i,
    {
        c.push(0u64);
        i = i + 1;
    }
    proof {
        lemma_fundamental_div_mod(query@.len() as int, rows as int);
        vstd::arithmetic::mul::lemma_mul_is_commutative(rows as int, k as int);
        vstd::arithmetic::mul::lemma_mul_is_commutative(rows as int, cols as int);
    }
    fast_batched_dot_product_avx512(&srv.params, &mut c, query, rows, &srv.db.data, rows, cols, k);
    proof {
        let ghost resp = spec_response(
            srv.params,
            query@,
            srv.db.data@,
            rows as int,
            cols as int,
            k as int,
        );
        assert forall|i2: int| 0 <= i2 < k as int * cols as int implies c@[i2] == resp[i2] by {
            let bi = i2 / (cols as int);
            let jj = i2 % (cols as int);
            lemma_mod_bound(i2, cols as int);
            vstd::arithmetic::mul::lemma_mul_is_commutative(k as int, cols as int);
            lemma_multiply_divide_lt(i2, cols as int, k as int);
            lemma_fundamental_div_mod(i2, cols as int);
            vstd::arithmetic::mul::lemma_mul_is_commutative(bi, cols as int);
            assert(cell_index(cols as int, bi, jj) == i2);
        }
        assert(c@ =~= resp);
    }
    Ok(c)
}

/// Answers one query given as little-endian bytes: decodes the words,
/// answers, and re-encodes the response words as bytes.
pub fn answer(srv: &Server, packed_query_bytes: &Vec<u8>) -> (r: Result<Vec<u8>, PirError>)
    requires
        srv.wf(),
    ensures
        ({
            let ws = spec_bytes_to_words(packed_query_bytes@);
            &&& (r is Ok <==> packed_query_bytes@.len() % 8 == 0 && ws.len() > 0 && ws.len() as int % (
            srv.db.rows as int) == 0 && (ws.len() as int / (srv.db.rows as int)) * srv.db.cols
                <= usize::MAX)
            &&& (r matches Ok(out) ==> out@ == spec_words_to_bytes(
                spec_response(
                    srv.params,
                    ws,
                    srv.db.data@,
                    srv.db.rows as int,
                    srv.db.cols as int,
                    ws.len() as int / (srv.db.rows as int),
                ),
            ))
            &&& (r matches Err(e) ==> e == PirError::InvalidArgument)
        }),
{
    let words = match bytes_to_u64_le(packed_query_bytes) {
        Ok(ws) => ws,
        Err(e) => {
            return Err(e);
        },
    };
    let resp = match answer_query(srv, &words) {
        Ok(resp) => resp,
        Err(e) => {
            return Err(e);
        },
    };
    Ok(u64_to_bytes_le(&resp))
}

} // verus!
