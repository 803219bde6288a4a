use ypir_core::codec::{bytes_to_u64_le, u64_to_bytes_le};
use ypir_core::db::ingest;
use ypir_core::kernel::{batched_dot_product, fast_batched_dot_product_avx512};
use ypir_core::params::{
    params_db_dim_1, params_for, required_db_bytes, ParameterSet, PirError, Variant,
};
use ypir_core::server::{answer, answer_query, server_new};

/// The value one kernel run leaves in a cell, computed independently with
/// plain 128-bit arithmetic: wrap-accumulate both limbs over the column,
/// reduce each by its prime, compose via the CRT coefficients, and add into
/// the previous cell value modulo the combined modulus.
fn expected_cell(p: &ParameterSet, query: &[u64], col: &[u8], prev: u64) -> u64 {
    let mut sum_lo: u64 = 0;
    let mut sum_hi: u64 = 0;
    for (w, b) in query.iter().zip(col.iter()) {
        let lo = w & 0xFFFF_FFFF;
        let hi = w >> 32;
        sum_lo = sum_lo.wrapping_add(lo.wrapping_mul(*b as u64));
        sum_hi = sum_hi.wrapping_add(hi.wrapping_mul(*b as u64));
    }
    let lo = sum_lo % p.modulus_0;
    let hi = sum_hi % p.modulus_1;
    let composed =
        ((lo as u128 * p.crt_coeff_0 as u128 + hi as u128 * p.crt_coeff_1 as u128)
            % p.modulus as u128) as u64;
    ((prev.wrapping_add(composed) as u128) % p.modulus as u128) as u64
}

#[test]
fn test_fast_batched_dot_product_portable_runs() {
    let params = ypir_core::params::derive(1024, 8, Variant::SinglePass).unwrap();

    const K: usize = 1;
    let a_elems = 1024;
    let b_rows = a_elems;
    let b_cols = 64;

    let a = vec![1u64; K * a_elems];
    let mut c = vec![0u64; K * b_cols];
    let b = vec![1u8; b_rows * b_cols];

    fast_batched_dot_product_avx512(&params, &mut c, &a, a_elems, &b, b_rows, b_cols, K);
}

#[test]
fn derivation_is_deterministic() {
    let p1 = ypir_core::params::derive(4096, 2048, Variant::TwoPass).unwrap();
    let p2 = ypir_core::params::derive(4096, 2048, Variant::TwoPass).unwrap();
    assert_eq!(p1, p2);
    let p3 = ypir_core::params::derive(4096, 2048, Variant::SinglePass).unwrap();
    let p4 = ypir_core::params::derive(4096, 2048, Variant::SinglePass).unwrap();
    assert_eq!(p3, p4);
}

#[test]
fn derivation_rejects_zero_sizes() {
    assert_eq!(ypir_core::params::derive(0, 8, Variant::SinglePass), Err(PirError::InvalidArgument));
    assert_eq!(ypir_core::params::derive(1024, 0, Variant::SinglePass), Err(PirError::InvalidArgument));
    assert_eq!(ypir_core::params::derive(0, 0, Variant::TwoPass), Err(PirError::InvalidArgument));
    assert_eq!(params_for(0, 1, true), Err(PirError::InvalidArgument));
    assert_eq!(params_for(1, 0, false), Err(PirError::InvalidArgument));
}

#[test]
fn derivation_modulus_structure() {
    let p = ypir_core::params::derive(1024, 8, Variant::SinglePass).unwrap();
    assert_eq!(p.modulus_0, 268369921);
    assert_eq!(p.modulus_1, 249561089);
    assert_eq!(p.modulus, p.modulus_0 * p.modulus_1);
    // The CRT coefficients recompose residues: 1 and 0 modulo the first
    // prime, 0 and 1 modulo the second. This checks what the modular
    // inversion actually returned.
    assert_eq!(p.crt_coeff_0 % p.modulus_0, 1);
    assert_eq!(p.crt_coeff_0 % p.modulus_1, 0);
    assert_eq!(p.crt_coeff_1 % p.modulus_0, 0);
    assert_eq!(p.crt_coeff_1 % p.modulus_1, 1);
    assert_eq!(p.crt_coeff_0, 40838229011788690);
    assert_eq!(p.crt_coeff_1, 26136460727815280);
    // The Barrett ratios are floor(2^64 / m) for their moduli.
    assert_eq!(p.barrett_ratio_0, ((1u128 << 64) / p.modulus_0 as u128) as u64);
    assert_eq!(p.barrett_ratio_1, ((1u128 << 64) / p.modulus_1 as u128) as u64);
    assert_eq!(p.barrett_ratio_full, ((1u128 << 64) / p.modulus as u128) as u64);
}

#[test]
fn derivation_shapes() {
    // 1024 items fit the minimum row count; an 8-bit item fits one
    // instance.
    let p = ypir_core::params::derive(1024, 8, Variant::SinglePass).unwrap();
    assert_eq!(params_db_dim_1(&p), 0);
    assert_eq!(p.instances, 1);
    assert_eq!(required_db_bytes(&p), 2048 * 2048);
    // 2^18 items need 2^7 more rows than the 2^11 baseline.
    let p2 = ypir_core::params::derive(1 << 18, 8, Variant::SinglePass).unwrap();
    assert_eq!(params_db_dim_1(&p2), 7);
    // A 40000-bit item needs three 2048-byte instances.
    let p3 = ypir_core::params::derive(1024, 40000, Variant::SinglePass).unwrap();
    assert_eq!(p3.instances, 3);
    // Two-pass: 2^26 needed bytes split evenly over both dimensions.
    let p4 = ypir_core::params::derive(1 << 23, 64, Variant::TwoPass).unwrap();
    assert_eq!(p4.db_dim_1, 2);
    assert_eq!(p4.db_dim_2, 2);
    assert_eq!(required_db_bytes(&p4), 1 << 26);
}

#[test]
fn codec_round_trip() {
    let bytes: Vec<u8> = (0u16..64).map(|x| (x * 7 % 256) as u8).collect();
    let words = bytes_to_u64_le(&bytes).unwrap();
    assert_eq!(words.len(), 8);
    assert_eq!(u64_to_bytes_le(&words), bytes);

    let words2 = vec![0u64, 1, u64::MAX, 0x0123_4567_89AB_CDEF];
    let bytes2 = u64_to_bytes_le(&words2);
    assert_eq!(bytes2.len(), 32);
    assert_eq!(bytes_to_u64_le(&bytes2).unwrap(), words2);
}

#[test]
fn codec_exact_values() {
    let bytes = vec![0x01, 0, 0, 0, 0, 0, 0, 0, 0xEF, 0xCD, 0xAB, 0x89, 0x67, 0x45, 0x23, 0x01];
    let words = bytes_to_u64_le(&bytes).unwrap();
    assert_eq!(words, vec![1u64, 0x0123_4567_89AB_CDEF]);
    assert_eq!(u64_to_bytes_le(&vec![1u64]), vec![0x01, 0, 0, 0, 0, 0, 0, 0]);
}

#[test]
fn codec_rejects_misaligned_length() {
    let bytes = vec![0u8; 12];
    assert_eq!(bytes_to_u64_le(&bytes), Err(PirError::InvalidArgument));
    assert_eq!(bytes_to_u64_le(&vec![0u8; 7]), Err(PirError::InvalidArgument));
    assert!(bytes_to_u64_le(&vec![0u8; 0]).is_ok());
}

#[test]
fn ingestion_rejects_short_buffer_with_shape() {
    let p = ypir_core::params::derive(1024, 8, Variant::SinglePass).unwrap();
    let needed = required_db_bytes(&p);
    let raw = vec![1u8; needed - 1];
    let err = ingest(&p, &raw, true, false, false).unwrap_err();
    assert_eq!(
        err,
        PirError::InsufficientData {
            expected_rows: 2048,
            expected_cols: 2048,
            actual_bytes: needed - 1,
        }
    );
}

#[test]
fn ingestion_truncates_oversized_buffer() {
    let p = ypir_core::params::derive(1024, 8, Variant::SinglePass).unwrap();
    let needed = required_db_bytes(&p);
    let mut raw = vec![3u8; needed];
    raw.extend(vec![9u8; 100]);
    let db = ingest(&p, &raw, true, true, false).unwrap();
    assert_eq!(db.data.len(), needed);
    // Only the prefix is retained: no byte from the oversized tail appears.
    assert!(db.data.iter().all(|&b| b == 3));
    // The same prefix with a different tail ingests identically.
    let mut raw2 = vec![3u8; needed];
    raw2.extend(vec![250u8; 4096]);
    let db2 = ingest(&p, &raw2, true, true, false).unwrap();
    assert_eq!(db.data, db2.data);
}

#[test]
fn ingestion_transposes_row_major_input() {
    let p = ypir_core::params::derive(1024, 8, Variant::SinglePass).unwrap();
    let rows = 2048usize;
    let cols = 2048usize;
    let mut raw = vec![0u8; rows * cols];
    // Mark a few row-major entries (r, j).
    raw[5 * cols + 7] = 0xAA;
    raw[0 * cols + 1] = 0xBB;
    raw[2047 * cols + 2047] = 0xCC;
    let db = ingest(&p, &raw, true, false, false).unwrap();
    // In the transposed layout the entry for column j, row r is at
    // j * rows + r.
    assert_eq!(db.data[7 * rows + 5], 0xAA);
    assert_eq!(db.data[1 * rows + 0], 0xBB);
    assert_eq!(db.data[2047 * rows + 2047], 0xCC);
    // An already-transposed buffer is taken as-is.
    let db2 = ingest(&p, &raw, true, true, false).unwrap();
    assert_eq!(db2.data, raw);
}

#[test]
fn ingestion_pads_short_buffer_when_requested() {
    let p = ypir_core::params::derive(1024, 8, Variant::SinglePass).unwrap();
    let needed = required_db_bytes(&p);
    let raw = vec![7u8; 100];
    let db = ingest(&p, &raw, true, true, true).unwrap();
    assert_eq!(db.data.len(), needed);
    assert!(db.data[..100].iter().all(|&b| b == 7));
    assert!(db.data[100..].iter().all(|&b| b == 0));
}

#[test]
fn kernel_checked_entry_rejects_shape_mismatch() {
    let p = ypir_core::params::derive(1024, 8, Variant::SinglePass).unwrap();
    let a = vec![1u64; 16];
    let b = vec![1u8; 16 * 4];
    let mut c = vec![0u64; 4];
    // a_elems != b_rows is a kernel invariant violation.
    assert_eq!(
        batched_dot_product(&p, &mut c, &a, 8, &b, 16, 4, 1),
        Err(PirError::InvariantViolation)
    );
    // Wrong output length.
    let mut c_short = vec![0u64; 3];
    assert_eq!(
        batched_dot_product(&p, &mut c_short, &a, 16, &b, 16, 4, 1),
        Err(PirError::InvariantViolation)
    );
    // Consistent shapes run.
    assert_eq!(batched_dot_product(&p, &mut c, &a, 16, &b, 16, 4, 1), Ok(()));
}

#[test]
fn kernel_reduces_and_composes() {
    // Large words and bytes force both limb accumulators through the
    // Barrett reductions; compare against plain 128-bit arithmetic.
    let p = ypir_core::params::derive(1024, 8, Variant::SinglePass).unwrap();
    let a = vec![u64::MAX, 0x1234_5678_9ABC_DEF0];
    let b = vec![255u8, 254u8];
    let mut c = vec![0xDEAD_BEEFu64];
    fast_batched_dot_product_avx512(&p, &mut c, &a, 2, &b, 2, 1, 1);
    assert_eq!(c[0], expected_cell(&p, &a, &b, 0xDEAD_BEEF));
}

#[test]
fn kernel_is_additive_not_overwriting() {
    let p = ypir_core::params::derive(1024, 8, Variant::SinglePass).unwrap();
    let a = vec![5u64 | (3u64 << 32); 8];
    let b = vec![200u8; 8];
    let mut c = vec![0u64];
    fast_batched_dot_product_avx512(&p, &mut c, &a, 8, &b, 8, 1, 1);
    let once = c[0];
    fast_batched_dot_product_avx512(&p, &mut c, &a, 8, &b, 8, 1, 1);
    // A second identical run doubles the residue under the modulus.
    assert_eq!(c[0], ((2u128 * once as u128) % p.modulus as u128) as u64);
}

#[test]
fn concrete_single_pass_scenario() {
    // ypir_core::params::derive(1024 items, 8-bit items, single pass): the shape product is
    // the required byte count, an all-ones database with an all-ones query
    // of one batch yields, in every column, the residue of b_rows ones
    // composed through the CRT.
    let p = ypir_core::params::derive(1024, 8, Variant::SinglePass).unwrap();
    let rows = 2048usize;
    let cols = 2048usize;
    assert_eq!(required_db_bytes(&p), rows * cols);
    let raw = vec![1u8; rows * cols];
    let srv = server_new(&p, &raw, true, false, false).unwrap();
    let query = vec![1u64; rows];
    let resp = answer_query(&srv, &query).unwrap();
    assert_eq!(resp.len(), cols);
    // Each query word carries limb residues (1, 0): the composed value is
    // (b_rows * crt_coeff_0) mod modulus.
    let expected = ((rows as u128 * p.crt_coeff_0 as u128) % p.modulus as u128) as u64;
    assert_eq!(expected, 52280221117483808);
    assert!(resp.iter().all(|&v| v == expected));
}

#[test]
fn server_answers_byte_queries() {
    let p = ypir_core::params::derive(1024, 8, Variant::SinglePass).unwrap();
    let rows = 2048usize;
    let raw = vec![1u8; required_db_bytes(&p)];
    let srv = server_new(&p, &raw, true, true, false).unwrap();
    let query_words = vec![1u64; rows];
    let query_bytes = u64_to_bytes_le(&query_words);
    let resp_bytes = answer(&srv, &query_bytes).unwrap();
    let resp_words = bytes_to_u64_le(&resp_bytes).unwrap();
    assert_eq!(resp_words, answer_query(&srv, &query_words).unwrap());
}

#[test]
fn server_rejects_bad_queries() {
    let p = ypir_core::params::derive(1024, 8, Variant::SinglePass).unwrap();
    let raw = vec![1u8; required_db_bytes(&p)];
    let srv = server_new(&p, &raw, true, true, false).unwrap();
    // Empty query.
    assert_eq!(answer_query(&srv, &vec![]), Err(PirError::InvalidArgument));
    // Length not a multiple of the row count.
    assert_eq!(answer_query(&srv, &vec![1u64; 2047]), Err(PirError::InvalidArgument));
    // Byte length not a multiple of eight.
    assert_eq!(answer(&srv, &vec![0u8; 9]), Err(PirError::InvalidArgument));
}

#[test]
fn server_new_propagates_insufficient_data() {
    let p = ypir_core::params::derive(1024, 8, Variant::SinglePass).unwrap();
    let err = server_new(&p, &vec![0u8; 10], true, false, false).unwrap_err();
    assert_eq!(
        err,
        PirError::InsufficientData { expected_rows: 2048, expected_cols: 2048, actual_bytes: 10 }
    );
}

#[test]
fn ingestion_rejects_variant_mismatch() {
    let p = ypir_core::params::derive(1024, 8, Variant::SinglePass).unwrap();
    let raw = vec![0u8; required_db_bytes(&p)];
    // The caller's restated variant must agree with the parameter set.
    assert_eq!(ingest(&p, &raw, false, true, false).unwrap_err(), PirError::InvalidArgument);
    let q = ypir_core::params::derive(1 << 23, 64, Variant::TwoPass).unwrap();
    let raw2 = vec![0u8; required_db_bytes(&q)];
    assert_eq!(server_new(&q, &raw2, true, true, false).unwrap_err(), PirError::InvalidArgument);
}

#[test]
fn two_pass_server_answers_batched_query() {
    let p = ypir_core::params::derive(1 << 16, 512, Variant::TwoPass).unwrap();
    let rows = 2048usize;
    let cols = 2048usize;
    assert_eq!(required_db_bytes(&p), rows * cols);
    let mut raw = vec![0u8; rows * cols];
    for (i, b) in raw.iter_mut().enumerate() {
        *b = (i % 251) as u8;
    }
    let srv = server_new(&p, &raw, false, true, false).unwrap();
    // Two batches concatenated: K is inferred from the query length.
    let mut query = vec![2u64 | (1u64 << 32); rows];
    query.extend(vec![1u64; rows]);
    let resp = answer_query(&srv, &query).unwrap();
    assert_eq!(resp.len(), 2 * cols);
    // Spot-check cells of both batches against plain 128-bit arithmetic.
    for &j in &[0usize, 1, 1023, 2047] {
        let col = &raw[j * rows..(j + 1) * rows];
        assert_eq!(resp[j], expected_cell(&p, &query[..rows], col, 0));
        assert_eq!(resp[cols + j], expected_cell(&p, &query[rows..], col, 0));
    }
}
