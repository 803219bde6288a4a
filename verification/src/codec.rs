//! Little-endian marshalling between byte buffers and 64-bit query or
//! response words. Words are eight-byte little-endian encodings; decoding a
//! buffer whose length is not a multiple of eight is rejected, encoding is
//! always well defined.

use vstd::prelude::*;
use vstd::bytes::{
    lemma_auto_spec_u64_to_from_le_bytes, spec_u64_from_le_bytes, spec_u64_to_le_bytes,
    u64_from_le_bytes, u64_to_le_bytes,
};
use crate::params::PirError;

verus! {

/// The little-endian byte encoding of a word sequence.
pub open spec fn spec_words_to_bytes(ws: Seq<u64>) -> Seq<u8>
    decreases ws.len(),
{
    if ws.len() == 0 {
        Seq::empty()
    } else {
        spec_u64_to_le_bytes(ws[0]) + spec_words_to_bytes(ws.drop_first())
    }
}

/// The words read from a little-endian byte sequence, eight bytes per word.
pub open spec fn spec_bytes_to_words(bs: Seq<u8>) -> Seq<u64>
    decreases bs.len(),
{
    if bs.len() < 8 {
        Seq::empty()
    } else {
        seq![spec_u64_from_le_bytes(bs.take(8))] + spec_bytes_to_words(bs.skip(8))
    }
}

/// Encoding a word sequence yields eight bytes per word.
pub proof fn lemma_words_to_bytes_len(ws: Seq<u64>)
    ensures
        spec_words_to_bytes(ws).len() == 8 * ws.len(),
    decreases ws.len(),
{
    lemma_auto_spec_u64_to_from_le_bytes();
    if ws.len() > 0 {
        lemma_words_to_bytes_len(ws.drop_first());
    }
}

/// Appending one word to a sequence appends its eight-byte encoding.
pub proof fn lemma_words_to_bytes_push(ws: Seq<u64>, w: u64)
    ensures
        spec_words_to_bytes(ws.push(w)) == spec_words_to_bytes(ws) + spec_u64_to_le_bytes(w),
    decreases ws.len(),
{
    if ws.len() == 0 {
        assert(ws.push(w)[0] == w);
        assert(ws =~= Seq::<u64>::empty());
        assert(ws.push(w).drop_first() =~= Seq::<u64>::empty());
        assert(spec_words_to_bytes(Seq::<u64>::empty()) =~= Seq::<u8>::empty());
        assert(spec_words_to_bytes(ws.push(w)) =~= spec_u64_to_le_bytes(w));
        assert(spec_words_to_bytes(ws) + spec_u64_to_le_bytes(w) =~= spec_u64_to_le_bytes(w));
    } else {
        assert(ws.push(w)[0] == ws[0]);
        assert(ws.push(w).drop_first() =~= ws.drop_first().push(w));
        lemma_words_to_bytes_push(ws.drop_first(), w);
        assert(spec_words_to_bytes(ws.push(w)) =~= spec_words_to_bytes(ws) + spec_u64_to_le_bytes(
            w,
        ));
    }
}

/// Appending eight bytes to an aligned buffer appends one decoded word.
pub proof fn lemma_bytes_to_words_snoc(bs: Seq<u8>, chunk: Seq<u8>)
    requires
        bs.len() % 8 == 0,
        chunk.len() == 8,
    ensures
        spec_bytes_to_words(bs + chunk) == spec_bytes_to_words(bs) + seq![
            spec_u64_from_le_bytes(chunk),
        ],
    decreases bs.len(),
{
    if bs.len() == 0 {
        assert((bs + chunk).take(8) =~= chunk);
        assert((bs + chunk).skip(8) =~= Seq::<u8>::empty());
        assert(spec_bytes_to_words(Seq::<u8>::empty()) =~= Seq::<u64>::empty());
        assert(spec_bytes_to_words(bs + chunk) =~= seq![spec_u64_from_le_bytes(chunk)]);
        assert(spec_bytes_to_words(bs) + seq![spec_u64_from_le_bytes(chunk)] =~= seq![
            spec_u64_from_le_bytes(chunk),
        ]);
    } else {
        assert((bs + chunk).take(8) =~= bs.take(8));
        assert((bs + chunk).skip(8) =~= bs.skip(8) + chunk);
        assert(bs.skip(8).len() % 8 == 0);
        lemma_bytes_to_words_snoc(bs.skip(8), chunk);
        assert(spec_bytes_to_words(bs + chunk) =~= spec_bytes_to_words(bs) + seq![
            spec_u64_from_le_bytes(chunk),
        ]);
    }
}

/// Byte/word bijection, decode first: re-encoding the words read from an
/// aligned byte buffer yields the original buffer.
pub proof fn lemma_bytes_words_round_trip(bs: Seq<u8>)
    requires
        bs.len() % 8 == 0,
    ensures
        spec_words_to_bytes(spec_bytes_to_words(bs)) == bs,
    decreases bs.len(),
{
    lemma_auto_spec_u64_to_from_le_bytes();
    if bs.len() == 0 {
        assert(spec_words_to_bytes(spec_bytes_to_words(bs)) =~= bs);
    } else {
        let ws = spec_bytes_to_words(bs);
        assert(ws[0] == spec_u64_from_le_bytes(bs.take(8)));
        assert(ws.drop_first() =~= spec_bytes_to_words(bs.skip(8)));
        assert(bs.skip(8).len() % 8 == 0);
        lemma_bytes_words_round_trip(bs.skip(8));
        assert(spec_u64_to_le_bytes(spec_u64_from_le_bytes(bs.take(8))) == bs.take(8));
        assert(spec_words_to_bytes(ws) =~= bs);
    }
}

/// Byte/word bijection, encode first: decoding the encoding of any word
/// sequence yields that sequence.
pub proof fn lemma_words_bytes_round_trip(ws: Seq<u64>)
    ensures
        spec_bytes_to_words(spec_words_to_bytes(ws)) == ws,
    decreases ws.len(),
{
    lemma_auto_spec_u64_to_from_le_bytes();
    if ws.len() == 0 {
        assert(spec_bytes_to_words(spec_words_to_bytes(ws)) =~= ws);
    } else {
        let bs = spec_words_to_bytes(ws);
        lemma_words_to_bytes_len(ws.drop_first());
        assert(bs.take(8) =~= spec_u64_to_le_bytes(ws[0]));
        assert(bs.skip(8) =~= spec_words_to_bytes(ws.drop_first()));
        lemma_words_bytes_round_trip(ws.drop_first());
        assert(spec_u64_from_le_bytes(spec_u64_to_le_bytes(ws[0])) == ws[0]);
        assert(spec_bytes_to_words(bs) =~= ws);
    }
}

/// Decodes a little-endian byte buffer into 64-bit words; a length that is
/// not a multiple of eight is rejected.
pub fn bytes_to_u64_le(b: &Vec<u8>) -> (r: Result<Vec<u64>, PirError>)
    ensures
        r is Ok <==> b@.len() % 8 == 0,
        r matches Ok(ws) ==> ws@ == spec_bytes_to_words(b@) && ws@.len() == b@.len() / 8,
        r matches Err(e) ==> e == PirError::InvalidArgument,
{
    if b.len() % 8 != 0 {
        return Err(PirError::InvalidArgument);
    }
    let blen = b.len();
    let n = blen / 8;
    let mut out: Vec<u64> = Vec::new();
    let mut i: usize = 0;
    proof {
        assert(out@ =~= spec_bytes_to_words(b@.take(0)));
    }
    while i < n
        invariant
            i <= n,
            blen == b@.len(),
            n == b@.len() / 8,
            b@.len() % 8 == 0,
            out@ == spec_bytes_to_words(b@.take(8 * i as int)),
            out@.len() == i,
        decreases n - i,
    {
        proof {
            vstd::arithmetic::div_mod::lemma_fundamental_div_mod(b@.len() as int, 8);
            assert(8 * n == b@.len());
            assert(8 * (i + 1) <= 8 * n) by (nonlinear_arith)
                requires i < n;
            assert(8 * (i + 1) <= blen);
        }
        let chunk = vstd::slice::slice_subrange(b.as_slice(), 8 * i, 8 * i + 8);
        let w = u64_from_le_bytes(chunk);
        proof {
            assert(b@.take(8 * i as int).len() % 8 == 0);
            lemma_bytes_to_words_snoc(b@.take(8 * i as int), b@.subrange(8 * i as int, 8 * i + 8));
            assert(b@.take(8 * (i + 1) as int) =~= b@.take(8 * i as int) + b@.subrange(
                8 * i as int,
                8 * i + 8,
            ));
            assert(out@.push(w) =~= spec_bytes_to_words(b@.take(8 * (i + 1) as int)));
        }
        out.push(w);
        i = i + 1;
    }
    proof {
        vstd::arithmetic::div_mod::lemma_fundamental_div_mod(b@.len() as int, 8);
        assert(b@.take(8 * n as int) =~= b@);
    }
    Ok(out)
}

/// Encodes 64-bit words as a little-endian byte buffer, eight bytes per
/// word.
pub fn u64_to_bytes_le(words: &Vec<u64>) -> (r: Vec<u8>)
    ensures
        r@ == spec_words_to_bytes(words@),
        r@.len() == 8 * words@.len(),
{
    let mut out: Vec<u8> = Vec::new();
    let mut i: usize = 0;
    proof {
        assert(out@ =~= spec_words_to_bytes(words@.take(0)));
    }
    while i < words.len()
        invariant
            i <= words@.len(),
            out@ == spec_words_to_bytes(words@.take(i as int)),
            out@.len() == 8 * i,
        decreases words@.len() - i,
    {
        let mut chunk = u64_to_le_bytes(words[i]);
        proof {
            lemma_words_to_bytes_push(words@.take(i as int), words@[i as int]);
            assert(words@.take(i + 1 as int) =~= words@.take(i as int).push(words@[i as int]));
        }
        out.append(&mut chunk);
        i = i + 1;
    }
    proof {
        assert(words@.take(words@.len() as int) =~= words@);
        lemma_words_to_bytes_len(words@);
    }
    out
}

} // verus!
