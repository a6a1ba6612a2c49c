//! Byte encoding of embedding vectors.
//!
//! An embedding is persisted as a flat byte string: each 64-bit element
//! in turn, little endian, eight bytes per element.  Decoding rejects a
//! blob whose length is not a multiple of the element width, so a store
//! written with a different element layout is reported rather than
//! misread.

use vstd::bytes::spec_u64_from_le_bytes;
use vstd::bytes::spec_u64_to_le_bytes;
use vstd::bytes::lemma_auto_spec_u64_to_from_le_bytes;
use vstd::bytes::u64_from_le_bytes;
use vstd::bytes::u64_to_le_bytes;
use vstd::prelude::*;
use vstd::slice::slice_subrange;

use crate::error::PipelineError;
use crate::text::push_all;

verus! {

/// Bytes per encoded element.
pub const WORD_BYTES: usize = 8;

/// The byte string that encodes a sequence of 64-bit words.
pub open spec fn encoded_bits(words: Seq<u64>) -> Seq<u8>
    decreases words.len(),
{
    if words.len() == 0 {
        Seq::empty()
    } else {
        encoded_bits(words.drop_last()) + spec_u64_to_le_bytes(words.last())
    }
}

/// The words read back from a byte string, eight bytes at a time from
/// the front; a trailing fragment shorter than eight bytes is ignored.
pub open spec fn decoded_bits(bytes: Seq<u8>) -> Seq<u64>
    decreases bytes.len(),
{
    if bytes.len() < WORD_BYTES {
        Seq::empty()
    } else {
        seq![spec_u64_from_le_bytes(bytes.take(WORD_BYTES as int))]
            + decoded_bits(bytes.skip(WORD_BYTES as int))
    }
}

pub proof fn lemma_encoded_len(words: Seq<u64>)
    ensures
        encoded_bits(words).len() == WORD_BYTES * words.len(),
    decreases words.len(),
{
    lemma_auto_spec_u64_to_from_le_bytes();
    if words.len() > 0 {
        lemma_encoded_len(words.drop_last());
    }
}

/// Law: decoding inverts encoding exactly.
pub proof fn lemma_codec_round_trip(words: Seq<u64>)
    ensures
        decoded_bits(encoded_bits(words)) == words,
    decreases words.len(),
{
    lemma_auto_spec_u64_to_from_le_bytes();
    if words.len() == 0 {
        assert(decoded_bits(encoded_bits(words)) =~= words);
    } else {
        lemma_encoded_len(words.drop_last());
        assert(encoded_bits(words.drop_last()).len() as int % (WORD_BYTES as int) == 0)
            by (nonlinear_arith)
            requires
                encoded_bits(words.drop_last()).len() == WORD_BYTES * words.drop_last().len(),
                WORD_BYTES == 8,
        ;
        lemma_decoded_snoc(encoded_bits(words.drop_last()), words.last());
        lemma_codec_round_trip(words.drop_last());
        assert(decoded_bits(encoded_bits(words)) =~= words.drop_last().push(words.last()));
        assert(words.drop_last().push(words.last()) =~= words);
    }
}

/// Decoding a whole-word byte string plus one more encoded word reads
/// the extra word last.
proof fn lemma_decoded_snoc(bytes: Seq<u8>, w: u64)
    requires
        bytes.len() as int % (WORD_BYTES as int) == 0,
    ensures
        decoded_bits(bytes + spec_u64_to_le_bytes(w))
            == decoded_bits(bytes).push(w),
    decreases bytes.len(),
{
    lemma_auto_spec_u64_to_from_le_bytes();
    let all = bytes + spec_u64_to_le_bytes(w);
    if bytes.len() == 0 {
        assert(all =~= spec_u64_to_le_bytes(w));
        assert(all.take(WORD_BYTES as int) =~= spec_u64_to_le_bytes(w));
        assert(all.skip(WORD_BYTES as int) =~= Seq::<u8>::empty());
        assert(decoded_bits(Seq::<u8>::empty()) == Seq::<u64>::empty());
        assert(spec_u64_from_le_bytes(all.take(WORD_BYTES as int)) == w);
        assert(decoded_bits(all) =~= decoded_bits(bytes).push(w));
    } else {
        assert(bytes.len() >= WORD_BYTES);
        assert(all.take(WORD_BYTES as int) =~= bytes.take(WORD_BYTES as int));
        assert(all.skip(WORD_BYTES as int)
            =~= bytes.skip(WORD_BYTES as int) + spec_u64_to_le_bytes(w));
        lemma_decoded_snoc(bytes.skip(WORD_BYTES as int), w);
        assert(decoded_bits(all) =~= decoded_bits(bytes).push(w));
    }
}

/// Encode an embedding vector as its persisted byte string.
pub fn embedding_to_bytes(words: &Vec<u64>) -> (r: Vec<u8>)
    ensures
        r@ == encoded_bits(words@),
        r@.len() == WORD_BYTES * words@.len(),
{
    let mut r: Vec<u8> = Vec::new();
    let mut i: usize = 0;
    proof {
        assert(r@ =~= encoded_bits(words@.take(0)));
    }
    while i < words.len()
        invariant
            i <= words.len(),
            r@ == encoded_bits(words@.take(i as int)),
        decreases words.len() - i,
    {
        let b = u64_to_le_bytes(words[i]);
        push_all(&mut r, &b);
        proof {
            let t = words@.take(i as int + 1);
            assert(t.drop_last() =~= words@.take(i as int));
            assert(t.last() == words@[i as int]);
            assert(encoded_bits(t)
                == encoded_bits(words@.take(i as int)) + spec_u64_to_le_bytes(words@[i as int]));
        }
        i = i + 1;
    }
    proof {
        assert(words@.take(words@.len() as int) =~= words@);
        lemma_encoded_len(words@);
    }
    r
}

/// Decode a persisted byte string back into an embedding vector.
/// A blob whose length is not a whole number of elements is rejected.
pub fn bytes_to_embedding(bytes: &Vec<u8>) -> (r: Result<Vec<u64>, PipelineError>)
    ensures
        match r {
            Ok(words) => bytes@.len() as int % (WORD_BYTES as int) == 0
                && words@ == decoded_bits(bytes@),
            Err(e) => bytes@.len() as int % (WORD_BYTES as int) != 0
                && e == (PipelineError::BadEmbeddingLength { len: bytes.len() }),
        },
{
    if bytes.len() % WORD_BYTES != 0 {
        return Err(PipelineError::BadEmbeddingLength { len: bytes.len() });
    }
    let mut words: Vec<u64> = Vec::new();
    let mut i: usize = 0;
    proof {
        assert(words@ =~= decoded_bits(bytes@.take(0)));
    }
    while bytes.len() - i >= WORD_BYTES
        invariant
            i <= bytes.len(),
            i % WORD_BYTES == 0,
            bytes@.len() as int % (WORD_BYTES as int) == 0,
            words@ == decoded_bits(bytes@.take(i as int)),
        decreases bytes.len() - i,
    {
        let piece = slice_subrange(bytes.as_slice(), i, i + WORD_BYTES);
        let w = u64_from_le_bytes(piece);
        proof {
            let t = bytes@.take(i as int + WORD_BYTES as int);
            assert(piece@ =~= bytes@.subrange(i as int, i as int + WORD_BYTES as int));
            assert(bytes@.take(i as int).len() as int % (WORD_BYTES as int) == 0);
            lemma_decoded_snoc(bytes@.take(i as int), spec_u64_from_le_bytes(piece@));
            assert(bytes@.take(i as int) + spec_u64_to_le_bytes(spec_u64_from_le_bytes(piece@))
                =~= t) by {
                lemma_auto_spec_u64_to_from_le_bytes();
            }
        }
        words.push(w);
        i = i + WORD_BYTES;
    }
    proof {
        assert(i == bytes@.len());
        assert(bytes@.take(i as int) =~= bytes@);
    }
    Ok(words)
}

} // verus!
