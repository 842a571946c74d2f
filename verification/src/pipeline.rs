//! Whole-buffer compression and decompression at the format's fixed field
//! widths, with or without the delta filter in front of the LZ77 engine.

use crate::delta::{
    deltas, from_deltas, group_padding, le_bytes_of_u64s, le_bytes_to_u64s,
    lemma_le_bytes_of_u64s_of_le_bytes_padded, lemma_u64s_of_le_bytes_of_u64s,
    lemma_undeltas_of_deltas, to_deltas, u64s_of_le_bytes, u64s_to_le_bytes, undeltas, zero_bytes,
};
use crate::lz77::{decoded, encoded, lemma_decode_inverts_encode, lz77_decode, lz77_encode};
use vstd::prelude::*;

verus! {

/// The width of the distance field of a compressed stream.
pub const DISTANCE_BITS: usize = 12;

/// The width of the length field of a compressed stream.
pub const LENGTH_BITS: usize = 4;

/// `bytes` read as little-endian 64-bit integers, delta encoded, and written
/// back as bytes.
pub open spec fn delta_filtered(bytes: Seq<u8>) -> Seq<u8> {
    le_bytes_of_u64s(deltas(u64s_of_le_bytes(bytes)))
}

/// `bytes` read as little-endian 64-bit integers, delta decoded, and written
/// back as bytes.
pub open spec fn delta_restored(bytes: Seq<u8>) -> Seq<u8> {
    le_bytes_of_u64s(undeltas(u64s_of_le_bytes(bytes)))
}

/// The compressed form of `input`.
pub open spec fn compressed(input: Seq<u8>, delta_coding: bool) -> Seq<u8> {
    encoded(
        if delta_coding {
            delta_filtered(input)
        } else {
            input
        },
        DISTANCE_BITS as nat,
        LENGTH_BITS as nat,
    )
}

/// What the compressed stream `input` holds, or `None` where it is corrupt.
pub open spec fn decompressed(input: Seq<u8>, delta_coding: bool) -> Option<Seq<u8>> {
    match decoded(input, DISTANCE_BITS as nat, LENGTH_BITS as nat) {
        Some(bytes) => Some(
            if delta_coding {
                delta_restored(bytes)
            } else {
                bytes
            },
        ),
        None => None,
    }
}

/// Compresses `input`, after the delta filter where `delta_coding` is set.
pub fn compress(input: &[u8], delta_coding: bool) -> (output: Vec<u8>)
    ensures
        output@ == compressed(input@, delta_coding),
{
    if delta_coding {
        let u64s = le_bytes_to_u64s(input);
        let delta_encoded = to_deltas(u64s.as_slice());
        let delta_bytes = u64s_to_le_bytes(delta_encoded.as_slice());
        lz77_encode(delta_bytes.as_slice(), DISTANCE_BITS, LENGTH_BITS)
    } else {
        lz77_encode(input, DISTANCE_BITS, LENGTH_BITS)
    }
}

/// Decompresses `input`, and undoes the delta filter where `delta_coding` is
/// set. There is no result for a corrupt stream.
#[must_use]
pub fn decompress(input: &[u8], delta_coding: bool) -> (r: Option<Vec<u8>>)
    ensures
        r is Some <==> decoded(input@, DISTANCE_BITS as nat, LENGTH_BITS as nat) is Some,
        r matches Some(output) ==> decompressed(input@, delta_coding) == Some(output@),
        r is None ==> decompressed(input@, delta_coding) is None,
{
    match lz77_decode(input, DISTANCE_BITS, LENGTH_BITS) {
        Some(result) => {
            if delta_coding {
                let u64s = le_bytes_to_u64s(result.as_slice());
                let delta_decoded = from_deltas(u64s.as_slice());
                Some(u64s_to_le_bytes(delta_decoded.as_slice()))
            } else {
                Some(result)
            }
        },
        None => None,
    }
}

/// Decompressing what was compressed gives the input back. With the delta
/// filter, an input that does not end on a whole 64-bit integer comes back
/// followed by the zero bytes that complete its last integer.
pub proof fn lemma_decompress_inverts_compress(input: Seq<u8>, delta_coding: bool)
    requires
        input.len() <= usize::MAX,
        delta_coding ==> input.len() + 7 <= usize::MAX,
    ensures
        decompressed(compressed(input, delta_coding), delta_coding) == Some(
            if delta_coding {
                input + zero_bytes(group_padding(input.len()))
            } else {
                input
            },
        ),
        input.len() % 8 == 0 ==> decompressed(compressed(input, delta_coding), delta_coding)
            == Some(input),
{
    if delta_coding {
        let ints = u64s_of_le_bytes(input);
        let filtered = delta_filtered(input);
        lemma_decode_inverts_encode(filtered, DISTANCE_BITS as nat, LENGTH_BITS as nat);
        lemma_u64s_of_le_bytes_of_u64s(deltas(ints));
        lemma_undeltas_of_deltas(ints);
        lemma_le_bytes_of_u64s_of_le_bytes_padded(input);
        assert(input + zero_bytes(0) =~= input);
    } else {
        lemma_decode_inverts_encode(input, DISTANCE_BITS as nat, LENGTH_BITS as nat);
    }
}

} // verus!
