//! The codec as a pair of functions from bytes to bytes.

use vstd::prelude::*;
use vstd::slice::slice_to_vec;
use crate::bits::bits_of_bytes;
use crate::bits::pack_bits;
use crate::bits::lemma_pack_bits_padded;
use crate::bitreader::BitReader;
use crate::bitwriter::BitWriter;
use crate::codes::fixed_block_bits;
use crate::lz77::matcher_tokens;
use crate::roundtrip::lemma_round_trip;
use crate::stream::decoded;
use crate::stream::DecodeError;

verus! {

/// The compressed form of `data`: one final block with fixed Huffman codes
/// that holds the tokens which the matcher finds in `data` with a window of
/// 32768 bytes and a lookahead of 258, packed into bytes.
pub open spec fn encoded(data: Seq<u8>) -> Seq<u8> {
    pack_bits(fixed_block_bits(matcher_tokens(data, 32768, 258)))
}

/// Compresses `input`.
pub fn encode(input: &[u8]) -> (output: Vec<u8>)
    ensures
        output@ == encoded(input@),
{
    let data = slice_to_vec(input);
    let mut writer = BitWriter::new();
    writer.write_bitstream_fixed_huffman(&data);
    proof {
        lemma_pack_bits_padded(fixed_block_bits(matcher_tokens(input@, 32768, 258)));
        assert(Seq::<bool>::empty() + fixed_block_bits(matcher_tokens(input@, 32768, 258))
            =~= fixed_block_bits(matcher_tokens(input@, 32768, 258)));
        assert(Seq::<u8>::empty() + encoded(input@) =~= encoded(input@));
    }
    writer.into_buffer()
}

/// Decompresses `bytes`: the data of the stream's blocks up to the last one,
/// or the error that the stream fails with.
pub fn decode(bytes: &[u8]) -> (r: Result<Vec<u8>, DecodeError>)
    requires
        bytes@.len() * 8 <= usize::MAX,
    ensures
        match decoded(bits_of_bytes(bytes@)) {
            Ok(data) => r is Ok && r->Ok_0@ == data,
            Err(e) => r is Err && r->Err_0 == e,
        },
{
    let mut reader = BitReader::new(bytes);
    reader.read_bitstream_blocks()
}

/// Round trip: what `encode` makes of a byte string, `decode` turns back into
/// that byte string.
pub proof fn lemma_decode_encode(data: Seq<u8>)
    ensures
        decoded(bits_of_bytes(encoded(data))) == Ok::<Seq<u8>, DecodeError>(data),
{
    lemma_round_trip(data);
}

} // verus!
