//! LZ4 blocks, as the `lz4` crate compresses and decompresses them.

use vstd::prelude::*;

verus! {

/// What an LZ4 block decompresses to, given the size to decompress to; none
/// where the block is malformed or the size is out of range.
pub uninterp spec fn lz4_decompressed(block: Seq<u8>, size: i32) -> Option<Seq<u8>>;

/// `lz4::block::decompress` with the size given: the decompressed bytes, or
/// its error. A function of its arguments alone.
#[verifier::external_body]
pub(crate) fn lz4_decompress(block: &[u8], size: i32) -> (r: Option<Vec<u8>>)
    ensures
        match lz4_decompressed(block@, size) {
            Some(v) => r is Some && r->Some_0@ == v,
            None => r is None,
        },
{
    lz4::block::decompress(block, Some(size)).ok()
}

/// `lz4::block::compress` in fast mode, without a size prefix. It succeeds on
/// inputs up to the largest size that LZ4 takes and on no others, and what it
/// gives decompresses to the input. Which of the possible blocks it gives
/// depends on the machine and is not stated.
#[verifier::external_body]
pub(crate) fn lz4_compress(bytes: &[u8]) -> (r: Option<Vec<u8>>)
    ensures
        r is Some <==> bytes@.len() <= 0x7E00_0000,
        r is Some ==> lz4_decompressed(r->Some_0@, bytes@.len() as i32) == Some(bytes@),
{
    lz4::block::compress(bytes, Some(lz4::block::CompressionMode::FAST(2)), false).ok()
}

} // verus!
