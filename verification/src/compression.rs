//! The LZ4-block compression stage around the wire, behind two trusted
//! wrappers. The block encoding is deterministic in the input, so its bytes
//! get a name that the drivers' contracts share.

use vstd::prelude::*;

verus! {

/// The LZ4 block encoding (high-compression mode, no size prefix) of `data`.
pub uninterp spec fn lz4_encoding(data: Seq<u8>) -> Seq<u8>;

/// What the LZ4 block decoder yields for `src` given `cap` bytes of room:
/// the decoded bytes, or `None` when `src` is not a block that fits.
pub uninterp spec fn lz4_decoded(src: Seq<u8>, cap: nat) -> Option<Seq<u8>>;

/// Relies on `lz4::block::compress_to_buffer` (high-compression mode, no
/// size prefix): on `Some(n)`, the first `n` bytes of `buf` hold the block
/// encoding of `src`, which depends on `src` alone. `None` comes exactly
/// when the input exceeds what LZ4 accepts or the encoding does not fit in
/// `buf`; either way `buf` keeps its length. The bound on `buf` keeps the
/// library's internal `i32` length inside its accepted range.
#[verifier::external_body]
pub(crate) fn compress_into(src: &[u8], buf: &mut Vec<u8>) -> (r: Option<usize>)
    requires
        old(buf)@.len() <= 0x7FFF_FFFF,
    ensures
        match r {
            Some(n) => {
                &&& final(buf)@.len() == old(buf)@.len()
                &&& n <= final(buf)@.len()
                &&& n == lz4_encoding(src@).len()
                &&& final(buf)@.subrange(0, n as int) == lz4_encoding(src@)
            },
            None => {
                &&& final(buf)@.len() == old(buf)@.len()
                &&& src@.len() > 0x7E00_0000 || lz4_encoding(src@).len() > old(buf)@.len()
            },
        },
{
    let mode = Some(lz4::block::CompressionMode::HIGHCOMPRESSION(9));
    match lz4::block::compress_to_buffer(src, mode, false, buf.as_mut_slice()) {
        Ok(n) => Some(n),
        Err(_) => None,
    }
}

/// Relies on `lz4::block::decompress_to_buffer` with the expected size given
/// explicitly (no size prefix in the block): on `Some(n)` the first `n`
/// bytes of `buf` are the decoded block, on `None` the bytes are not a block
/// that decodes within `buf`'s length; either way `buf` keeps its length.
/// The bounds keep the call inside the range the LZ4 library accepts.
#[verifier::external_body]
pub(crate) fn decompress_into(src: &[u8], buf: &mut Vec<u8>) -> (r: Option<usize>)
    requires
        src@.len() <= 0x7FFF_FFFF,
        old(buf)@.len() <= 0x7E00_0000,
    ensures
        match r {
            Some(n) => {
                &&& final(buf)@.len() == old(buf)@.len()
                &&& n <= final(buf)@.len()
                &&& lz4_decoded(src@, old(buf)@.len() as nat) == Some(
                    final(buf)@.subrange(0, n as int),
                )
            },
            None => {
                &&& final(buf)@.len() == old(buf)@.len()
                &&& lz4_decoded(src@, old(buf)@.len() as nat) is None
            },
        },
{
    let cap = buf.len();
    match lz4::block::decompress_to_buffer(src, Some(cap as i32), buf.as_mut_slice()) {
        Ok(n) => Some(n),
        Err(_) => None,
    }
}

} // verus!
