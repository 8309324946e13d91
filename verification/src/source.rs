//! Decision logic of the source driver: when a silent provider counts as
//! lost, and how one snapshot becomes wire datagrams (compress, then
//! fragment). The caller performs the waiting and the socket sends, handing
//! in plain values.

use vstd::prelude::*;

use crate::compression::compress_into;
use crate::compression::lz4_encoding;
use crate::protocol::copy_prefix;
use crate::protocol::num_fragments;
use crate::protocol::seq_succ;
use crate::protocol::spec_datagram;
use crate::protocol::zero_vec;
use crate::protocol::Sender;

verus! {

/// A silent provider is considered lost after this long.
pub const DISCONNECT_TIMEOUT_US: u64 = 10_000_000;

/// How long one wait for fresh data may block, keeping shutdown responsive.
pub const WAIT_INTERVAL_MS: u32 = 200;

/// What became of one snapshot handed to the source pipeline.
pub enum EncodeOutcome {
    /// The snapshot compressed and fragmented into these wire datagrams.
    Datagrams(Vec<Vec<u8>>),
    /// The compression stage failed (encoding did not fit the scratch
    /// buffer); skip this update and carry on.
    CompressionFailed,
    /// The compressed snapshot needs more than 65535 fragments; fatal.
    PayloadTooLarge,
}

/// Whether the provider has been silent long enough to reconnect.
pub fn connection_lost(last_data_us: u64, now_us: u64) -> (r: bool)
    ensures
        r == (now_us - last_data_us >= DISCONNECT_TIMEOUT_US),
{
    now_us >= last_data_us && now_us - last_data_us >= DISCONNECT_TIMEOUT_US
}

/// Compresses one snapshot into a fresh buffer of at most `scratch_size`
/// bytes. `Some` holds exactly the LZ4 block encoding; `None` comes exactly
/// when the snapshot exceeds what LZ4 accepts or its encoding does not fit
/// the scratch buffer. (The bound on `scratch_size` is the LZ4 library's
/// `i32` limit.)
pub fn compress_snapshot(data: &[u8], scratch_size: usize) -> (r: Option<Vec<u8>>)
    requires
        scratch_size <= 0x7FFF_FFFF,
    ensures
        match r {
            Some(v) => {
                &&& v@ == lz4_encoding(data@)
                &&& v@.len() <= scratch_size
            },
            None => data@.len() > 0x7E00_0000 || lz4_encoding(data@).len() > scratch_size,
        },
{
    let mut scratch = zero_vec(scratch_size);
    match compress_into(data, &mut scratch) {
        None => None,
        Some(n) => Some(copy_prefix(&scratch, n)),
    }
}

/// Compresses one snapshot and fragments the encoding into datagrams. On
/// success the datagrams are exactly the sender's fragments of the LZ4
/// encoding and the sequence number advances; on either failure the sender
/// is untouched, and the failed compression is exactly an encoding that
/// exceeds the scratch buffer (or an input beyond what LZ4 accepts).
pub fn encode_snapshot(
    sender: &mut Sender,
    data: &[u8],
    source_time_us: u64,
    scratch_size: usize,
) -> (r: EncodeOutcome)
    requires
        scratch_size <= 0x7FFF_FFFF,
    ensures
        match r {
            EncodeOutcome::Datagrams(dgs) => {
                &&& lz4_encoding(data@).len() <= scratch_size
                &&& num_fragments(lz4_encoding(data@).len() as int) <= 65535
                &&& final(sender).sequence == seq_succ(old(sender).sequence)
                &&& dgs@.len() == num_fragments(lz4_encoding(data@).len() as int)
                &&& forall|k: int|
                    0 <= k < dgs@.len() ==> (#[trigger] dgs@[k])@ == spec_datagram(
                        old(sender).sequence,
                        k,
                        lz4_encoding(data@),
                        source_time_us,
                    )
            },
            EncodeOutcome::CompressionFailed => {
                &&& *final(sender) == *old(sender)
                &&& data@.len() > 0x7E00_0000 || lz4_encoding(data@).len() > scratch_size
            },
            EncodeOutcome::PayloadTooLarge => {
                &&& *final(sender) == *old(sender)
                &&& num_fragments(lz4_encoding(data@).len() as int) > 65535
            },
        },
{
    match compress_snapshot(data, scratch_size) {
        None => EncodeOutcome::CompressionFailed,
        Some(compressed) => {
            let mut out: Vec<Vec<u8>> = Vec::new();
            match sender.send(compressed.as_slice(), source_time_us, &mut out) {
                Ok(_) => {
                    proof {
                        assert(compressed@ == lz4_encoding(data@));
                        assert forall|k: int| 0 <= k < out@.len() implies (#[trigger] out@[k])@
                            == spec_datagram(
                            old(sender).sequence,
                            k,
                            lz4_encoding(data@),
                            source_time_us,
                        ) by {
                            assert(out@[0 + k]@ == spec_datagram(
                                old(sender).sequence,
                                k,
                                compressed@,
                                source_time_us,
                            ));
                        }
                    }
                    EncodeOutcome::Datagrams(out)
                },
                Err(_) => EncodeOutcome::PayloadTooLarge,
            }
        },
    }
}

} // verus!
