//! Decision logic of the target driver: when the re-created provider has
//! gone stale, how a reassembled payload is decompressed back into snapshot
//! bytes, and the end-to-end latency bookkeeping. The caller does the socket
//! reads and hands in plain values.

use vstd::prelude::*;

use crate::compression::decompress_into;
use crate::compression::lz4_decoded;
use crate::protocol::copy_prefix;
use crate::protocol::zero_vec;

verus! {

/// Without a complete snapshot for this long, the provider is released so
/// downstream consumers see the session end.
pub const TELEMETRY_TIMEOUT_US: u64 = 10_000_000;

/// Kernel receive timeout the target sets, keeping shutdown responsive.
pub const RECV_TIMEOUT_MS: u32 = 1_000;

/// Whether the provider has been without updates long enough to release.
pub fn telemetry_expired(last_update_us: u64, now_us: u64) -> (r: bool)
    ensures
        r == (now_us - last_update_us >= TELEMETRY_TIMEOUT_US),
{
    now_us >= last_update_us && now_us - last_update_us >= TELEMETRY_TIMEOUT_US
}

/// Decompresses a reassembled payload for a telemetry region of
/// `region_size` bytes. `Some` holds exactly the decoded snapshot bytes;
/// `None` means the payload is not an LZ4 block that decodes within the
/// region, and the update is skipped.
pub fn decode_snapshot(payload: &[u8], region_size: usize) -> (r: Option<Vec<u8>>)
    requires
        payload@.len() <= 0x7FFF_FFFF,
        region_size <= 0x7E00_0000,
    ensures
        match r {
            Some(v) => lz4_decoded(payload@, region_size as nat) == Some(v@),
            None => lz4_decoded(payload@, region_size as nat) is None,
        },
{
    let mut buf = zero_vec(region_size);
    match decompress_into(payload, &mut buf) {
        Some(n) => {
            let v = copy_prefix(&buf, n);
            proof {
                assert(v@ =~= buf@.subrange(0, n as int));
            }
            Some(v)
        },
        None => None,
    }
}

/// Total end-to-end latency of one snapshot: the source-side processing time
/// carried by fragment 0, plus the time from the sequence's first datagram
/// to its completion, saturating at the largest representable value.
pub fn total_latency_us(source_time_us: u64, sequence_start_us: u64, now_us: u64) -> (r: u64)
    requires
        sequence_start_us <= now_us,
    ensures
        r == if source_time_us + (now_us - sequence_start_us) > u64::MAX {
            u64::MAX as int
        } else {
            source_time_us + (now_us - sequence_start_us)
        },
{
    let target_time = now_us - sequence_start_us;
    if source_time_us <= u64::MAX - target_time {
        source_time_us + target_time
    } else {
        u64::MAX
    }
}

} // verus!
