//! Throughput and latency counters for one driver, reset after every report.
//! Time enters as microsecond readings supplied by the caller, so the
//! arithmetic here is exact; rendering the report is the caller's concern.

use vstd::prelude::*;

verus! {

/// Microseconds between two statistics reports.
pub const STATS_INTERVAL_US: u64 = 5_000_000;

/// Accumulates per-interval counters for one driver.
pub struct StatisticsPrinter {
    /// Label of the driver the counters belong to.
    pub name: &'static str,
    /// When the current interval began, in microseconds.
    pub start_time_us: u64,
    /// Snapshots handled this interval.
    pub updates: u32,
    /// Payload bytes handled this interval.
    pub bytes: u64,
    /// Wire bytes (headers included) handled this interval.
    pub protocol_bytes: u64,
    /// Sum of per-snapshot latencies this interval.
    pub total_latency_us: u64,
}

impl StatisticsPrinter {
    /// Fresh counters for the driver called `name`, starting an interval at
    /// `now_us`.
    pub fn new(name: &'static str, now_us: u64) -> (r: Self)
        ensures
            r.name == name,
            r.start_time_us == now_us,
            r.updates == 0,
            r.bytes == 0,
            r.protocol_bytes == 0,
            r.total_latency_us == 0,
    {
        StatisticsPrinter {
            name,
            start_time_us: now_us,
            updates: 0,
            bytes: 0,
            protocol_bytes: 0,
            total_latency_us: 0,
        }
    }

    /// Counts one handled snapshot, wrapping modulo 2^32.
    pub fn add_update(&mut self)
        ensures
            final(self).updates == (old(self).updates + 1) % 0x1_0000_0000,
            *final(self) == (StatisticsPrinter { updates: final(self).updates, ..*old(self) }),
    {
        self.updates = if self.updates == 0xFFFF_FFFF {
            0
        } else {
            self.updates + 1
        };
    }

    /// Counts `count` payload bytes, wrapping modulo 2^64.
    pub fn add_bytes(&mut self, count: usize)
        ensures
            final(self).bytes == (old(self).bytes + count) % 0x1_0000_0000_0000_0000,
            *final(self) == (StatisticsPrinter { bytes: final(self).bytes, ..*old(self) }),
    {
        self.bytes = wrapping_add_u64(self.bytes, count as u64);
    }

    /// Counts `count` wire bytes, wrapping modulo 2^64.
    pub fn add_protocol_bytes(&mut self, count: usize)
        ensures
            final(self).protocol_bytes == (old(self).protocol_bytes + count)
                % 0x1_0000_0000_0000_0000,
            *final(self) == (StatisticsPrinter {
                protocol_bytes: final(self).protocol_bytes,
                ..*old(self)
            }),
    {
        self.protocol_bytes = wrapping_add_u64(self.protocol_bytes, count as u64);
    }

    /// Adds one snapshot's latency, wrapping modulo 2^64.
    pub fn add_latency(&mut self, latency_us: u64)
        ensures
            final(self).total_latency_us == (old(self).total_latency_us + latency_us)
                % 0x1_0000_0000_0000_0000,
            *final(self) == (StatisticsPrinter {
                total_latency_us: final(self).total_latency_us,
                ..*old(self)
            }),
    {
        self.total_latency_us = wrapping_add_u64(self.total_latency_us, latency_us);
    }

    /// Whether a full report interval has passed since the counters were last
    /// reset.
    pub fn should_print(&self, now_us: u64) -> (r: bool)
        ensures
            r == (now_us - self.start_time_us >= STATS_INTERVAL_US),
    {
        now_us >= self.start_time_us && now_us - self.start_time_us >= STATS_INTERVAL_US
    }

    /// Clears every counter and starts a new interval at `now_us`.
    pub fn reset(&mut self, now_us: u64)
        ensures
            final(self).name == old(self).name,
            final(self).start_time_us == now_us,
            final(self).updates == 0,
            final(self).bytes == 0,
            final(self).protocol_bytes == 0,
            final(self).total_latency_us == 0,
    {
        self.updates = 0;
        self.bytes = 0;
        self.protocol_bytes = 0;
        self.total_latency_us = 0;
        self.start_time_us = now_us;
    }
}

/// `a + b` modulo 2^64.
fn wrapping_add_u64(a: u64, b: u64) -> (r: u64)
    ensures
        r == (a + b) % 0x1_0000_0000_0000_0000,
{
    if b <= u64::MAX - a {
        a + b
    } else {
        let r = b - (u64::MAX - a) - 1;
        proof {
            assert(r == (a + b) % 0x1_0000_0000_0000_0000) by (nonlinear_arith)
                requires
                    a <= u64::MAX,
                    b <= u64::MAX,
                    b > u64::MAX - a,
                    r == b - (u64::MAX - a) - 1,
            ;
        }
        r
    }
}

} // verus!
