//! The fragmenting datagram protocol: a `Sender` that splits a byte buffer
//! into header-stamped datagrams, and a `Receiver` that reassembles them,
//! tolerating reorder and duplication within a sequence.

use vstd::prelude::*;

verus! {

/// Largest datagram the protocol emits: jumbo-frame friendly, with headroom
/// for the IP and UDP headers.
pub const MAX_DATAGRAM_SIZE: usize = 9000;

/// Size in bytes of the wire header that starts every datagram.
pub const HEADER_SIZE: usize = 20;

/// Payload bytes that fit in a single datagram after the header.
pub const MAX_PAYLOAD_SIZE: usize = 8980;

/// The fixed 20-byte record at the front of every datagram, transmitted
/// little-endian and tightly packed.
#[derive(Clone, Copy, Debug, PartialEq, Eq, Structural)]
pub struct DatagramHeader {
    /// Monotonically increasing snapshot number, wraps modulo 2^32.
    pub sequence: u32,
    /// Fragment index within this sequence, 0-based.
    pub fragment: u16,
    /// Total number of fragments in this sequence.
    pub fragments: u16,
    /// Total payload size across all fragments of the sequence, in bytes.
    pub payload_size: u32,
    /// Source-side processing latency in microseconds; only the copy carried
    /// by fragment 0 is authoritative.
    pub source_time_us: u64,
}

// ---------------------------------------------------------------------------
// Little-endian byte codec
// ---------------------------------------------------------------------------

/// The value of two little-endian bytes.
pub open spec fn le16(b: Seq<u8>) -> int {
    b[0] + 0x100 * b[1]
}

/// The value of four little-endian bytes.
pub open spec fn le32(b: Seq<u8>) -> int {
    b[0] + 0x100 * b[1] + 0x1_0000 * b[2] + 0x100_0000 * b[3]
}

/// The value of eight little-endian bytes.
pub open spec fn le64(b: Seq<u8>) -> int {
    b[0] + 0x100 * b[1] + 0x1_0000 * b[2] + 0x100_0000 * b[3] + 0x1_0000_0000 * b[4]
        + 0x100_0000_0000 * b[5] + 0x1_0000_0000_0000 * b[6] + 0x100_0000_0000_0000 * b[7]
}

/// The two little-endian bytes of a 16-bit value.
pub open spec fn u16_le(x: u16) -> Seq<u8> {
    seq![(x as int % 0x100) as u8, (x as int / 0x100) as u8]
}

/// The four little-endian bytes of a 32-bit value.
pub open spec fn u32_le(x: u32) -> Seq<u8> {
    seq![
        (x as int % 0x100) as u8,
        (x as int / 0x100 % 0x100) as u8,
        (x as int / 0x1_0000 % 0x100) as u8,
        (x as int / 0x100_0000) as u8,
    ]
}

/// The eight little-endian bytes of a 64-bit value.
pub open spec fn u64_le(x: u64) -> Seq<u8> {
    seq![
        (x as int % 0x100) as u8,
        (x as int / 0x100 % 0x100) as u8,
        (x as int / 0x1_0000 % 0x100) as u8,
        (x as int / 0x100_0000 % 0x100) as u8,
        (x as int / 0x1_0000_0000 % 0x100) as u8,
        (x as int / 0x100_0000_0000 % 0x100) as u8,
        (x as int / 0x1_0000_0000_0000 % 0x100) as u8,
        (x as int / 0x100_0000_0000_0000) as u8,
    ]
}

pub proof fn lemma_le16_roundtrip(x: u16)
    ensures
        le16(u16_le(x)) == x,
{
}

pub proof fn lemma_le32_roundtrip(x: u32)
    ensures
        le32(u32_le(x)) == x,
{
    let v = x as int;
    assert(v == v % 0x100 + 0x100 * (v / 0x100 % 0x100) + 0x1_0000 * (v / 0x1_0000 % 0x100)
        + 0x100_0000 * (v / 0x100_0000)) by (nonlinear_arith)
        requires
            0 <= v < 0x1_0000_0000,
    ;
}

#[verifier::rlimit(50)]
pub proof fn lemma_le64_roundtrip(x: u64)
    ensures
        le64(u64_le(x)) == x,
{
    let v = x as int;
    let hi = v / 0x1_0000_0000;
    vstd::arithmetic::div_mod::lemma_fundamental_div_mod(v, 0x1_0000_0000);
    assert(v % 0x1_0000_0000 == v % 0x100 + 0x100 * (v / 0x100 % 0x100) + 0x1_0000 * (v
        / 0x1_0000 % 0x100) + 0x100_0000 * (v / 0x100_0000 % 0x100)) by (nonlinear_arith);
    vstd::arithmetic::div_mod::lemma_div_denominator(v, 0x1_0000_0000, 0x100);
    vstd::arithmetic::div_mod::lemma_div_denominator(v, 0x1_0000_0000, 0x1_0000);
    vstd::arithmetic::div_mod::lemma_div_denominator(v, 0x1_0000_0000, 0x100_0000);
    assert(hi == hi % 0x100 + 0x100 * (hi / 0x100 % 0x100) + 0x1_0000 * (hi / 0x1_0000 % 0x100)
        + 0x100_0000 * (hi / 0x100_0000)) by (nonlinear_arith);
}

/// Reads a 16-bit little-endian value at `off`.
pub fn read_u16_le(data: &[u8], off: usize) -> (r: u16)
    requires
        off + 2 <= data@.len(),
    ensures
        r == le16(data@.subrange(off as int, off + 2)),
{
    data[off] as u16 + 0x100 * (data[off + 1] as u16)
}

/// Reads a 32-bit little-endian value at `off`.
pub fn read_u32_le(data: &[u8], off: usize) -> (r: u32)
    requires
        off + 4 <= data@.len(),
    ensures
        r == le32(data@.subrange(off as int, off + 4)),
{
    data[off] as u32 + 0x100 * (data[off + 1] as u32) + 0x1_0000 * (data[off + 2] as u32)
        + 0x100_0000 * (data[off + 3] as u32)
}

/// Reads a 64-bit little-endian value at `off`.
pub fn read_u64_le(data: &[u8], off: usize) -> (r: u64)
    requires
        off + 8 <= data@.len(),
    ensures
        r == le64(data@.subrange(off as int, off + 8)),
{
    data[off] as u64 + 0x100 * (data[off + 1] as u64) + 0x1_0000 * (data[off + 2] as u64)
        + 0x100_0000 * (data[off + 3] as u64) + 0x1_0000_0000 * (data[off + 4] as u64)
        + 0x100_0000_0000 * (data[off + 5] as u64) + 0x1_0000_0000_0000 * (data[off + 6] as u64)
        + 0x100_0000_0000_0000 * (data[off + 7] as u64)
}

/// Appends the two little-endian bytes of `x`.
pub fn push_u16_le(out: &mut Vec<u8>, x: u16)
    ensures
        final(out)@ == old(out)@ + u16_le(x),
{
    out.push((x % 0x100) as u8);
    out.push((x / 0x100) as u8);
}

/// Appends the four little-endian bytes of `x`.
pub fn push_u32_le(out: &mut Vec<u8>, x: u32)
    ensures
        final(out)@ == old(out)@ + u32_le(x),
{
    out.push((x % 0x100) as u8);
    out.push((x / 0x100 % 0x100) as u8);
    out.push((x / 0x1_0000 % 0x100) as u8);
    out.push((x / 0x100_0000) as u8);
    proof {
        assert(out@ =~= old(out)@ + u32_le(x));
    }
}

/// Appends the eight little-endian bytes of `x`.
pub fn push_u64_le(out: &mut Vec<u8>, x: u64)
    ensures
        final(out)@ == old(out)@ + u64_le(x),
{
    out.push((x % 0x100) as u8);
    out.push((x / 0x100 % 0x100) as u8);
    out.push((x / 0x1_0000 % 0x100) as u8);
    out.push((x / 0x100_0000 % 0x100) as u8);
    out.push((x / 0x1_0000_0000 % 0x100) as u8);
    out.push((x / 0x100_0000_0000 % 0x100) as u8);
    out.push((x / 0x1_0000_0000_0000 % 0x100) as u8);
    out.push((x / 0x100_0000_0000_0000) as u8);
    proof {
        assert(out@ =~= old(out)@ + u64_le(x));
    }
}

// ---------------------------------------------------------------------------
// Header serialization and parsing
// ---------------------------------------------------------------------------

/// The 20 wire bytes of a header.
pub open spec fn spec_header_bytes(h: DatagramHeader) -> Seq<u8> {
    u32_le(h.sequence) + u16_le(h.fragment) + u16_le(h.fragments) + u32_le(h.payload_size)
        + u64_le(h.source_time_us)
}

/// The header encoded by the first 20 bytes of a datagram.
pub open spec fn spec_parse_header(data: Seq<u8>) -> DatagramHeader
    recommends
        data.len() >= HEADER_SIZE,
{
    DatagramHeader {
        sequence: le32(data.subrange(0, 4)) as u32,
        fragment: le16(data.subrange(4, 6)) as u16,
        fragments: le16(data.subrange(6, 8)) as u16,
        payload_size: le32(data.subrange(8, 12)) as u32,
        source_time_us: le64(data.subrange(12, 20)) as u64,
    }
}

/// Parsing inverts serialization, whatever follows the header bytes.
pub proof fn lemma_header_roundtrip(h: DatagramHeader, rest: Seq<u8>)
    ensures
        spec_header_bytes(h).len() == HEADER_SIZE,
        spec_parse_header(spec_header_bytes(h) + rest) == h,
{
    let d = spec_header_bytes(h) + rest;
    assert(d.subrange(0, 4) =~= u32_le(h.sequence));
    assert(d.subrange(4, 6) =~= u16_le(h.fragment));
    assert(d.subrange(6, 8) =~= u16_le(h.fragments));
    assert(d.subrange(8, 12) =~= u32_le(h.payload_size));
    assert(d.subrange(12, 20) =~= u64_le(h.source_time_us));
    lemma_le32_roundtrip(h.sequence);
    lemma_le16_roundtrip(h.fragment);
    lemma_le16_roundtrip(h.fragments);
    lemma_le32_roundtrip(h.payload_size);
    lemma_le64_roundtrip(h.source_time_us);
}

// ---------------------------------------------------------------------------
// Fragmentation model
// ---------------------------------------------------------------------------

/// How many datagrams a payload of `len` bytes occupies: `ceil(len / MAX_PAYLOAD_SIZE)`.
pub open spec fn num_fragments(len: int) -> int {
    (len + 8979) / 8980
}

/// The slice of `data` carried by fragment `i`: a full `MAX_PAYLOAD_SIZE`
/// chunk, except that the last fragment carries whatever remains.
pub open spec fn spec_chunk(data: Seq<u8>, i: int) -> Seq<u8> {
    if (i + 1) * 8980 < data.len() {
        data.subrange(i * 8980, (i + 1) * 8980)
    } else {
        data.subrange(i * 8980, data.len() as int)
    }
}

/// The full wire bytes of fragment `i` of one send: header then chunk.
#[verifier::opaque]
pub open spec fn spec_datagram(sequence: u32, i: int, data: Seq<u8>, source_time_us: u64) -> Seq<
    u8,
> {
    spec_header_bytes(
        DatagramHeader {
            sequence,
            fragment: i as u16,
            fragments: num_fragments(data.len() as int) as u16,
            payload_size: data.len() as u32,
            source_time_us,
        },
    ) + spec_chunk(data, i)
}

/// All datagrams of one send, in emission order.
pub open spec fn spec_datagrams(sequence: u32, data: Seq<u8>, source_time_us: u64) -> Seq<
    Seq<u8>,
> {
    Seq::new(num_fragments(data.len() as int) as nat, |i: int| spec_datagram(sequence, i, data, source_time_us))
}

/// The sequence number that follows `s`, wrapping modulo 2^32.
pub open spec fn seq_succ(s: u32) -> u32 {
    if s == 0xFFFF_FFFF {
        0
    } else {
        (s + 1) as u32
    }
}

/// Bounds tying a payload length to its fragment count.
pub proof fn lemma_num_fragments_bounds(len: int)
    requires
        0 <= len,
    ensures
        num_fragments(0) == 0,
        len > 0 ==> num_fragments(len) >= 1,
        len > 0 ==> 8980 * (num_fragments(len) - 1) < len,
        len <= 8980 * num_fragments(len),
{
    vstd::arithmetic::div_mod::lemma_fundamental_div_mod(len + 8979, 8980);
    vstd::arithmetic::div_mod::lemma_fundamental_div_mod(8979, 8980);
}

/// The executable ceiling formula agrees with `num_fragments`.
proof fn lemma_num_fragments_exec(len: int)
    requires
        1 <= len,
    ensures
        (len - 1) / 8980 + 1 == num_fragments(len),
{
    let q = (len - 1) / 8980;
    let r = (len - 1) % 8980;
    vstd::arithmetic::div_mod::lemma_fundamental_div_mod(len - 1, 8980);
    vstd::arithmetic::div_mod::lemma_fundamental_div_mod_converse(len + 8979, 8980, q + 1, r);
}

/// The error a `Sender` can report.
#[derive(Clone, Copy, Debug, PartialEq, Eq, Structural)]
pub enum SendError {
    /// The payload needs more than 65535 fragments.
    InvalidData,
}

/// Fragments byte buffers into header-stamped datagrams, advancing a wrapping
/// sequence number once per successful send.
pub struct Sender {
    /// Sequence number the next send will be stamped with.
    pub sequence: u32,
}

impl Sender {
    /// A fresh sender, starting at sequence 0.
    pub fn new() -> (r: Self)
        ensures
            r.sequence == 0,
    {
        Sender { sequence: 0 }
    }

    /// Fragments `data` into datagrams appended to `out`: each carries the
    /// common header (stamped with its own fragment index) followed by its
    /// `MAX_PAYLOAD_SIZE`-sized slice of `data`. Returns the number of
    /// fragments and advances the sequence number; a payload needing more
    /// than 65535 fragments is rejected and leaves the sender untouched.
    pub fn send(&mut self, data: &[u8], source_time_us: u64, out: &mut Vec<Vec<u8>>) -> (r: Result<
        u16,
        SendError,
    >)
        ensures
            match r {
                Ok(n) => {
                    &&& n as int == num_fragments(data@.len() as int)
                    &&& final(self).sequence == seq_succ(old(self).sequence)
                    &&& final(out)@.len() == old(out)@.len() + num_fragments(data@.len() as int)
                    &&& forall|k: int|
                        0 <= k < old(out)@.len() ==> final(out)@[k] == old(out)@[k]
                    &&& forall|k: int|
                        0 <= k < num_fragments(data@.len() as int)
                            ==> (#[trigger] final(out)@[old(out)@.len() + k])@ == spec_datagram(
                            old(self).sequence,
                            k,
                            data@,
                            source_time_us,
                        )
                },
                Err(e) => {
                    &&& e == SendError::InvalidData
                    &&& num_fragments(data@.len() as int) > 65535
                    &&& *final(self) == *old(self)
                    &&& final(out)@ == old(out)@
                },
            },
    {
        let len = data.len();
        let fragments: usize = if len == 0 {
            0
        } else {
            (len - 1) / MAX_PAYLOAD_SIZE + 1
        };
        proof {
            if len > 0 {
                lemma_num_fragments_exec(len as int);
            }
            lemma_num_fragments_bounds(len as int);
        }
        if fragments > 65535 {
            return Err(SendError::InvalidData);
        }
        let ghost seq0 = self.sequence;
        let ghost out0 = out@;
        let mut i: usize = 0;
        let mut offset: usize = 0;
        while i < fragments
            invariant
                i <= fragments,
                fragments == num_fragments(len as int),
                fragments <= 65535,
                len == data@.len(),
                len <= 8980 * fragments,
                8980 * (fragments - 1) < len || fragments == 0,
                i < fragments ==> offset == 8980 * i,
                i == fragments ==> offset == len,
                offset <= len,
                self.sequence == seq0,
                out0 == old(out)@,
                out@.len() == out0.len() + i,
                forall|k: int| 0 <= k < out0.len() ==> out@[k] == out0[k],
                forall|k: int|
                    0 <= k < i ==> (#[trigger] out@[out0.len() + k])@ == spec_datagram(
                        seq0,
                        k,
                        data@,
                        source_time_us,
                    ),
            decreases fragments - i,
        {
            assert(offset < len);
            let remaining = len - offset;
            let fragment_size = if remaining < MAX_PAYLOAD_SIZE {
                remaining
            } else {
                MAX_PAYLOAD_SIZE
            };
            let header = DatagramHeader {
                sequence: self.sequence,
                fragment: i as u16,
                fragments: fragments as u16,
                payload_size: len as u32,
                source_time_us,
            };
            let end = offset + fragment_size;
            let dg = build_datagram(&header, data, offset, end);
            proof {
                lemma_datagram_bytes(
                    seq0,
                    i as int,
                    fragments as int,
                    data@,
                    source_time_us,
                    offset as int,
                    end as int,
                );
                assert(dg@ == spec_datagram(seq0, i as int, data@, source_time_us));
            }
            out.push(dg);
            offset += fragment_size;
            i += 1;
        }
        self.sequence = if self.sequence == 0xFFFF_FFFF {
            0
        } else {
            self.sequence + 1
        };
        Ok(fragments as u16)
    }
}

/// One datagram's bytes, spelled out: the header for fragment `i` of
/// `fragments`, then the payload slice `data[offset..end]`.
proof fn lemma_datagram_bytes(
    sequence: u32,
    i: int,
    fragments: int,
    data: Seq<u8>,
    source_time_us: u64,
    offset: int,
    end: int,
)
    requires
        0 <= i < fragments,
        fragments == num_fragments(data.len() as int),
        fragments <= 65535,
        8980 * (fragments - 1) < data.len(),
        data.len() <= 8980 * fragments,
        offset == 8980 * i,
        end == if data.len() - offset < 8980 {
            data.len() as int
        } else {
            offset + 8980
        },
    ensures
        spec_datagram(sequence, i, data, source_time_us) == spec_header_bytes(
            DatagramHeader {
                sequence,
                fragment: i as u16,
                fragments: fragments as u16,
                payload_size: data.len() as u32,
                source_time_us,
            },
        ) + data.subrange(offset, end),
{
    reveal(spec_datagram);
    lemma_chunk_slice(data, i, fragments);
}

/// The byte slice `data[off..off + size]` is exactly the chunk of fragment `i`
/// when `off` and `size` are the offsets the sender computes.
proof fn lemma_chunk_slice(data: Seq<u8>, i: int, fragments: int)
    requires
        0 <= i < fragments,
        fragments == num_fragments(data.len() as int),
        8980 * (fragments - 1) < data.len(),
        data.len() <= 8980 * fragments,
    ensures
        spec_chunk(data, i) == data.subrange(
            8980 * i,
            if data.len() - 8980 * i < 8980 {
                data.len() as int
            } else {
                8980 * i + 8980
            },
        ),
{
}

/// Builds one wire datagram: the header bytes, then `fragment_size` payload
/// bytes starting at `offset`.
fn build_datagram(header: &DatagramHeader, data: &[u8], offset: usize, end: usize) -> (dg: Vec<
    u8,
>)
    requires
        offset <= end <= data@.len(),
    ensures
        dg@ == spec_header_bytes(*header) + data@.subrange(offset as int, end as int),
{
    let mut dg: Vec<u8> = Vec::new();
    push_header(&mut dg, header);
    push_range(&mut dg, data, offset, end);
    proof {
        assert(dg@ =~= spec_header_bytes(*header) + data@.subrange(offset as int, end as int));
    }
    dg
}

/// Appends `data[start..end]` to `out`.
#[verifier::rlimit(5)]
pub fn push_range(out: &mut Vec<u8>, data: &[u8], start: usize, end: usize)
    requires
        start <= end <= data@.len(),
    ensures
        final(out)@ == old(out)@ + data@.subrange(start as int, end as int),
{
    let ghost orig = out@;
    let mut j = start;
    while j < end
        invariant
            start <= j <= end <= data@.len(),
            out@ == orig + data@.subrange(start as int, j as int),
        decreases end - j,
    {
        out.push(data[j]);
        proof {
            assert(out@ =~= orig + data@.subrange(start as int, j + 1 as int));
        }
        j += 1;
    }
    proof {
        assert(out@ =~= old(out)@ + data@.subrange(start as int, end as int));
    }
}

/// Parses the 20-byte wire header at the front of `data`.
pub fn parse_header(data: &[u8]) -> (h: DatagramHeader)
    requires
        data@.len() >= HEADER_SIZE,
    ensures
        h == spec_parse_header(data@),
{
    DatagramHeader {
        sequence: read_u32_le(data, 0),
        fragment: read_u16_le(data, 4),
        fragments: read_u16_le(data, 6),
        payload_size: read_u32_le(data, 8),
        source_time_us: read_u64_le(data, 12),
    }
}

/// Appends the 20 wire bytes of `h`.
pub fn push_header(out: &mut Vec<u8>, h: &DatagramHeader)
    ensures
        final(out)@ == old(out)@ + spec_header_bytes(*h),
{
    push_u32_le(out, h.sequence);
    push_u16_le(out, h.fragment);
    push_u16_le(out, h.fragments);
    push_u32_le(out, h.payload_size);
    push_u64_le(out, h.source_time_us);
    proof {
        assert(out@ =~= old(out)@ + spec_header_bytes(*h));
    }
}


// ---------------------------------------------------------------------------
// Receiver
// ---------------------------------------------------------------------------

/// How many entries of `s` are set.
pub open spec fn count_true(s: Seq<bool>) -> int
    decreases s.len(),
{
    if s.len() == 0 {
        0
    } else {
        count_true(s.drop_last()) + if s.last() {
            1int
        } else {
            0int
        }
    }
}

pub proof fn lemma_count_true_le(s: Seq<bool>)
    ensures
        0 <= count_true(s) <= s.len(),
    decreases s.len(),
{
    if s.len() > 0 {
        lemma_count_true_le(s.drop_last());
    }
}

pub proof fn lemma_count_true_update(s: Seq<bool>, i: int)
    requires
        0 <= i < s.len(),
        !s[i],
    ensures
        count_true(s.update(i, true)) == count_true(s) + 1,
    decreases s.len(),
{
    let t = s.update(i, true);
    if i == s.len() - 1 {
        assert(t.drop_last() =~= s.drop_last());
    } else {
        lemma_count_true_update(s.drop_last(), i);
        assert(t.drop_last() =~= s.drop_last().update(i, true));
        assert(t.last() == s.last());
    }
}

pub proof fn lemma_count_true_all_false(s: Seq<bool>)
    requires
        forall|k: int| 0 <= k < s.len() ==> !s[k],
    ensures
        count_true(s) == 0,
    decreases s.len(),
{
    if s.len() > 0 {
        lemma_count_true_all_false(s.drop_last());
    }
}

pub proof fn lemma_count_true_missing(s: Seq<bool>, i: int)
    requires
        0 <= i < s.len(),
        !s[i],
    ensures
        count_true(s) < s.len(),
    decreases s.len(),
{
    if i == s.len() - 1 {
        lemma_count_true_le(s.drop_last());
    } else {
        lemma_count_true_missing(s.drop_last(), i);
    }
}

pub proof fn lemma_count_true_all_true(s: Seq<bool>)
    requires
        forall|k: int| 0 <= k < s.len() ==> s[k],
    ensures
        count_true(s) == s.len(),
    decreases s.len(),
{
    if s.len() > 0 {
        lemma_count_true_all_true(s.drop_last());
    }
}

/// The mathematical state of a `Receiver`.
pub ghost struct RecvState {
    /// Reassembly buffer, sized to the current sequence's payload.
    pub buffer: Seq<u8>,
    /// Which fragments of the current sequence have arrived.
    pub fragments: Seq<bool>,
    /// The sequence being reassembled, if any.
    pub current_sequence: Option<u32>,
    /// Total fragments of the current sequence.
    pub total_fragments: u16,
    /// How many distinct fragments have arrived.
    pub received_fragments: u16,
    /// Total payload size of the current sequence.
    pub payload_size: u32,
    /// Source latency latched from the last fragment 0 seen.
    pub last_source_time_us: u64,
}

/// The state of a freshly created receiver.
pub open spec fn init_recv_state() -> RecvState {
    RecvState {
        buffer: Seq::empty(),
        fragments: Seq::empty(),
        current_sequence: None,
        total_fragments: 0,
        received_fragments: 0,
        payload_size: 0,
        last_source_time_us: 0,
    }
}

/// Well-formedness of a receiver state: tracking structures are sized to the
/// current header values and the received count matches the bit-set.
pub open spec fn recv_wf(st: RecvState) -> bool {
    &&& st.fragments.len() == st.total_fragments
    &&& st.buffer.len() == st.payload_size
    &&& st.received_fragments as int == count_true(st.fragments)
}

/// State reset performed when a datagram of a different sequence arrives.
pub open spec fn spec_start_new(st: RecvState, h: DatagramHeader) -> RecvState {
    RecvState {
        current_sequence: Some(h.sequence),
        total_fragments: h.fragments,
        received_fragments: 0,
        payload_size: h.payload_size,
        fragments: Seq::new(h.fragments as nat, |k: int| false),
        buffer: Seq::new(h.payload_size as nat, |k: int| 0u8),
        last_source_time_us: st.last_source_time_us,
    }
}

/// One step of the receiver: the state after processing `data`, the payload
/// returned (if the datagram completed a sequence), and whether the datagram
/// signalled a sequence change (it carried fragment 0).
#[verifier::opaque]
pub open spec fn spec_step(pre: RecvState, data: Seq<u8>) -> (RecvState, Option<Seq<u8>>, bool) {
    if data.len() < HEADER_SIZE {
        (pre, None::<Seq<u8>>, false)
    } else {
        let h = spec_parse_header(data);
        let changed = h.fragment == 0;
        let latched = if h.fragment == 0 {
            RecvState { last_source_time_us: h.source_time_us, ..pre }
        } else {
            pre
        };
        let st = if pre.current_sequence != Some(h.sequence) {
            spec_start_new(latched, h)
        } else {
            latched
        };
        if h.fragments == 0 || h.fragment >= h.fragments || h.fragment >= st.fragments.len() {
            (st, None::<Seq<u8>>, changed)
        } else if st.fragments[h.fragment as int] {
            (st, None::<Seq<u8>>, changed)
        } else {
            let off = h.fragment as int * 8980;
            let fsize = data.len() - HEADER_SIZE;
            if off > st.buffer.len() || fsize > st.buffer.len() - off {
                (st, None::<Seq<u8>>, changed)
            } else {
                let st2 = RecvState {
                    buffer: st.buffer.subrange(0, off) + data.subrange(
                        HEADER_SIZE as int,
                        data.len() as int,
                    ) + st.buffer.subrange(off + fsize, st.buffer.len() as int),
                    fragments: st.fragments.update(h.fragment as int, true),
                    received_fragments: (st.received_fragments + 1) as u16,
                    ..st
                };
                if st2.received_fragments == st2.total_fragments {
                    (
                        RecvState { current_sequence: None, ..st2 },
                        Some(st2.buffer.subrange(0, st2.payload_size as int)),
                        changed,
                    )
                } else {
                    (st2, None::<Seq<u8>>, changed)
                }
            }
        }
    }
}

/// A step keeps a well-formed state well-formed.
pub proof fn lemma_step_wf(pre: RecvState, data: Seq<u8>)
    requires
        recv_wf(pre),
    ensures
        recv_wf(spec_step(pre, data).0),
{
    reveal(spec_step);
    if data.len() >= HEADER_SIZE {
        let h = spec_parse_header(data);
        let latched = if h.fragment == 0 {
            RecvState { last_source_time_us: h.source_time_us, ..pre }
        } else {
            pre
        };
        let st = if pre.current_sequence != Some(h.sequence) {
            spec_start_new(latched, h)
        } else {
            latched
        };
        if pre.current_sequence != Some(h.sequence) {
            lemma_count_true_all_false(st.fragments);
        }
        if !(h.fragments == 0 || h.fragment >= h.fragments || h.fragment >= st.fragments.len())
            && !st.fragments[h.fragment as int] {
            let off = h.fragment as int * 8980;
            let fsize = data.len() - HEADER_SIZE;
            if !(off > st.buffer.len() || fsize > st.buffer.len() - off) {
                lemma_count_true_update(st.fragments, h.fragment as int);
                lemma_count_true_le(st.fragments.update(h.fragment as int, true));
            }
        }
    }
}

/// Reassembles datagrams into complete payloads, tracking the current
/// sequence and reporting sequence transitions.
pub struct Receiver {
    buffer: Vec<u8>,
    fragments: Vec<bool>,
    current_sequence: Option<u32>,
    total_fragments: u16,
    received_fragments: u16,
    payload_size: u32,
    last_source_time_us: u64,
}

impl Receiver {
    /// The mathematical state this receiver holds.
    pub closed spec fn v(&self) -> RecvState {
        RecvState {
            buffer: self.buffer@,
            fragments: self.fragments@,
            current_sequence: self.current_sequence,
            total_fragments: self.total_fragments,
            received_fragments: self.received_fragments,
            payload_size: self.payload_size,
            last_source_time_us: self.last_source_time_us,
        }
    }

    /// Well-formedness; established by `new` and preserved by every method.
    pub closed spec fn inv(&self) -> bool {
        recv_wf(self.v())
    }

    /// A fresh receiver; `max_payload_size` only pre-sizes the reassembly
    /// buffer's backing storage.
    pub fn new(max_payload_size: usize) -> (r: Self)
        ensures
            r.inv(),
            r.v() == init_recv_state(),
    {
        let r = Receiver {
            buffer: Vec::with_capacity(max_payload_size),
            fragments: Vec::new(),
            current_sequence: None,
            total_fragments: 0,
            received_fragments: 0,
            payload_size: 0,
            last_source_time_us: 0,
        };
        proof {
            assert(r.v().buffer =~= init_recv_state().buffer);
            assert(r.v().fragments =~= init_recv_state().fragments);
        }
        r
    }

    /// Source latency latched from the last fragment 0 seen.
    pub fn last_source_time_us(&self) -> (r: u64)
        ensures
            r == self.v().last_source_time_us,
    {
        self.last_source_time_us
    }

    /// Total fragments of the sequence being reassembled.
    pub fn total_fragments(&self) -> (r: u16)
        ensures
            r == self.v().total_fragments,
    {
        self.total_fragments
    }

    /// Feeds one datagram to the receiver. Returns the completed payload, if
    /// this datagram was the last missing fragment of the current sequence,
    /// and whether the datagram announced a sequence change (carried
    /// fragment 0). The exact behaviour is `spec_step`.
    pub fn process_datagram(&mut self, data: &[u8]) -> (r: (Option<Vec<u8>>, bool))
        requires
            old(self).inv(),
        ensures
            final(self).inv(),
            final(self).v() == spec_step(old(self).v(), data@).0,
            r.1 == spec_step(old(self).v(), data@).2,
            match r.0 {
                Some(p) => spec_step(old(self).v(), data@).1 == Some(p@),
                None => spec_step(old(self).v(), data@).1 is None,
            },
    {
        proof {
            reveal(spec_step);
            lemma_step_wf(old(self).v(), data@);
        }
        if data.len() < HEADER_SIZE {
            return (None, false);
        }
        let h = parse_header(data);
        if h.fragment == 0 {
            self.last_source_time_us = h.source_time_us;
        }
        let is_different = match self.current_sequence {
            Some(cur) => h.sequence != cur,
            None => true,
        };
        let changed = h.fragment == 0;
        if is_different {
            self.start_new_sequence(&h);
        }
        if h.fragments == 0 || h.fragment >= h.fragments || h.fragment as usize
            >= self.fragments.len() {
            return (None, changed);
        }
        let idx = h.fragment as usize;
        if self.fragments[idx] {
            return (None, changed);
        }
        let off = idx * MAX_PAYLOAD_SIZE;
        let fsize = data.len() - HEADER_SIZE;
        if off > self.buffer.len() || fsize > self.buffer.len() - off {
            return (None, changed);
        }
        let ghost st = self.v();
        splice(&mut self.buffer, off, data, HEADER_SIZE);
        self.fragments.set(idx, true);
        proof {
            lemma_count_true_update(st.fragments, idx as int);
            lemma_count_true_le(st.fragments.update(idx as int, true));
        }
        self.received_fragments = self.received_fragments + 1;
        if self.received_fragments == self.total_fragments {
            self.current_sequence = None;
            let payload = copy_prefix(&self.buffer, self.payload_size as usize);
            return (Some(payload), changed);
        }
        (None, changed)
    }

    /// Resets per-sequence state to the header of a newly seen sequence.
    fn start_new_sequence(&mut self, h: &DatagramHeader)
        ensures
            final(self).v() == spec_start_new(old(self).v(), *h),
            final(self).inv(),
    {
        self.current_sequence = Some(h.sequence);
        self.total_fragments = h.fragments;
        self.received_fragments = 0;
        self.payload_size = h.payload_size;
        refill_false(&mut self.fragments, h.fragments as usize);
        refill_zero(&mut self.buffer, h.payload_size as usize);
        proof {
            assert(self.v().fragments =~= spec_start_new(old(self).v(), *h).fragments);
            assert(self.v().buffer =~= spec_start_new(old(self).v(), *h).buffer);
            lemma_count_true_all_false(self.v().fragments);
        }
    }
}

/// Empties `v` and refills it with `n` cleared flags, reusing its storage.
fn refill_false(v: &mut Vec<bool>, n: usize)
    ensures
        final(v)@.len() == n,
        forall|k: int| 0 <= k < n ==> !final(v)@[k],
{
    v.clear();
    let mut i: usize = 0;
    while i < n
        invariant
            i <= n,
            v@.len() == i,
            forall|k: int| 0 <= k < i ==> !v@[k],
        decreases n - i,
    {
        v.push(false);
        i += 1;
    }
}

/// Empties `v` and refills it with `n` zero bytes, reusing its storage.
fn refill_zero(v: &mut Vec<u8>, n: usize)
    ensures
        final(v)@.len() == n,
        forall|k: int| 0 <= k < n ==> final(v)@[k] == 0,
{
    v.clear();
    let mut i: usize = 0;
    while i < n
        invariant
            i <= n,
            v@.len() == i,
            forall|k: int| 0 <= k < i ==> v@[k] == 0,
        decreases n - i,
    {
        v.push(0);
        i += 1;
    }
}

/// A vector of `n` zero bytes.
pub(crate) fn zero_vec(n: usize) -> (v: Vec<u8>)
    ensures
        v@.len() == n,
        forall|k: int| 0 <= k < n ==> v@[k] == 0,
{
    let mut v: Vec<u8> = Vec::new();
    let mut i: usize = 0;
    while i < n
        invariant
            i <= n,
            v@.len() == i,
            forall|k: int| 0 <= k < i ==> v@[k] == 0,
        decreases n - i,
    {
        v.push(0);
        i += 1;
    }
    v
}

/// The first `n` bytes of `src`, as a fresh vector.
pub(crate) fn copy_prefix(src: &Vec<u8>, n: usize) -> (v: Vec<u8>)
    requires
        n <= src@.len(),
    ensures
        v@ == src@.subrange(0, n as int),
{
    let mut v: Vec<u8> = Vec::new();
    let mut i: usize = 0;
    while i < n
        invariant
            i <= n <= src@.len(),
            v@ == src@.subrange(0, i as int),
        decreases n - i,
    {
        v.push(src[i]);
        proof {
            assert(v@ =~= src@.subrange(0, i + 1 as int));
        }
        i += 1;
    }
    v
}

/// Overwrites `buf[off..]` with `src[src_start..]`, leaving the rest as it
/// was.
fn splice(buf: &mut Vec<u8>, off: usize, src: &[u8], src_start: usize)
    requires
        src_start <= src@.len(),
        off + (src@.len() - src_start) <= old(buf)@.len(),
    ensures
        final(buf)@ == old(buf)@.subrange(0, off as int) + src@.subrange(
            src_start as int,
            src@.len() as int,
        ) + old(buf)@.subrange(
            off + (src@.len() - src_start),
            old(buf)@.len() as int,
        ),
{
    let ghost b0 = buf@;
    let slen = src.len();
    let count = slen - src_start;
    let blen = buf.len();
    let mut j: usize = 0;
    while j < count
        invariant
            j <= count,
            count == slen - src_start,
            src_start <= slen,
            slen == src@.len(),
            off + count <= blen,
            blen == b0.len(),
            buf@.len() == b0.len(),
            b0.len() == old(buf)@.len(),
            b0 == old(buf)@,
            forall|k: int| 0 <= k < off ==> buf@[k] == b0[k],
            forall|k: int|
                off <= k < off + j ==> #[trigger] buf@[k] == src@[src_start + (k - off)],
            forall|k: int| off + j <= k < b0.len() ==> buf@[k] == b0[k],
        decreases count - j,
    {
        buf.set(off + j, src[src_start + j]);
        j += 1;
    }
    proof {
        assert(buf@ =~= b0.subrange(0, off as int) + src@.subrange(
            src_start as int,
            src@.len() as int,
        ) + b0.subrange(off + count, b0.len() as int));
    }
}

} // verus!
