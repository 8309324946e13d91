//! Protocol-wide guarantees, stated over the mathematical models of the
//! `Sender` and `Receiver` and proved once and for all.

use vstd::prelude::*;

use crate::protocol::lemma_header_roundtrip;
use crate::protocol::lemma_num_fragments_bounds;
use crate::protocol::recv_wf;
use crate::protocol::spec_chunk;
use crate::protocol::spec_start_new;
use crate::protocol::num_fragments;
use crate::protocol::seq_succ;
use crate::protocol::spec_datagram;
use crate::protocol::spec_datagrams;
use crate::protocol::spec_header_bytes;
use crate::protocol::spec_parse_header;
use crate::protocol::spec_step;
use crate::protocol::DatagramHeader;
use crate::protocol::RecvState;
use crate::protocol::HEADER_SIZE;

verus! {

/// A processed datagram reports a sequence change exactly when it is long
/// enough to carry a header and that header's fragment index is 0.
pub proof fn lemma_sequence_changed_iff_fragment_zero(st: RecvState, data: Seq<u8>)
    ensures
        spec_step(st, data).2 == (data.len() >= HEADER_SIZE && spec_parse_header(
            data,
        ).fragment == 0),
{
    reveal(spec_step);
}

/// A datagram that is too short for a header, or whose header is internally
/// inconsistent (`fragments == 0` or `fragment >= fragments`) while it names
/// the sequence being reassembled, is dropped: no payload comes back and the
/// reassembly state is untouched. (A runt datagram changes nothing at all.)
pub proof fn lemma_invalid_datagram_dropped(st: RecvState, data: Seq<u8>)
    requires
        data.len() < HEADER_SIZE || {
            let h = spec_parse_header(data);
            &&& h.fragments == 0 || h.fragment >= h.fragments
            &&& st.current_sequence == Some(h.sequence)
        },
    ensures
        spec_step(st, data).1 is None,
        spec_step(st, data).0.buffer == st.buffer,
        spec_step(st, data).0.fragments == st.fragments,
        spec_step(st, data).0.current_sequence == st.current_sequence,
        spec_step(st, data).0.received_fragments == st.received_fragments,
        spec_step(st, data).0.total_fragments == st.total_fragments,
        spec_step(st, data).0.payload_size == st.payload_size,
        data.len() < HEADER_SIZE ==> spec_step(st, data).0 == st,
{
    reveal(spec_step);
}

/// The wire facts about one fragment of a send that the delivery proofs
/// lean on: its length, the header it parses back to, and the payload slice
/// it carries.
pub proof fn lemma_datagram_facts(sequence: u32, data: Seq<u8>, source_time_us: u64, i: int)
    requires
        0 < data.len() <= 8980 * 65535,
        0 <= i < num_fragments(data.len() as int),
    ensures
        ({
            let n = num_fragments(data.len() as int);
            let dg = spec_datagram(sequence, i, data, source_time_us);
            let csize = spec_chunk(data, i).len();
            &&& 1 <= n <= 65535
            &&& dg.len() == HEADER_SIZE + csize
            &&& 1 <= csize <= 8980
            &&& csize == if data.len() - i * 8980 < 8980 {
                data.len() - i * 8980
            } else {
                8980int
            }
            &&& i * 8980 + csize <= data.len()
            &&& spec_parse_header(dg) == (DatagramHeader {
                sequence,
                fragment: i as u16,
                fragments: n as u16,
                payload_size: data.len() as u32,
                source_time_us,
            })
            &&& dg.subrange(HEADER_SIZE as int, dg.len() as int) == spec_chunk(data, i)
            &&& forall|p: int|
                i * 8980 <= p < i * 8980 + csize ==> spec_chunk(data, i)[p - i * 8980] == data[p]
        }),
{
    reveal(spec_datagram);
    let n = num_fragments(data.len() as int);
    lemma_num_fragments_bounds(data.len() as int);
    let h = DatagramHeader {
        sequence,
        fragment: i as u16,
        fragments: n as u16,
        payload_size: data.len() as u32,
        source_time_us,
    };
    lemma_header_roundtrip(h, spec_chunk(data, i));
    let dg = spec_datagram(sequence, i, data, source_time_us);
    assert(dg.subrange(HEADER_SIZE as int, dg.len() as int) =~= spec_chunk(data, i));
}

/// Whether fragment index `i` occurs among the first `j` entries of `order`.
pub open spec fn in_prefix(order: Seq<int>, j: int, i: int) -> bool {
    exists|x: int| 0 <= x < j && order[x] == i
}

/// The receiver state reached after delivering, in order, the first `j`
/// entries of `order` (each an index into `dgs`).
pub open spec fn run_state(st: RecvState, dgs: Seq<Seq<u8>>, order: Seq<int>, j: int) -> RecvState
    decreases j,
{
    if j <= 0 {
        st
    } else {
        spec_step(run_state(st, dgs, order, j - 1), dgs[order[j - 1]]).0
    }
}

/// A byte position `p` lies in the chunk of fragment `i` exactly when
/// `p / 8980 == i`.
proof fn lemma_div_range(p: int, i: int)
    requires
        0 <= p,
        0 <= i,
    ensures
        (p / 8980 == i) <==> (i * 8980 <= p < (i + 1) * 8980),
{
    vstd::arithmetic::div_mod::lemma_fundamental_div_mod(p, 8980);
    if i * 8980 <= p < (i + 1) * 8980 {
        vstd::arithmetic::div_mod::lemma_fundamental_div_mod_converse(p, 8980, i, p - i * 8980);
    }
}

/// Every byte position of an `n`-fragment payload falls in a valid fragment.
proof fn lemma_position_fragment(p: int, len: int, n: int)
    requires
        0 <= p < len,
        len <= 8980 * n,
    ensures
        0 <= p / 8980 < n,
{
    vstd::arithmetic::div_mod::lemma_fundamental_div_mod(p, 8980);
    lemma_div_range(p, p / 8980);
}

/// Duplicates contribute nothing: a datagram of the sequence being
/// reassembled whose fragment has already arrived returns no payload and
/// leaves the whole reassembly state as it was (only the latched source time
/// may move, when the duplicate is fragment 0).
pub proof fn lemma_duplicate_dropped(st: RecvState, data: Seq<u8>)
    requires
        data.len() >= HEADER_SIZE,
        st.current_sequence == Some(spec_parse_header(data).sequence),
        spec_parse_header(data).fragment < st.fragments.len(),
        st.fragments[spec_parse_header(data).fragment as int],
    ensures
        spec_step(st, data).1 is None,
        spec_step(st, data).0.buffer == st.buffer,
        spec_step(st, data).0.fragments == st.fragments,
        spec_step(st, data).0.current_sequence == st.current_sequence,
        spec_step(st, data).0.received_fragments == st.received_fragments,
        spec_step(st, data).0.total_fragments == st.total_fragments,
        spec_step(st, data).0.payload_size == st.payload_size,
{
    reveal(spec_step);
}

/// A payload only comes back from the call that supplies the last missing
/// fragment: on `Some`, the fragment was new and its arrival made the
/// received count reach the sequence's total.
pub proof fn lemma_completion_needs_all_fragments(st: RecvState, data: Seq<u8>)
    requires
        spec_step(st, data).1 is Some,
    ensures
        data.len() >= HEADER_SIZE,
        spec_step(st, data).0.current_sequence is None,
        spec_step(st, data).0.received_fragments == spec_step(st, data).0.total_fragments,
        spec_step(st, data).1 == Some(
            spec_step(st, data).0.buffer.subrange(
                0,
                spec_step(st, data).0.payload_size as int,
            ),
        ),
{
    reveal(spec_step);
}

/// Round trip for a payload that fits one datagram: feeding the single
/// datagram of a send to a receiver that is not mid-way through that same
/// sequence returns the payload, reports a sequence change, latches the
/// source time, and leaves the receiver ready for a fresh sequence.
pub proof fn lemma_single_fragment_round_trip(st: RecvState, sequence: u32, data: Seq<u8>, t: u64)
    requires
        0 < data.len() <= 8980,
        st.current_sequence != Some(sequence),
    ensures
        ({
            let dg = spec_datagram(sequence, 0, data, t);
            let (post, out, changed) = spec_step(st, dg);
            &&& out == Some(data)
            &&& changed
            &&& post.last_source_time_us == t
            &&& post.current_sequence is None
        }),
{
    reveal(spec_step);
    reveal(spec_datagram);
    let len = data.len() as int;
    let h = DatagramHeader {
        sequence,
        fragment: 0,
        fragments: num_fragments(len) as u16,
        payload_size: data.len() as u32,
        source_time_us: t,
    };
    assert(num_fragments(len) == 1);
    lemma_header_roundtrip(h, crate::protocol::spec_chunk(data, 0));
    let dg = spec_datagram(sequence, 0, data, t);
    assert(crate::protocol::spec_chunk(data, 0) =~= data);
    assert(dg == spec_header_bytes(h) + data);
    assert(spec_parse_header(dg) == h);
    let (post, out, changed) = spec_step(st, dg);
    assert(dg.subrange(HEADER_SIZE as int, dg.len() as int) =~= data);
    let buf0 = Seq::new(data.len(), |k: int| 0u8);
    assert(buf0.subrange(0, 0) + dg.subrange(HEADER_SIZE as int, dg.len() as int)
        + buf0.subrange(len, len) =~= data);
    assert(out == Some(data.subrange(0, len)));
    assert(data.subrange(0, len) =~= data);
}

/// Prefix membership grows one entry at a time.
proof fn lemma_in_prefix_extend(order: Seq<int>, j: int, i: int)
    requires
        1 <= j,
    ensures
        in_prefix(order, j, i) <==> (in_prefix(order, j - 1, i) || order[j - 1] == i),
{
    if in_prefix(order, j, i) {
        let x = choose|x: int| 0 <= x < j && order[x] == i;
        if x < j - 1 {
            assert(in_prefix(order, j - 1, i));
        }
    }
    if in_prefix(order, j - 1, i) {
        let x = choose|x: int| 0 <= x < j - 1 && order[x] == i;
        assert(0 <= x < j && order[x] == i);
    }
    if order[j - 1] == i {
        assert(0 <= j - 1 < j && order[j - 1] == i);
    }
}

/// The delivery invariant: after any positive number of deliveries drawn
/// from one send's datagrams that do not yet cover every fragment, the
/// receiver is mid-way through that sequence, its bit-set records exactly
/// the fragment indices delivered so far, every recorded fragment's bytes
/// sit at their place in the buffer, the source time is latched exactly when
/// fragment 0 has been seen, and the latest delivery returned no payload and
/// flagged a change exactly when it carried fragment 0.
proof fn lemma_delivery_invariant(
    st0: RecvState,
    sequence: u32,
    data: Seq<u8>,
    t: u64,
    order: Seq<int>,
    j: int,
)
    requires
        recv_wf(st0),
        st0.current_sequence != Some(sequence),
        0 < data.len() <= 8980 * 65535,
        1 <= j <= order.len(),
        forall|x: int| 0 <= x < j ==> 0 <= #[trigger] order[x] < num_fragments(data.len() as int),
        exists|i: int|
            0 <= i < num_fragments(data.len() as int) && !in_prefix(order, j, i),
    ensures
        ({
            let n = num_fragments(data.len() as int);
            let dgs = spec_datagrams(sequence, data, t);
            let s = run_state(st0, dgs, order, j);
            &&& s.current_sequence == Some(sequence)
            &&& s.total_fragments as int == n
            &&& s.payload_size as int == data.len()
            &&& s.fragments.len() == n
            &&& s.buffer.len() == data.len()
            &&& s.received_fragments as int == crate::protocol::count_true(s.fragments)
            &&& forall|i: int| 0 <= i < n ==> ((#[trigger] s.fragments[i]) <==> in_prefix(order, j, i))
            &&& forall|p: int|
                0 <= p < data.len() && s.fragments[p / 8980] ==> #[trigger] s.buffer[p] == data[p]
            &&& s.last_source_time_us == if in_prefix(order, j, 0) {
                t
            } else {
                st0.last_source_time_us
            }
            &&& spec_step(run_state(st0, dgs, order, j - 1), dgs[order[j - 1]]).1 is None
            &&& spec_step(run_state(st0, dgs, order, j - 1), dgs[order[j - 1]]).2 == (order[j - 1]
                == 0)
        }),
    decreases j,
{
    reveal(spec_step);
    let n = num_fragments(data.len() as int);
    let len = data.len() as int;
    let dgs = spec_datagrams(sequence, data, t);
    let i0 = order[j - 1];
    let dg = dgs[i0];
    lemma_datagram_facts(sequence, data, t, i0);
    let h = spec_parse_header(dg);
    let csize = spec_chunk(data, i0).len();
    let off = i0 * 8980;
    let pre = run_state(st0, dgs, order, j - 1);
    // A fragment still missing after these j deliveries is missing after the
    // first j-1 of them too.
    let miss = choose|i: int| 0 <= i < n && !in_prefix(order, j, i);
    assert(!in_prefix(order, j - 1, miss) && miss != i0) by {
        lemma_in_prefix_extend(order, j, miss);
    }
    let latched = if h.fragment == 0 {
        RecvState { last_source_time_us: h.source_time_us, ..pre }
    } else {
        pre
    };
    let st_mid = if pre.current_sequence != Some(h.sequence) {
        spec_start_new(latched, h)
    } else {
        latched
    };

    // Facts about the state just after the latch and (first time round) the
    // per-sequence reset: the bit-set records the first j-1 deliveries.
    if j == 1 {
        assert(pre == st0);
        assert(st_mid == spec_start_new(latched, h));
        crate::protocol::lemma_count_true_all_false(st_mid.fragments);
        assert forall|i: int| 0 <= i < n implies ((#[trigger] st_mid.fragments[i]) <==> in_prefix(
            order,
            0,
            i,
        )) by {
            assert(!st_mid.fragments[i]);
        }
    } else {
        lemma_delivery_invariant(st0, sequence, data, t, order, j - 1);
        assert(pre.current_sequence == Some(h.sequence));
        assert(st_mid == latched);
    }
    assert(st_mid.current_sequence == Some(sequence));
    assert(st_mid.total_fragments as int == n);
    assert(st_mid.payload_size as int == len);
    assert(st_mid.fragments.len() == n);
    assert(st_mid.buffer.len() == len);
    assert(st_mid.received_fragments as int == crate::protocol::count_true(st_mid.fragments));
    assert(forall|i: int|
        0 <= i < n ==> ((#[trigger] st_mid.fragments[i]) <==> in_prefix(order, j - 1, i)));
    assert forall|p: int|
        0 <= p < len && st_mid.fragments[p / 8980] implies #[trigger] st_mid.buffer[p] == data[p]
    by {
        lemma_position_fragment(p, len, n);
        if j == 1 {
            assert(!st_mid.fragments[p / 8980]);
        }
    }
    assert(st_mid.last_source_time_us == if i0 == 0 {
        t
    } else {
        if in_prefix(order, j - 1, 0) {
            t
        } else {
            st0.last_source_time_us
        }
    });

    // The datagram passes validation: consistent header, index in range.
    assert(h.fragments != 0 && h.fragment < h.fragments);
    assert((h.fragment as int) < st_mid.fragments.len());
    lemma_in_prefix_extend(order, j, i0);

    if st_mid.fragments[i0] {
        // A duplicate: dropped, nothing but the latch moves.
        assert(spec_step(pre, dg) == (st_mid, None::<Seq<u8>>, i0 == 0));
        assert(run_state(st0, dgs, order, j) == st_mid);
        assert forall|i: int| 0 <= i < n implies ((#[trigger] st_mid.fragments[i]) <==> in_prefix(
            order,
            j,
            i,
        )) by {
            lemma_in_prefix_extend(order, j, i);
        }
        assert(in_prefix(order, j, 0) == if i0 == 0 {
            true
        } else {
            in_prefix(order, j - 1, 0)
        });
    } else {
        // A new fragment: its bytes are written at its offset.
        assert(off + csize <= st_mid.buffer.len());
        let wrote = st_mid.buffer.subrange(0, off) + dg.subrange(
            HEADER_SIZE as int,
            dg.len() as int,
        ) + st_mid.buffer.subrange(off + csize, st_mid.buffer.len() as int);
        let st2 = RecvState {
            buffer: wrote,
            fragments: st_mid.fragments.update(i0, true),
            received_fragments: (st_mid.received_fragments + 1) as u16,
            ..st_mid
        };
        crate::protocol::lemma_count_true_update(st_mid.fragments, i0);
        crate::protocol::lemma_count_true_le(st2.fragments);

        // Not every fragment is covered yet, so this delivery cannot
        // complete the sequence.
        assert(!st2.fragments[miss]);
        crate::protocol::lemma_count_true_missing(st2.fragments, miss);
        assert(st2.received_fragments as int == crate::protocol::count_true(st2.fragments));
        assert(st2.received_fragments != st2.total_fragments);

        assert(spec_step(pre, dg) == (st2, None::<Seq<u8>>, i0 == 0));
        assert(run_state(st0, dgs, order, j) == st2);

        assert(st2.buffer.len() == len);
        assert forall|i: int| 0 <= i < n implies ((#[trigger] st2.fragments[i]) <==> in_prefix(
            order,
            j,
            i,
        )) by {
            lemma_in_prefix_extend(order, j, i);
        }
        assert forall|p: int|
            0 <= p < len && st2.fragments[p / 8980] implies #[trigger] st2.buffer[p] == data[p]
        by {
            lemma_position_fragment(p, len, n);
            let ip = p / 8980;
            lemma_div_range(p, ip);
            if ip == i0 {
                assert(off <= p < off + csize);
                assert(st2.buffer[p] == spec_chunk(data, i0)[p - off]);
                assert(spec_chunk(data, i0)[p - i0 * 8980] == data[p]);
            } else {
                assert(st2.fragments[ip] == st_mid.fragments[ip]);
                assert(p < off || p >= off + csize);
                assert(st2.buffer[p] == st_mid.buffer[p]);
                assert(st_mid.buffer[p] == data[p]);
            }
        }
        assert(in_prefix(order, j, 0) == if i0 == 0 {
            true
        } else {
            in_prefix(order, j - 1, 0)
        });
    }
}

/// Prefix membership is monotone in the prefix length.
proof fn lemma_in_prefix_mono(order: Seq<int>, a: int, b: int, i: int)
    requires
        a <= b,
        in_prefix(order, a, i),
    ensures
        in_prefix(order, b, i),
{
    let x = choose|x: int| 0 <= x < a && order[x] == i;
    assert(0 <= x < b && order[x] == i);
}

/// The delivery that brings the one fragment still missing completes the
/// sequence: the receiver hands back exactly the sent payload and stands
/// ready for a fresh sequence.
proof fn lemma_completing_delivery(
    pre: RecvState,
    sequence: u32,
    data: Seq<u8>,
    t: u64,
    i0: int,
)
    requires
        0 < data.len() <= 8980 * 65535,
        0 <= i0 < num_fragments(data.len() as int),
        pre.current_sequence == Some(sequence),
        pre.total_fragments as int == num_fragments(data.len() as int),
        pre.payload_size as int == data.len(),
        pre.fragments.len() == num_fragments(data.len() as int),
        pre.buffer.len() == data.len(),
        pre.received_fragments as int == crate::protocol::count_true(pre.fragments),
        !pre.fragments[i0],
        forall|i: int|
            0 <= i < num_fragments(data.len() as int) && i != i0 ==> #[trigger] pre.fragments[i],
        forall|p: int|
            0 <= p < data.len() && pre.fragments[p / 8980] ==> #[trigger] pre.buffer[p] == data[p],
    ensures
        ({
            let (post, out, changed) = spec_step(pre, spec_datagram(sequence, i0, data, t));
            &&& out == Some(data)
            &&& changed == (i0 == 0)
            &&& post.current_sequence is None
            &&& post.last_source_time_us == if i0 == 0 {
                t
            } else {
                pre.last_source_time_us
            }
        }),
{
    reveal(spec_step);
    let n = num_fragments(data.len() as int);
    let len = data.len() as int;
    lemma_datagram_facts(sequence, data, t, i0);
    let dg = spec_datagram(sequence, i0, data, t);
    let h = spec_parse_header(dg);
    let csize = spec_chunk(data, i0).len();
    let off = i0 * 8980;
    let st_mid = if h.fragment == 0 {
        RecvState { last_source_time_us: h.source_time_us, ..pre }
    } else {
        pre
    };
    assert(off + csize <= st_mid.buffer.len());
    let wrote = st_mid.buffer.subrange(0, off) + dg.subrange(HEADER_SIZE as int, dg.len() as int)
        + st_mid.buffer.subrange(off + csize, st_mid.buffer.len() as int);
    let st2 = RecvState {
        buffer: wrote,
        fragments: st_mid.fragments.update(i0, true),
        received_fragments: (st_mid.received_fragments + 1) as u16,
        ..st_mid
    };
    crate::protocol::lemma_count_true_update(st_mid.fragments, i0);
    crate::protocol::lemma_count_true_le(st2.fragments);
    crate::protocol::lemma_count_true_all_true(st2.fragments);
    assert(st2.received_fragments == st2.total_fragments);

    let done = RecvState { current_sequence: None, ..st2 };
    assert(spec_step(pre, dg) == (done, Some(st2.buffer.subrange(0, len)), i0 == 0));

    // The reassembled buffer is the payload, byte for byte.
    assert(st2.buffer.len() == len);
    assert forall|p: int| 0 <= p < len implies #[trigger] st2.buffer[p] == data[p] by {
        lemma_position_fragment(p, len, n);
        let ip = p / 8980;
        lemma_div_range(p, ip);
        if ip == i0 {
            assert(off <= p < off + csize);
            assert(st2.buffer[p] == spec_chunk(data, i0)[p - off]);
            assert(spec_chunk(data, i0)[p - i0 * 8980] == data[p]);
        } else {
            assert(pre.fragments[ip]);
            assert(p < off || p >= off + csize);
            assert(st2.buffer[p] == st_mid.buffer[p]);
            assert(pre.buffer[p] == data[p]);
        }
    }
    assert(st2.buffer.subrange(0, len) =~= data);
}

/// The round trip, for any delivery order. Feed a receiver that is not
/// mid-way through sequence `sequence` the datagrams of one send of `data`
/// stamped `t`, in any order and with any of them repeated, such that every
/// fragment index occurs and the final delivery brings the last fragment
/// still missing. Then: every call before the last returns no payload; the
/// last call returns exactly `data`; every call reports a sequence change
/// exactly when its datagram carries fragment 0; and afterwards the source
/// time reads `t` and the receiver awaits a fresh sequence. In-order
/// delivery, any permutation, and duplication of any datagrams before the
/// completing call are all instances.
#[verifier::rlimit(50)]
pub proof fn lemma_round_trip(
    st0: RecvState,
    sequence: u32,
    data: Seq<u8>,
    t: u64,
    order: Seq<int>,
)
    requires
        recv_wf(st0),
        st0.current_sequence != Some(sequence),
        0 < data.len() <= 8980 * 65535,
        order.len() >= 1,
        forall|x: int|
            0 <= x < order.len() ==> 0 <= #[trigger] order[x] < num_fragments(data.len() as int),
        forall|i: int|
            0 <= i < num_fragments(data.len() as int) ==> in_prefix(
                order,
                order.len() as int,
                i,
            ),
        !in_prefix(order, order.len() - 1, order[order.len() - 1]),
    ensures
        ({
            let dgs = spec_datagrams(sequence, data, t);
            let last = order.len() - 1;
            &&& forall|x: int|
                0 <= x < last ==> (#[trigger] spec_step(
                    run_state(st0, dgs, order, x),
                    dgs[order[x]],
                ).1) is None
            &&& forall|x: int|
                0 <= x < order.len() ==> (#[trigger] spec_step(
                    run_state(st0, dgs, order, x),
                    dgs[order[x]],
                ).2) == (order[x] == 0)
            &&& spec_step(run_state(st0, dgs, order, last), dgs[order[last]]).1 == Some(data)
            &&& run_state(st0, dgs, order, order.len() as int).current_sequence is None
            &&& run_state(st0, dgs, order, order.len() as int).last_source_time_us == t
        }),
{
    let n = num_fragments(data.len() as int);
    let len = data.len() as int;
    let dgs = spec_datagrams(sequence, data, t);
    let last = order.len() - 1;
    let i0 = order[last];
    lemma_num_fragments_bounds(len);
    assert(dgs[i0] == spec_datagram(sequence, i0, data, t));

    // Every delivery before the completing one is covered by the invariant.
    assert forall|x: int| 0 <= x < last implies {
        &&& (#[trigger] spec_step(run_state(st0, dgs, order, x), dgs[order[x]]).1) is None
        &&& spec_step(run_state(st0, dgs, order, x), dgs[order[x]]).2 == (order[x] == 0)
    } by {
        assert(!in_prefix(order, x + 1, i0)) by {
            if in_prefix(order, x + 1, i0) {
                lemma_in_prefix_mono(order, x + 1, last, i0);
            }
        }
        lemma_delivery_invariant(st0, sequence, data, t, order, x + 1);
    }

    let pre = run_state(st0, dgs, order, last);
    if last == 0 {
        // A single delivery covers everything, so the send had one fragment.
        assert(n == 1) by {
            assert(in_prefix(order, 1, 0));
            let x = choose|x: int| 0 <= x < 1 && order[x] == 0;
            if n >= 2 {
                assert(in_prefix(order, 1, 1));
                let y = choose|y: int| 0 <= y < 1 && order[y] == 1;
            }
        }
        assert(i0 == 0);
        assert(pre == st0);
        lemma_single_fragment_round_trip(st0, sequence, data, t);
    } else {
        lemma_delivery_invariant(st0, sequence, data, t, order, last);
        assert(!pre.fragments[i0]);
        assert forall|i: int| 0 <= i < n && i != i0 implies #[trigger] pre.fragments[i] by {
            assert(in_prefix(order, order.len() as int, i));
            lemma_in_prefix_extend(order, order.len() as int, i);
        }
        lemma_completing_delivery(pre, sequence, data, t, i0);
        // Fragment 0 has been seen, so the send's source time is latched.
        if i0 != 0 {
            assert(in_prefix(order, order.len() as int, 0));
            lemma_in_prefix_extend(order, order.len() as int, 0);
            assert(in_prefix(order, last, 0));
        }
    }
    assert forall|x: int| 0 <= x < order.len() implies (#[trigger] spec_step(
        run_state(st0, dgs, order, x),
        dgs[order[x]],
    ).2) == (order[x] == 0) by {
        if x < last {
            assert(!in_prefix(order, x + 1, i0)) by {
                if in_prefix(order, x + 1, i0) {
                    lemma_in_prefix_mono(order, x + 1, last, i0);
                }
            }
            lemma_delivery_invariant(st0, sequence, data, t, order, x + 1);
        } else {
            assert(x == last);
            assert(spec_step(pre, dgs[i0]).2 == (i0 == 0));
        }
    }
}

/// In-order delivery is an instance of the round trip: feeding the
/// datagrams of one send in emission order, each exactly once, yields no
/// payload until the last call, which returns exactly the sent payload; only
/// the first call reports a sequence change.
pub proof fn lemma_in_order_round_trip(st0: RecvState, sequence: u32, data: Seq<u8>, t: u64)
    requires
        recv_wf(st0),
        st0.current_sequence != Some(sequence),
        0 < data.len() <= 8980 * 65535,
    ensures
        ({
            let n = num_fragments(data.len() as int);
            let dgs = spec_datagrams(sequence, data, t);
            let order = Seq::new(n as nat, |i: int| i);
            &&& forall|x: int|
                0 <= x < n - 1 ==> (#[trigger] spec_step(
                    run_state(st0, dgs, order, x),
                    dgs[x],
                ).1) is None
            &&& forall|x: int|
                0 <= x < n ==> (#[trigger] spec_step(run_state(st0, dgs, order, x), dgs[x]).2) == (
                x == 0)
            &&& spec_step(run_state(st0, dgs, order, n - 1), dgs[n - 1]).1 == Some(data)
            &&& run_state(st0, dgs, order, n).last_source_time_us == t
        }),
{
    let n = num_fragments(data.len() as int);
    let dgs = spec_datagrams(sequence, data, t);
    let order = Seq::new(n as nat, |i: int| i);
    lemma_num_fragments_bounds(data.len() as int);
    assert forall|i: int| 0 <= i < n implies in_prefix(order, n, i) by {
        assert(order[i] == i);
    }
    assert(!in_prefix(order, n - 1, order[n - 1])) by {
        if in_prefix(order, n - 1, order[n - 1]) {
            let x = choose|x: int| 0 <= x < n - 1 && (#[trigger] order[x]) == order[n - 1];
        }
    }
    lemma_round_trip(st0, sequence, data, t, order);
    assert forall|x: int| 0 <= x < n - 1 implies (#[trigger] spec_step(
        run_state(st0, dgs, order, x),
        dgs[x],
    ).1) is None by {
        assert(order[x] == x);
        assert(spec_step(run_state(st0, dgs, order, x), dgs[order[x]]).1 is None);
    }
    assert forall|x: int| 0 <= x < n implies (#[trigger] spec_step(
        run_state(st0, dgs, order, x),
        dgs[x],
    ).2) == (x == 0) by {
        assert(order[x] == x);
        assert(spec_step(run_state(st0, dgs, order, x), dgs[order[x]]).2 == (order[x] == 0));
    }
    assert(order[n - 1] == n - 1);
    assert(spec_step(run_state(st0, dgs, order, n - 1), dgs[order[n - 1]]).1 == Some(data));
}

/// The sequence number a sender holds after `k` further successful sends.
pub open spec fn seq_after_sends(s: u32, k: int) -> u32
    decreases k,
{
    if k <= 0 {
        s
    } else {
        seq_succ(seq_after_sends(s, k - 1))
    }
}

/// Sequence numbers across successive successful sends are consecutive
/// modulo 2^32: starting from `s`, the `k`-th send is stamped `s + k`
/// (mod 2^32). (Each successful `Sender::send` stamps its datagrams with the
/// held sequence and then advances it by `seq_succ`.)
pub proof fn lemma_sequence_monotonic(s: u32, k: int)
    requires
        0 <= k,
    ensures
        seq_after_sends(s, k) == ((s + k) % 0x1_0000_0000) as u32,
    decreases k,
{
    if k > 0 {
        lemma_sequence_monotonic(s, k - 1);
    }
}

/// Every datagram of one send is stamped with the sender's sequence number:
/// parsing the wire bytes of fragment `i` gives back the header the sender
/// wrote, fragment index and totals included.
pub proof fn lemma_datagram_header(sequence: u32, data: Seq<u8>, source_time_us: u64, i: int)
    requires
        0 <= i < num_fragments(data.len() as int),
        num_fragments(data.len() as int) <= 65535,
        data.len() < 0x1_0000_0000,
    ensures
        spec_datagrams(sequence, data, source_time_us).len() == num_fragments(data.len() as int),
        spec_parse_header(spec_datagrams(sequence, data, source_time_us)[i]) == (DatagramHeader {
            sequence,
            fragment: i as u16,
            fragments: num_fragments(data.len() as int) as u16,
            payload_size: data.len() as u32,
            source_time_us,
        }),
{
    reveal(spec_datagram);
    let h = DatagramHeader {
        sequence,
        fragment: i as u16,
        fragments: num_fragments(data.len() as int) as u16,
        payload_size: data.len() as u32,
        source_time_us,
    };
    lemma_header_roundtrip(h, crate::protocol::spec_chunk(data, i));
}

} // verus!
