//! The search for the MTU at work: which packets are probes, and what is
//! learnt from what becomes of them.

use crate::addr::SocketAddr;
use crate::clock::Now;
use crate::engine::measure::Fields;
use crate::engine::model::{data_sent, packet_sent, St};
use crate::engine::mtu::{lemma_search_keeps_order, Mtu};
use crate::engine::queue::lemma_queue_at;
use crate::engine::state::{ConnState, SockView};
use crate::engine::timers::{due_handled, lemma_backed_off, retried, rto_handled};
use vstd::prelude::*;

verus! {

/// The largest datagram that is tried on the way to `addr`.
pub open spec fn largest(addr: SocketAddr) -> int {
    if addr is V6 {
        1232
    } else {
        1402
    }
}

/// The sizes that the search is still open about when a packet goes out at
/// `now_ms`: from above the first to the second. A search whose time has come
/// begins anew.
pub open spec fn open_range(s: SockView, now_ms: u64) -> (int, int) {
    if s.mtu.discover_time < now_ms {
        (576, largest(s.peer.key.addr))
    } else {
        (s.mtu.floor as int, s.mtu.ceiling as int)
    }
}

/// A packet that goes out for the first time, with a size that the search is
/// open about, while no probe is under way, is the probe; no other packet is.
/// Sending settles nothing about the range itself.
pub proof fn lemma_probe_is_noted(st: St, seq: u16)
    requires
        st.s.send_wf(),
        st.s.mtu.wf(),
        st.s.packet_at(seq) is Some,
    ensures
        ({
            let p = st.s.packet_at(seq)->0;
            let (floor, ceiling) = open_range(st.s, st.io.now.ms);
            let newest = (st.s.send.seq_nr - 1) % 0x10000;
            let before = st.s.mtu;
            let after = packet_sent(st, seq).s.mtu;
            &&& p.transmissions == 0 && before.probe_seq == 0 && newest != 0 && floor
                < p.data.len() <= ceiling ==> after.probe_seq == newest && after.probe_size
                == p.data.len()
            &&& p.transmissions > 0 || before.probe_seq != 0 || newest == 0 || !(floor
                < p.data.len() <= ceiling) ==> after.probe_seq == before.probe_seq
                && after.probe_size == before.probe_size
            &&& after.floor == floor
            &&& after.ceiling == ceiling
            &&& after.last == before.last
            &&& before.discover_time >= st.io.now.ms ==> after.discover_time
                == before.discover_time
            &&& before.discover_time < st.io.now.ms && st.io.now.ms < 0x8000_0000_0000_0000
                ==> after.discover_time == st.io.now.ms + 1_800_000
        }),
{
    reveal(packet_sent);
    reveal(data_sent);
    lemma_queue_at(
        st.s.outbuf,
        st.s.send.seq_nr,
        st.s.send.cur_window_packets,
        st.s.send.cur_window,
        seq as int,
    );
}

/// A full packet, sent while the search is open about its size, makes a probe.
pub proof fn lemma_full_packet_probes(st: St, seq: u16)
    requires
        st.s.send_wf(),
        st.s.mtu.wf(),
        st.s.packet_at(seq) is Some,
        st.s.packet_at(seq)->0.transmissions == 0,
        st.s.packet_at(seq)->0.data.len() == st.s.mtu.last,
        st.s.mtu.discover_time >= st.io.now.ms,
        st.s.mtu.floor < st.s.mtu.last <= st.s.mtu.ceiling,
        st.s.mtu.probe_seq == 0,
        st.s.send.seq_nr != 1,
    ensures
        packet_sent(st, seq).s.mtu.probe_seq == (st.s.send.seq_nr - 1) % 0x10000,
        packet_sent(st, seq).s.mtu.probe_size == st.s.mtu.last,
{
    lemma_queue_at(
        st.s.outbuf,
        st.s.send.seq_nr,
        st.s.send.cur_window_packets,
        st.s.send.cur_window,
        seq as int,
    );
    lemma_probe_is_noted(st, seq);
}

/// What the search is left with once all sizes up to `floor` are known to get
/// through and all above `ceiling` not to: the next size to try lies in the
/// middle, unless the two are so close that the floor will do. Then it rests for
/// half an hour.
pub open spec fn settled_on(m: Mtu, floor: int, ceiling: int, now_ms: u64) -> bool {
    &&& m.probe_seq == 0
    &&& m.floor == floor
    &&& ceiling - floor > 16 ==> m.ceiling == ceiling && m.last == (floor + ceiling) / 2
    &&& ceiling - floor <= 16 ==> m.ceiling == floor && m.last == floor && m.discover_time
        == now_ms.wrapping_add(1_800_000)
}

/// Where the probe is among the packets that a tally looks at, the tally finds
/// it; where it is not, nothing is learnt.
proof fn lemma_tally_finds(s: SockView, now: Now, n: int, probe: u16)
    requires
        s.mtu.wf(),
        s.mtu.probe_seq == probe,
        probe != 0,
        s.was_sent(probe),
        0 <= n <= 0x8000,
    ensures
        (probe - s.oldest_seq()) % 0x10000 < n ==> s.tallied(now, n).mtu == s.mtu.probe_acked(
            now.ms,
        ),
        (probe - s.oldest_seq()) % 0x10000 >= n ==> s.tallied(now, n).mtu == s.mtu,
    decreases n,
{
    if n > 0 {
        lemma_tally_finds(s, now, n - 1, probe);
        let seq = s.oldest_seq().wrapping_add((n - 1) as u16);
        assert((seq - s.oldest_seq()) % 0x10000 == n - 1);
        if (probe - s.oldest_seq()) % 0x10000 == n - 1 {
            assert(seq == probe);
        } else {
            assert(seq != probe);
        }
    }
}

/// How many packets an ack covers, counted from before the oldest.
pub proof fn lemma_acks_counted(s: SockView, ack_nr: u16)
    ensures
        ({
            let n = (ack_nr - (s.send.seq_nr - s.send.cur_window_packets - 1)) % 0x10000;
            &&& s.acks_of(ack_nr) == (if n <= s.send.cur_window_packets {
                n
            } else {
                0
            })
            &&& ack_nr == s.oldest_seq().wrapping_sub(1) <==> n == 0
            &&& s.oldest_seq() == (s.send.seq_nr - s.send.cur_window_packets) % 0x10000
        }),
{
}

/// A probe that is acked got through: the floor is the probe's size, and the
/// range above it is what the search is still open about.
pub proof fn lemma_acked_probe_raises_floor(
    s: SockView,
    f: Fields,
    selack: Option<Seq<u8>>,
    now: Now,
    current_ms: u64,
    probe: u16,
)
    requires
        s.send_wf(),
        s.mtu.wf(),
        s.mtu.probe_seq == probe,
        probe != 0,
        s.packet_at(probe) is Some,
        s.packet_at(probe)->0.transmissions > 0,
        s.mtu.probe_size <= s.mtu.ceiling,
        // the probe is one of the packets that are acked
        (probe - (s.send.seq_nr - s.send.cur_window_packets)) % 0x10000 < (f.ack_nr - (s.send.seq_nr
            - s.send.cur_window_packets - 1)) % 0x10000 <= s.send.cur_window_packets,
    ensures
        settled_on(
            s.measured(f, selack, now, current_ms).mtu,
            s.mtu.probe_size as int,
            s.mtu.ceiling as int,
            now.ms,
        ),
{
    lemma_queue_at(
        s.outbuf,
        s.send.seq_nr,
        s.send.cur_window_packets,
        s.send.cur_window,
        0,
    );
    let n = (f.ack_nr - (s.send.seq_nr - s.send.cur_window_packets - 1)) % 0x10000;
    let t = s.duplicates_counted(f, now.ms);
    lemma_acks_counted(s, f.ack_nr);
    lemma_acks_counted(t, f.ack_nr);
    assert((probe - s.oldest_seq()) % 0x10000 < n);
    assert(t.was_sent(probe));
    lemma_tally_finds(t, now, n, probe);
    let m = t.mtu.probe_acked(now.ms);
    assert(settled_on(m, s.mtu.probe_size as int, s.mtu.ceiling as int, now.ms));
    assert(s.measured(f, selack, now, current_ms).mtu == m) by {
        reveal(SockView::measured);
    }
}

/// A third ack in a row that tells of nothing new, while the packet that it
/// waits for is the probe, is taken to mean that the probe was too large. If
/// another packet is waited for, nothing is learnt, and another probe is tried.
pub proof fn lemma_held_up_probe_lowers_ceiling(
    s: SockView,
    f: Fields,
    selack: Option<Seq<u8>>,
    now: Now,
    current_ms: u64,
)
    requires
        s.send_wf(),
        s.mtu.wf(),
        s.mtu.probe_seq != 0,
        s.mtu.probe_seq <= 0xffff,
        s.mtu.floor < s.mtu.probe_size,
        s.send.cur_window_packets > 0,
        f.packet_type == 2,
        (f.ack_nr - (s.send.seq_nr - s.send.cur_window_packets - 1)) % 0x10000 == 0,
        s.send.duplicate_ack == 2,
    ensures
        ({
            let after = s.measured(f, selack, now, current_ms);
            &&& after.send.duplicate_ack == 3
            &&& s.mtu.probe_seq == (f.ack_nr + 1) % 0x10000 ==> settled_on(
                after.mtu,
                s.mtu.floor as int,
                s.mtu.probe_size - 1,
                now.ms,
            )
            &&& s.mtu.probe_seq != (f.ack_nr + 1) % 0x10000 ==> after.mtu == (Mtu {
                probe_seq: 0,
                probe_size: 0,
                ..s.mtu
            })
        }),
{
    reveal(SockView::measured);
    lemma_queue_at(
        s.outbuf,
        s.send.seq_nr,
        s.send.cur_window_packets,
        s.send.cur_window,
        0,
    );
    assert(f.ack_nr == s.oldest_seq().wrapping_sub(1));
    let x: u32 = s.mtu.probe_seq.wrapping_sub(1);
    assert(x & 0xffff == x % 0x10000) by (bit_vector);
    let t = s.duplicates_counted(f, now.ms);
    assert(t.acks_of(f.ack_nr) == 0);
}

/// When the retransmission timer runs out and nothing but the probe is
/// outstanding, the probe was too large: the ceiling goes below its size, and
/// no congestion is taken from it. The packet is sent again, and is no probe
/// any more.
pub proof fn lemma_lost_probe_lowers_ceiling(st: St)
    requires
        st.s.wf(),
        st.s.state == ConnState::Connected || st.s.state == ConnState::ConnectedFull,
        0 < st.s.send.rto_timeout <= st.io.current_ms,
        st.io.current_ms - st.s.send.rto_timeout < 0x8000_0000,
        st.s.send.retransmit_count < 4,
        st.s.send.cur_window_packets == 1,
        st.s.mtu.probe_seq == (st.s.send.seq_nr - 1) % 0x10000,
        st.s.mtu.probe_seq != 0,
        st.s.mtu.floor < st.s.mtu.probe_size,
        st.s.mtu.discover_time >= st.io.now.ms,
        st.io.now.ms < 0x8000_0000_0000_0000,
        st.s.packet_at((st.s.mtu.probe_seq as u16)) is Some,
        st.s.packet_at((st.s.mtu.probe_seq as u16))->0.transmissions > 0,
    ensures
        ({
            let after = due_handled(st);
            &&& settled_on(
                after.s.mtu,
                st.s.mtu.floor as int,
                st.s.mtu.probe_size - 1,
                st.io.now.ms,
            )
            &&& after.s.cwnd == st.s.cwnd
            &&& after.s.send.retransmit_timeout == st.s.send.retransmit_timeout
            &&& after.io.outgoing.len() == st.io.outgoing.len() + 1
        }),
{
    reveal(due_handled);
    reveal(rto_handled);
    reveal(retried);
    let w = st.s.window_probed(st.io.current_ms);
    let probe = st.s.mtu.probe_seq as u16;
    assert(w.only_probe_out());
    lemma_search_keeps_order(w.mtu, st.io.now.ms);
    let g = w.probe_given_up(st.io.now.ms);
    lemma_backed_off(g, st.io.current_ms, true);
    let b = g.backed_off(st.io.current_ms, true);
    assert(b.oldest_seq() == probe);
    lemma_queue_at(
        st.s.outbuf,
        st.s.send.seq_nr,
        st.s.send.cur_window_packets,
        st.s.send.cur_window,
        probe as int,
    );
    let r = St { s: b.retrying(), ..st };
    assert(r.s.packet_at(probe) is Some && r.s.packet_at(probe)->0.transmissions > 0);
    lemma_probe_is_noted(r, probe);
    reveal(packet_sent);
    reveal(data_sent);
}

/// Acks that tell of nothing new, in packets that hold nothing else, are
/// counted while something is outstanding; any other packet starts the count
/// over.
pub proof fn lemma_duplicate_acks_are_counted(
    s: SockView,
    f: Fields,
    selack: Option<Seq<u8>>,
    now: Now,
    current_ms: u64,
)
    requires
        s.send_wf(),
        s.send.cur_window_packets > 0,
        s.send.duplicate_ack < 255,
    ensures
        ({
            let same = (f.ack_nr - (s.send.seq_nr - s.send.cur_window_packets - 1)) % 0x10000 == 0;
            let after = s.measured(f, selack, now, current_ms).send.duplicate_ack;
            &&& same && f.packet_type == 2 ==> after == s.send.duplicate_ack + 1
            &&& !same || f.packet_type != 2 ==> after == 0
        }),
{
    reveal(SockView::measured);
    lemma_acks_counted(s, f.ack_nr);
}

} // verus!
