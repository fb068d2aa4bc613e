//! What is learnt about the path from the packets that come in: the delays in
//! both directions, and what they do to the window.

use crate::clock::Now;
use crate::delay_hist::lemma_first_sample_is_base;
use crate::engine::eack::bit_seq;
use crate::engine::measure::{lemma_tallied, skew_compensated, Fields};
use crate::engine::model::mask_bit;
use crate::engine::mtu::lemma_search_keeps_order;
use crate::engine::probing::lemma_acks_counted;
use crate::engine::queue::lemma_queue_at;
use crate::engine::recovery::{number_at, outstanding};
use crate::engine::state::SockView;
use crate::engine::window::effective_delay;
use crate::util::lemma_wrapping_less_32;
use vstd::prelude::*;

verus! {

/// How many packets an ack covers.
pub open spec fn acks_in(s: SockView, f: Fields) -> int {
    let n = (f.ack_nr - (s.send.seq_nr - s.send.cur_window_packets - 1)) % 0x10000;
    if n <= s.send.cur_window_packets {
        n
    } else {
        0
    }
}

/// Whether the packet reports a delay. (All bits but the highest set means that
/// there is none to report yet.)
pub open spec fn reports_delay(f: Fields) -> bool {
    f.reply_micro != 0 && f.reply_micro != 0x7fff_ffff
}

/// A packet that acks nothing, or reports no delay, leaves the congestion window
/// alone.
pub proof fn lemma_window_needs_acks(
    s: SockView,
    f: Fields,
    selack: Option<Seq<u8>>,
    now: Now,
    current_ms: u64,
)
    requires
        s.send_wf(),
        !reports_delay(f) || acks_in(s, f) == 0 && selack is None,
    ensures
        s.measured(f, selack, now, current_ms).cwnd == s.cwnd,
{
    reveal(SockView::measured);
    let t = s.duplicates_counted(f, now.ms);
    lemma_acks_counted(t, f.ack_nr);
}

/// An ack of one packet moves the congestion window by the bytes of that packet,
/// at the lowest of the delays that were reported of late, but no more than the
/// time that the packet took.
pub proof fn lemma_ack_moves_window(s: SockView, f: Fields, now: Now, current_ms: u64, p: u16)
    requires
        s.send_wf(),
        s.mtu.wf(),
        reports_delay(f),
        acks_in(s, f) == 1,
        p == (s.send.seq_nr - s.send.cur_window_packets) % 0x10000,
        s.packet_at(p) is Some,
        s.packet_at(p)->0.transmissions > 0,
        s.packet_at(p)->0.payload > 0,
        s.packet_at(p)->0.time_sent < now.us,
        now.us < 0x8000_0000_0000_0000,
    ensures
        ({
            let after = s.measured(f, None, now, current_ms);
            after.cwnd == s.cwnd.controlled(
                current_ms,
                s.packet_at(p)->0.payload,
                effective_delay(
                    after.our_hist.value(),
                    (now.us - s.packet_at(p)->0.time_sent) as i64,
                    after.drift.clock_drift,
                ),
                (after.mtu.last - 20) as usize,
            )
        }),
{
    let t = s.duplicates_counted(f, now.ms);
    lemma_acks_counted(s, f.ack_nr);
    lemma_acks_counted(t, f.ack_nr);
    lemma_queue_at(
        s.outbuf,
        s.send.seq_nr,
        s.send.cur_window_packets,
        s.send.cur_window,
        p as int,
    );
    assert(t.oldest_seq() == p);
    assert(t.oldest_seq().wrapping_add(0u16) == p);
    assert(t.was_sent(p));
    let one = t.tallied(now, 1);
    let none = t.tallied(now, 0);
    assert(one.bytes == s.packet_at(p)->0.payload);
    assert(one.rtt == now.us - s.packet_at(p)->0.time_sent);
    lemma_tallied(t, now, 1);
    reveal(SockView::measured);
}

/// The delay that a packet reports is kept as what it is over the lowest that
/// was reported: never less than nothing.
pub proof fn lemma_reported_delay_is_kept(
    s: SockView,
    f: Fields,
    selack: Option<Seq<u8>>,
    now: Now,
    current_ms: u64,
)
    requires
        s.send_wf(),
        s.our_hist.wf(),
        s.our_hist.sampled,
        reports_delay(f),
        f.tv_usec == 0,
    ensures
        ({
            let over = (f.reply_micro - s.our_hist.delay_base) % 0x1_0000_0000;
            let after = s.measured(f, selack, now, current_ms).our_hist;
            &&& over < 0x8000_0000 ==> after.cur[s.our_hist.cur_idx] == over
            &&& over > 0x8000_0000 ==> after.cur[s.our_hist.cur_idx] == 0
            &&& after.sampled
        }),
{
    reveal(SockView::measured);
    lemma_wrapping_less_32(f.reply_micro, s.our_hist.delay_base);
}

/// The first delay that is reported is what the later ones are held against.
pub proof fn lemma_first_reported_delay(
    s: SockView,
    f: Fields,
    now: Now,
    current_ms: u64,
)
    requires
        s.send_wf(),
        s.our_hist.wf(),
        !s.our_hist.sampled,
        reports_delay(f),
        acks_in(s, f) == 0,
    ensures
        ({
            let after = s.measured(f, None, now, current_ms).our_hist;
            &&& after.sampled
            &&& after.delay_base == f.reply_micro
            &&& after.value() == 0
        }),
{
    let t = s.duplicates_counted(f, now.ms);
    lemma_acks_counted(t, f.ack_nr);
    let noted = t.delays_noted(f, now, current_ms);
    let ours = skew_compensated(
        t.our_hist,
        t.their_hist.delay_base,
        noted.their_hist.delay_base,
    );
    lemma_first_sample_is_base(ours, f.reply_micro, current_ms);
    reveal(SockView::measured);
}

/// If the lowest delay of the peer's packets goes down, by no more than 10 ms,
/// the peer's clock is taken to run slower than ours, and ours is corrected by
/// as much in the other direction. Otherwise nothing is corrected.
pub proof fn lemma_skew_is_corrected(s: SockView, f: Fields, now: Now, current_ms: u64)
    requires
        s.send_wf(),
        s.our_hist.wf(),
        !reports_delay(f),
        acks_in(s, f) == 0,
    ensures
        ({
            let after = s.measured(f, None, now, current_ms);
            let down = (s.their_hist.delay_base - after.their_hist.delay_base) % 0x1_0000_0000;
            let by = if s.their_hist.delay_base != 0 && 0 < down <= 10000 {
                down
            } else {
                0
            };
            &&& (after.our_hist.delay_base - s.our_hist.delay_base) % 0x1_0000_0000 == by
            &&& forall|i: int| 0 <= i < 13 ==> (#[trigger] after.our_hist.base[i]
                - s.our_hist.base[i]) % 0x1_0000_0000 == by
            &&& after.our_hist.cur == s.our_hist.cur
        }),
{
    let t = s.duplicates_counted(f, now.ms);
    lemma_acks_counted(t, f.ack_nr);
    reveal(SockView::measured);
    let after = s.measured(f, None, now, current_ms);
    lemma_wrapping_less_32(after.their_hist.delay_base, s.their_hist.delay_base);
    let big = t.tallied(now, 0).rtt;
    assert(big == i64::MAX);
}

/// The peer's own packets are measured by the same clocks: their delay goes into
/// the history of the other direction.
pub proof fn lemma_peers_delay_is_kept(
    s: SockView,
    f: Fields,
    selack: Option<Seq<u8>>,
    now: Now,
    current_ms: u64,
)
    requires
        s.send_wf(),
        s.their_hist.wf(),
        s.their_hist.sampled,
        f.tv_usec != 0,
        (now.us - f.tv_usec) % 0x1_0000_0000 != 0,
    ensures
        ({
            let delay = (now.us - f.tv_usec) % 0x1_0000_0000;
            let over = (delay - s.their_hist.delay_base) % 0x1_0000_0000;
            let after = s.measured(f, selack, now, current_ms).their_hist;
            &&& over < 0x8000_0000 ==> after.cur[s.their_hist.cur_idx] == over
            &&& over > 0x8000_0000 ==> after.cur[s.their_hist.cur_idx] == 0
        }),
{
    reveal(SockView::measured);
    let us: u64 = now.us;
    assert(us as u32 == us % 0x1_0000_0000) by (bit_vector);
    let delay = f.their_delay(now);
    assert(delay == (now.us - f.tv_usec) % 0x1_0000_0000);
    lemma_wrapping_less_32(delay, s.their_hist.delay_base);
}

/// A delay cannot be longer than the round trip: if the lowest of late is, the
/// base that it was held against is moved up by the difference.
pub proof fn lemma_delay_is_brought_down(
    s: SockView,
    f: Fields,
    now: Now,
    current_ms: u64,
    p: u16,
)
    requires
        s.send_wf(),
        s.mtu.wf(),
        s.our_hist.wf(),
        s.our_hist.sampled,
        !reports_delay(f),
        f.tv_usec == 0,
        acks_in(s, f) == 1,
        p == (s.send.seq_nr - s.send.cur_window_packets) % 0x10000,
        s.packet_at(p) is Some,
        s.packet_at(p)->0.transmissions > 0,
        s.packet_at(p)->0.time_sent < now.us,
        now.us < 0x8000_0000_0000_0000,
    ensures
        ({
            let after = s.measured(f, None, now, current_ms).our_hist;
            let took = now.us - s.packet_at(p)->0.time_sent;
            let by = if s.our_hist.value() > took {
                s.our_hist.value() - took
            } else {
                0
            };
            &&& (after.delay_base - s.our_hist.delay_base) % 0x1_0000_0000 == by
            &&& after.cur == s.our_hist.cur
        }),
{
    let t = s.duplicates_counted(f, now.ms);
    lemma_acks_counted(s, f.ack_nr);
    lemma_acks_counted(t, f.ack_nr);
    lemma_queue_at(
        s.outbuf,
        s.send.seq_nr,
        s.send.cur_window_packets,
        s.send.cur_window,
        p as int,
    );
    assert(t.oldest_seq().wrapping_add(0u16) == p);
    assert(t.was_sent(p));
    let none = t.tallied(now, 0);
    let one = t.tallied(now, 1);
    assert(one.rtt == now.us - s.packet_at(p)->0.time_sent);
    let base = s.their_hist.delay_base;
    lemma_wrapping_less_32(base, base);
    reveal(SockView::measured);
}

/// Whether bit `i` of a mask acks a packet that was sent and is outstanding.
pub open spec fn acked_by_bit(s: SockView, base: u16, mask: Seq<u8>, i: int) -> bool {
    let v = number_at(base, i);
    &&& mask_bit(mask, i)
    &&& outstanding(s, v)
    &&& s.packet_at(v) is Some
    &&& s.packet_at(v)->0.transmissions > 0
}

/// Only one packet is acked by the bits of a mask: then its bytes are those
/// that count, and its time the one that counts.
proof fn lemma_one_bit(s: SockView, now: Now, base: u16, mask: Seq<u8>, n: int, k: int, rtt: i64)
    requires
        0 <= k,
        acked_by_bit(s, base, mask, k),
        forall|i: int| #[trigger] acked_by_bit(s, base, mask, i) ==> i == k,
        s.packet_at(number_at(base, k))->0.time_sent < now.us,
        now.us < 0x8000_0000_0000_0000,
        n >= 0,
    ensures
        s.eacked_bytes(base, mask, n) == (if k < n {
            s.packet_at(number_at(base, k))->0.payload as int
        } else {
            0
        }),
        ({
            let took = now.us - s.packet_at(number_at(base, k))->0.time_sent;
            s.eacked_rtt(now, base, mask, n, rtt) == (if k < n && took < rtt {
                took
            } else {
                rtt as int
            })
        }),
    decreases n,
{
    if n > 0 {
        lemma_one_bit(s, now, base, mask, n - 1, k, rtt);
        assert(bit_seq(base, n - 1) == number_at(base, n - 1));
        assert(s.bit_acks(base, mask, n - 1) == acked_by_bit(s, base, mask, n - 1));
    }
}

/// A selective ack of one packet moves the congestion window as an ack of it
/// would: by the bytes of that packet.
pub proof fn lemma_mask_moves_window(
    s: SockView,
    f: Fields,
    mask: Seq<u8>,
    now: Now,
    current_ms: u64,
    k: int,
)
    requires
        s.send_wf(),
        s.mtu.wf(),
        reports_delay(f),
        acks_in(s, f) == 0,
        0 <= k < 8 * mask.len(),
        acked_by_bit(s, ((f.ack_nr + 2) % 0x10000) as u16, mask, k),
        forall|i: int| #[trigger]
            acked_by_bit(s, ((f.ack_nr + 2) % 0x10000) as u16, mask, i) ==> i == k,
        ({
            let p = s.packet_at(number_at(((f.ack_nr + 2) % 0x10000) as u16, k))->0;
            p.payload > 0 && p.time_sent < now.us
        }),
        now.us < 0x8000_0000_0000_0000,
    ensures
        ({
            let after = s.measured(f, Some(mask), now, current_ms);
            let p = s.packet_at(number_at(((f.ack_nr + 2) % 0x10000) as u16, k))->0;
            after.cwnd == s.cwnd.controlled(
                current_ms,
                p.payload,
                effective_delay(
                    after.our_hist.value(),
                    (now.us - p.time_sent) as i64,
                    after.drift.clock_drift,
                ),
                (after.mtu.last - 20) as usize,
            )
        }),
{
    let base = ((f.ack_nr + 2) % 0x10000) as u16;
    let t = s.duplicates_counted(f, now.ms);
    lemma_acks_counted(t, f.ack_nr);
    assert(f.ack_nr.wrapping_add(2) == base);
    assert forall|i: int| #[trigger] acked_by_bit(t, base, mask, i) implies i == k by {
        assert(acked_by_bit(s, base, mask, i));
    }
    lemma_one_bit(t, now, base, mask, 8 * mask.len() as int, k, i64::MAX);
    lemma_duplicates_in_order(s, f, now.ms);
    reveal(SockView::measured);
}

proof fn lemma_duplicates_in_order(s: SockView, f: Fields, now_ms: u64)
    requires
        s.mtu.wf(),
    ensures
        s.duplicates_counted(f, now_ms).mtu.wf(),
{
    if s.mtu.probe_seq != 0 {
        lemma_search_keeps_order(s.mtu, now_ms);
    }
}

/// The bytes of the `n` oldest packets, as far as they were sent.
pub open spec fn oldest_bytes(s: SockView, n: int) -> int
    decreases n,
{
    if n <= 0 {
        0
    } else {
        let q = number_at(s.oldest_seq(), n - 1);
        oldest_bytes(s, n - 1) + (if s.packet_at(q) is Some && s.packet_at(q)->0.transmissions > 0 {
            s.packet_at(q)->0.payload as int
        } else {
            0
        })
    }
}

/// Whether `rtt` is no longer than any of the `n` oldest packets took, as far as
/// they were sent.
pub open spec fn shortest(s: SockView, now: Now, n: int, rtt: i64) -> bool {
    forall|k: int| #![trigger number_at(s.oldest_seq(), k)]
        0 <= k < n && s.packet_at(number_at(s.oldest_seq(), k)) is Some && s.packet_at(
            number_at(s.oldest_seq(), k),
        )->0.transmissions > 0 ==> rtt <= now.us - s.packet_at(
            number_at(s.oldest_seq(), k),
        )->0.time_sent || s.packet_at(number_at(s.oldest_seq(), k))->0.time_sent >= now.us
}

proof fn lemma_tally_sums(s: SockView, now: Now, n: int)
    requires
        0 <= n <= 1024,
        now.us < 0x8000_0000_0000_0000,
    ensures
        s.tallied(now, n).bytes == oldest_bytes(s, n),
        shortest(s, now, n, s.tallied(now, n).rtt),
    decreases n,
{
    if n > 0 {
        lemma_tally_sums(s, now, n - 1);
        let q = s.oldest_seq().wrapping_add((n - 1) as u16);
        assert(q == number_at(s.oldest_seq(), n - 1));
        let t = s.tallied(now, n);
        assert forall|k: int| #![trigger number_at(s.oldest_seq(), k)]
            0 <= k < n && s.packet_at(number_at(s.oldest_seq(), k)) is Some && s.packet_at(
                number_at(s.oldest_seq(), k),
            )->0.transmissions > 0 implies t.rtt <= now.us - s.packet_at(
            number_at(s.oldest_seq(), k),
        )->0.time_sent || s.packet_at(number_at(s.oldest_seq(), k))->0.time_sent >= now.us by {
            if k == n - 1 {
                assert(number_at(s.oldest_seq(), k) == q);
            }
        }
    }
}

/// An ack moves the congestion window by all the bytes that it covers, at a
/// delay that is no more than the shortest time that one of its packets took.
pub proof fn lemma_acks_move_window(s: SockView, f: Fields, now: Now, current_ms: u64)
    requires
        s.send_wf(),
        s.mtu.wf(),
        reports_delay(f),
        acks_in(s, f) > 0,
        oldest_bytes(s, acks_in(s, f)) > 0,
        now.us < 0x8000_0000_0000_0000,
    ensures
        exists|rtt: i64|
            {
                let after = s.measured(f, None, now, current_ms);
                &&& #[trigger] shortest(s, now, acks_in(s, f), rtt)
                &&& after.cwnd == s.cwnd.controlled(
                    current_ms,
                    oldest_bytes(s, acks_in(s, f)) as usize,
                    effective_delay(after.our_hist.value(), rtt, after.drift.clock_drift),
                    (after.mtu.last - 20) as usize,
                )
            },
{
    let n = acks_in(s, f);
    let t = s.duplicates_counted(f, now.ms);
    lemma_acks_counted(s, f.ack_nr);
    lemma_acks_counted(t, f.ack_nr);
    lemma_queue_at(
        s.outbuf,
        s.send.seq_nr,
        s.send.cur_window_packets,
        s.send.cur_window,
        0,
    );
    lemma_tally_sums(s, now, n);
    lemma_tally_apart(s, t, now, n);
    lemma_tallied(t, now, n);
    let rtt = t.tallied(now, n).rtt;
    reveal(SockView::measured);
    let after = s.measured(f, None, now, current_ms);
    assert(after.cwnd == s.cwnd.controlled(
        current_ms,
        oldest_bytes(s, n) as usize,
        effective_delay(after.our_hist.value(), rtt, after.drift.clock_drift),
        (after.mtu.last - 20) as usize,
    ));
}

/// What a tally finds does not depend on the duplicates that were counted.
proof fn lemma_tally_apart(s: SockView, t: SockView, now: Now, n: int)
    requires
        t.outbuf == s.outbuf,
        t.send.seq_nr == s.send.seq_nr,
        t.send.cur_window_packets == s.send.cur_window_packets,
    ensures
        t.tallied(now, n).bytes == s.tallied(now, n).bytes,
        t.tallied(now, n).rtt == s.tallied(now, n).rtt,
    decreases n,
{
    if n > 0 {
        lemma_tally_apart(s, t, now, n - 1);
        let q = s.oldest_seq().wrapping_add((n - 1) as u16);
        assert(t.was_sent(q) == s.was_sent(q));
    }
}

} // verus!
