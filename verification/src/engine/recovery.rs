//! Recovery from loss by selective acks: which packets are sent again, and
//! what that does to the congestion window.

use crate::engine::acks::lemma_acked;
use crate::engine::binary64::{lemma_float_exact, unit};
use crate::engine::eack::{
    bit_seq, lemma_resent, lemma_scanned, lemma_stepped, may_resend, resend_pushed, resent,
    selectively_acked, Scan,
};
use crate::engine::ledbat::halved;
use crate::engine::model::{data_sent, mask_bit, packet_sent, St};
use crate::engine::queue::{lemma_queue_at, lemma_slots_differ};
use crate::engine::state::{DatagramView, SendSide, SockView};
use crate::engine::stream::{kept, lemma_kept_trans};
use crate::engine::stream_steps::lemma_scanned_kept;
use crate::engine::timing::lemma_packet_tells_all;
use crate::engine::transmit::{
    lemma_oldest_stays, lemma_packet_sent, lemma_same_contents_at, lemma_stamp_keeps,
};
use crate::packet::{be16, put_be16};
use vstd::arithmetic::div_mod::*;
use vstd::arithmetic::mul::*;
use vstd::arithmetic::power2::*;
use vstd::prelude::*;

verus! {

/// Half of a window, rounded down, is what the window is halved to.
pub proof fn lemma_halved_is_half(w: usize)
    requires
        w <= 0x20_0000_0000_0000,
    ensures
        halved(w) == w / 2,
{
    let u = unit();
    lemma_float_exact(w as int);
    lemma_pow2_unfold(200);
    lemma_pow2_pos(199);
    let h = pow2(199) as int;
    assert(u == 2 * h);
    let x = w * u;
    assert(x == 2 * (w * h)) by (nonlinear_arith)
        requires
            x == w * u,
            u == 2 * h,
    ;
    assert(x / 2 == w * h);
    assert(w * h == h * w) by (nonlinear_arith);
    lemma_div_multiples_vanish_quotient(h, w as int, 2);
    assert(h * 2 == u);
    assert((h * w) / u == w as int / 2);
}

/// Whether something goes out between two looks at what is to be sent.
pub open spec fn more_sent(a: St, b: St) -> bool {
    b.io.outgoing.len() > a.io.outgoing.len()
}

/// Whether the packet with the number `v` and the payload `body` goes out
/// between two looks at what is to be sent.
pub open spec fn goes_out(a: St, b: St, v: u16, body: Seq<u8>) -> bool {
    exists|j: int| #[trigger] sent_at(a, b, j, v as int, body)
}

pub open spec fn sent_at(a: St, b: St, j: int, v: int, body: Seq<u8>) -> bool {
    &&& a.io.outgoing.len() <= j < b.io.outgoing.len()
    &&& b.io.outgoing[j].addr == a.s.peer.key.addr
    &&& be16(b.io.outgoing[j].data, 16) == v
    &&& b.io.outgoing[j].data.skip(20) == body
}

/// Sending packets again sends at most four, as many as it says, and nothing
/// else.
proof fn lemma_resent_counts(st: St, resends: Seq<u16>, done: int)
    requires
        st.s.send_wf(),
        st.s.mtu.wf(),
        0 <= done <= 4,
    ensures
        ({
            let (any, after) = resent(st, resends, done);
            &&& st.io.outgoing.len() <= after.io.outgoing.len() <= st.io.outgoing.len() + 4 - done
            &&& after.io.outgoing.take(st.io.outgoing.len() as int) == st.io.outgoing
            &&& any <==> done > 0 || more_sent(st, after)
        }),
    decreases resends.len(),
{
    reveal(resent);
    assert(st.io.outgoing.take(st.io.outgoing.len() as int) =~= st.io.outgoing);
    if resends.len() > 0 && done < 4 {
        let v = resends.last();
        if st.s.packet_at(v) is None {
            lemma_resent_counts(st, resends.drop_last(), done);
        } else {
            lemma_packet_sent(st, v);
            lemma_packet_tells_all(st, v);
            let sent = packet_sent(st, v);
            let s = SockView {
                send: SendSide { fast_resend_seq_nr: v.wrapping_add(1), ..sent.s.send },
                ..sent.s
            };
            let next = St { s, ..sent };
            lemma_resent_counts(next, resends.drop_last(), done + 1);
            let after = resent(next, resends.drop_last(), done + 1).1;
            let n = st.io.outgoing.len() as int;
            assert(after.io.outgoing.take(n) =~= after.io.outgoing.take(n + 1).drop_last());
        }
    }
}

/// A loss that a selective ack tells of halves the window: if anything is sent
/// again, and the window was not decayed in the last 100 milliseconds, it is
/// half of what it was, but at least 10 bytes; slow start is over, and would
/// end there the next time. If nothing is sent again, or the window has just
/// been decayed, it is left alone.
pub proof fn lemma_loss_halves_window(st: St, base: u16, mask: Seq<u8>)
    requires
        st.s.send_wf(),
        st.s.mtu.wf(),
        st.s.oldest_there(),
        mask.len() <= 255,
        st.s.cwnd.max_window <= 0x20_0000_0000_0000,
    ensures
        ({
            let after = selectively_acked(st, base, mask);
            let before = st.s.cwnd;
            let half = before.max_window / 2;
            let rested = (st.io.current_ms as i64).wrapping_sub(before.last_rwin_decay) >= 100;
            &&& more_sent(st, after) && rested ==> {
                &&& after.s.cwnd.max_window == (if half < 10 {
                    10
                } else {
                    half
                })
                &&& after.s.cwnd.ssthresh == after.s.cwnd.max_window
                &&& !after.s.cwnd.slow_start
                &&& after.s.cwnd.last_rwin_decay == st.io.current_ms as i64
            }
            &&& !more_sent(st, after) || !rested ==> {
                &&& after.s.cwnd.max_window == before.max_window
                &&& after.s.cwnd.ssthresh == before.ssthresh
                &&& after.s.cwnd.slow_start == before.slow_start
                &&& after.s.cwnd.last_rwin_decay == before.last_rwin_decay
            }
            &&& after.s.cwnd.opt_sndbuf == before.opt_sndbuf
            &&& after.s.cwnd.target_delay == before.target_delay
        }),
{
    reveal(selectively_acked);
    lemma_halved_is_half(st.s.cwnd.max_window);
    if st.s.send.cur_window_packets > 0 {
        let start = Scan { s: st.s, count: 0, resends: Seq::empty() };
        let n = 8 * mask.len() as int;
        lemma_scanned(start, st.io.now, st.io.current_ms, base, mask, n);
        let scan = start.scanned(st.io.now, st.io.current_ms, base, mask, n);
        let resends = if may_resend(scan.s, base.wrapping_sub(1), scan.count) {
            scan.resends.push(base.wrapping_sub(1))
        } else {
            scan.resends
        };
        let mid = St { s: scan.s, ..st };
        lemma_resent(mid, resends, 0);
        lemma_resent_counts(mid, resends, 0);
    }
}

/// The number that bit `i` of a mask stands for, if its first bit stands for
/// `base`.
pub open spec fn number_at(base: u16, i: int) -> u16 {
    ((base + i) % 0x10000) as u16
}

/// Whether `v` is one of the numbers that are outstanding, but for the oldest.
pub open spec fn outstanding(s: SockView, v: u16) -> bool {
    (s.send.seq_nr - 1 - v) % 0x10000 < s.send.cur_window_packets - 1
}

/// Whether `v` is one of the numbers that are outstanding.
pub open spec fn in_window(s: SockView, v: u16) -> bool {
    (s.send.seq_nr - 1 - v) % 0x10000 < s.send.cur_window_packets
}

/// How many of the bits from `i` up to `n` are set and stand for something that
/// is outstanding.
pub open spec fn got_through(s: SockView, base: u16, mask: Seq<u8>, i: int, n: int) -> nat
    decreases n - i,
{
    if i >= n {
        0
    } else {
        got_through(s, base, mask, i + 1, n) + (if mask_bit(mask, i) && outstanding(
            s,
            number_at(base, i),
        ) {
            1nat
        } else {
            0nat
        })
    }
}

/// Whether bit `i` tells of a loss: it is not set, it stands for a packet that
/// was sent and is outstanding, at least three packets above it got through,
/// and it has not been sent again since the last time.
pub open spec fn missed(s: SockView, base: u16, mask: Seq<u8>, i: int) -> bool {
    let v = number_at(base, i);
    &&& -1 <= i < 8 * mask.len()
    &&& !mask_bit(mask, i)
    &&& outstanding(s, v)
    &&& s.packet_at(v) is Some
    &&& s.packet_at(v)->0.transmissions > 0
    &&& (v - s.send.fast_resend_seq_nr) % 0x10000 <= 1024
    &&& got_through(s, base, mask, i + 1, 8 * mask.len() as int) >= 3
}

/// The numbers below bit `n` that are missed, from the highest down.
pub open spec fn missed_below(s: SockView, base: u16, mask: Seq<u8>, n: int) -> Seq<u16>
    decreases n + 1,
{
    if n < 0 {
        Seq::empty()
    } else {
        (if missed(s, base, mask, n - 1) {
            seq![number_at(base, n - 1)]
        } else {
            Seq::empty()
        }) + missed_below(s, base, mask, n - 1)
    }
}

/// Whether the packet before the mask, which no ack has told of, is to be sent
/// again.
pub open spec fn first_missed(s: SockView, base: u16, mask: Seq<u8>) -> bool {
    &&& (base - 1 - s.send.fast_resend_seq_nr) % 0x10000 <= 1024
    &&& got_through(s, base, mask, 0, 8 * mask.len() as int) >= 3
}

/// A packet that is outstanding carries the number that it is found under.
pub proof fn lemma_own_number(s: SockView, v: u16)
    requires
        s.send_wf(),
        in_window(s, v),
        s.packet_at(v) is Some,
    ensures
        be16(s.packet_at(v)->0.data, 16) == v,
{
    let p = s.packet_at(v)->0;
    lemma_queue_at(
        s.outbuf,
        s.send.seq_nr,
        s.send.cur_window_packets,
        s.send.cur_window,
        v as int,
    );
    let q = p.seq() as u16;
    if q != v {
        lemma_slots_differ(
            s.outbuf,
            s.send.seq_nr,
            s.send.cur_window_packets,
            s.send.cur_window,
            q,
            v,
        );
    }
}

/// Different bits stand for different numbers.
proof fn lemma_numbers_differ(base: int, i: int, k: int)
    requires
        0 <= base < 0x10000,
        -1 <= i < k <= 0x1000,
    ensures
        (base + i) % 0x10000 != (base + k) % 0x10000,
{
}

/// What a walk over the mask has come to at bit `n`, if it began with `s`.
pub open spec fn walked(s: SockView, scan: Scan, base: u16, mask: Seq<u8>, n: int) -> bool {
    &&& scan.s.send_wf()
    &&& scan.s.oldest_there()
    &&& scan.s.send.cur_window_packets == s.send.cur_window_packets
    &&& scan.s.send.seq_nr == s.send.seq_nr
    &&& scan.s.send.fast_resend_seq_nr == s.send.fast_resend_seq_nr
    &&& scan.count == got_through(s, base, mask, if n < 0 {
        0
    } else {
        n
    }, 8 * mask.len() as int)
    &&& forall|i: int| #![trigger number_at(base, i)]
        -1 <= i < 8 * mask.len() && in_window(s, number_at(base, i)) && (i < n || !mask_bit(
            mask,
            i,
        )) ==> scan.s.packet_at(number_at(base, i)) == s.packet_at(number_at(base, i))
}

proof fn lemma_walk_step(
    s: SockView,
    scan: Scan,
    st: St,
    base: u16,
    mask: Seq<u8>,
    n: int,
)
    requires
        walked(s, scan, base, mask, n),
        s.send.cur_window_packets > 0,
        0 <= n <= 8 * mask.len(),
        mask.len() <= 255,
    ensures
        ({
            let next = scan.stepped(st.io.now, st.io.current_ms, base, mask, n - 1);
            &&& walked(s, next, base, mask, n - 1)
            &&& next.resends == (if missed(s, base, mask, n - 1) {
                resend_pushed(scan.resends, number_at(base, n - 1))
            } else {
                scan.resends
            })
        }),
{
    let v = number_at(base, n - 1);
    let next = scan.stepped(st.io.now, st.io.current_ms, base, mask, n - 1);
    let m = 8 * mask.len() as int;
    lemma_few_through(s, base, mask, n, m);
    lemma_stepped(scan, st.io.now, st.io.current_ms, base, mask, n - 1);
    reveal(Scan::noted);
    assert(bit_seq(base, n - 1) == v);
    assert(outstanding(s, v) == scan.s.past_oldest(v));
    if n >= 1 {
        assert(got_through(s, base, mask, n - 1, m) == got_through(s, base, mask, n, m) + (
        if mask_bit(mask, n - 1) && outstanding(s, v) {
            1nat
        } else {
            0nat
        }));
    }
    lemma_acked(scan.s, st.io.now, st.io.current_ms, v);
    assert forall|i: int| #![trigger number_at(base, i)]
        -1 <= i < m && in_window(s, number_at(base, i)) && (i < n - 1 || !mask_bit(
            mask,
            i,
        )) implies next.s.packet_at(number_at(base, i)) == s.packet_at(number_at(base, i)) by {
        let q = number_at(base, i);
        assert(scan.s.packet_at(q) == s.packet_at(q));
        if outstanding(s, v) && mask_bit(mask, n - 1) {
            assert(i != n - 1);
            if i < n - 1 {
                lemma_numbers_differ(base as int, i, n - 1);
            } else {
                lemma_numbers_differ(base as int, n - 1, i);
            }
            lemma_slots_differ(
                scan.s.outbuf,
                scan.s.send.seq_nr,
                scan.s.send.cur_window_packets,
                scan.s.send.cur_window,
                v,
                q,
            );
            lemma_queue_at(
                scan.s.outbuf,
                scan.s.send.seq_nr,
                scan.s.send.cur_window_packets,
                scan.s.send.cur_window,
                q as int,
            );
        }
    }
    assert(scan.s.packet_at(v) == s.packet_at(v) || !outstanding(s, v));
}

proof fn lemma_few_through(s: SockView, base: u16, mask: Seq<u8>, i: int, n: int)
    ensures
        got_through(s, base, mask, i, n) <= (if i < n {
            n - i
        } else {
            0
        }),
    decreases n - i,
{
    if i < n {
        lemma_few_through(s, base, mask, i + 1, n);
    }
}

/// `r` is the end of `all`, and as much of it as can matter.
pub open spec fn ends(r: Seq<u16>, all: Seq<u16>) -> bool {
    &&& r.len() <= all.len()
    &&& r == all.skip(all.len() - r.len())
    &&& r.len() == all.len() || r.len() >= 62
}

proof fn lemma_ends_pushed(before: Seq<u16>, v: u16, rest: Seq<u16>, r: Seq<u16>)
    requires
        ends(r, resend_pushed(before, v) + rest),
    ensures
        ends(r, before + (seq![v] + rest)),
{
    let all = before + (seq![v] + rest);
    let part = resend_pushed(before, v) + rest;
    let d = all.len() - part.len();
    assert(part =~= all.skip(d));
    assert(r =~= all.skip(all.len() - r.len()));
}

/// The walk collects what is missed, the lowest numbers last.
proof fn lemma_walk(s: SockView, scan: Scan, st: St, base: u16, mask: Seq<u8>, n: int)
    requires
        walked(s, scan, base, mask, n),
        s.send.cur_window_packets > 0,
        -1 <= n <= 8 * mask.len(),
        mask.len() <= 255,
    ensures
        ({
            let t = scan.scanned(st.io.now, st.io.current_ms, base, mask, n);
            &&& walked(s, t, base, mask, -1)
            &&& ends(t.resends, scan.resends + missed_below(s, base, mask, n))
        }),
    decreases n + 1,
{
    reveal(Scan::scanned);
    if n < 0 {
        assert(scan.resends + missed_below(s, base, mask, n) =~= scan.resends);
        assert(scan.resends.skip(0) =~= scan.resends);
    } else {
        lemma_walk_step(s, scan, st, base, mask, n);
        let next = scan.stepped(st.io.now, st.io.current_ms, base, mask, n - 1);
        lemma_walk(s, next, st, base, mask, n - 1);
        let t = scan.scanned(st.io.now, st.io.current_ms, base, mask, n);
        let rest = missed_below(s, base, mask, n - 1);
        if missed(s, base, mask, n - 1) {
            lemma_ends_pushed(scan.resends, number_at(base, n - 1), rest, t.resends);
        } else {
            assert(missed_below(s, base, mask, n) =~= rest);
        }
    }
}

/// What is on the stack not further than four from the top is sent.
proof fn lemma_resent_sends(st: St, resends: Seq<u16>, done: int, k: int, v: u16)
    requires
        st.s.send_wf(),
        st.s.mtu.wf(),
        st.s.oldest_there(),
        0 <= done,
        0 <= k < resends.len(),
        done + k < 4,
        v == resends[resends.len() - 1 - k],
        st.s.packet_at(v) is Some,
        be16(st.s.packet_at(v)->0.data, 16) == v,
    ensures
        goes_out(st, resent(st, resends, done).1, v, st.s.packet_at(v)->0.data.skip(20)),
    decreases resends.len(),
{
    reveal(resent);
    let top = resends.last();
    let rest = resends.drop_last();
    let body = st.s.packet_at(v)->0.data.skip(20);
    let after = resent(st, resends, done).1;
    if st.s.packet_at(top) is None {
        assert(k > 0);
        lemma_resent_sends(st, rest, done, k - 1, v);
    } else {
        lemma_packet_sent(st, top);
        lemma_packet_tells_all(st, top);
        let sent = packet_sent(st, top);
        let s = SockView {
            send: SendSide { fast_resend_seq_nr: top.wrapping_add(1), ..sent.s.send },
            ..sent.s
        };
        let next = St { s, ..sent };
        lemma_oldest_stays(st.s, s);
        lemma_resent_counts(next, rest, done + 1);
        let n = st.io.outgoing.len() as int;
        assert(after == resent(next, rest, done + 1).1);
        if k == 0 {
            assert(after.io.outgoing.take(n + 1)[n] == after.io.outgoing[n]);
            assert(sent_at(st, after, n, v as int, body));
        } else {
            lemma_queue_at(
                st.s.outbuf,
                st.s.send.seq_nr,
                st.s.send.cur_window_packets,
                st.s.send.cur_window,
                v as int,
            );
            lemma_same_contents_at(st.s.outbuf, s.outbuf, v as int);
            lemma_resent_sends(next, rest, done + 1, k - 1, v);
            let j = choose|j: int| #[trigger] sent_at(next, after, j, v as int, body);
            assert(sent_at(st, after, j, v as int, body));
        }
    }
}

/// What a selective ack comes to, taken apart.
proof fn lemma_walk_whole(st: St, base: u16, mask: Seq<u8>) -> (r: (Scan, Seq<u16>))
    requires
        st.s.send_wf(),
        st.s.mtu.wf(),
        st.s.oldest_there(),
        st.s.send.cur_window_packets > 0,
        mask.len() <= 255,
    ensures
        ({
            let (scan, resends) = r;
            let mid = St { s: scan.s, ..st };
            &&& walked(st.s, scan, base, mask, -1)
            &&& scan.s.peer == st.s.peer
            &&& scan.s.mtu == st.s.mtu
            &&& kept(st.s.outbuf, scan.s.outbuf)
            &&& ends(scan.resends, missed_below(st.s, base, mask, 8 * mask.len() as int))
            &&& resends == (if first_missed(st.s, base, mask) {
                scan.resends.push(number_at(base, -1))
            } else {
                scan.resends
            })
            &&& selectively_acked(st, base, mask).io == resent(mid, resends, 0).1.io
            &&& selectively_acked(st, base, mask).s.outbuf == resent(mid, resends, 0).1.s.outbuf
            &&& selectively_acked(st, base, mask).s.send.fast_resend_seq_nr == resent(
                mid,
                resends,
                0,
            ).1.s.send.fast_resend_seq_nr
        }),
{
    reveal(selectively_acked);
    let n = 8 * mask.len() as int;
    let start = Scan { s: st.s, count: 0, resends: Seq::empty() };
    lemma_walk(st.s, start, st, base, mask, n);
    lemma_scanned(start, st.io.now, st.io.current_ms, base, mask, n);
    lemma_scanned_kept(start, st.io.now, st.io.current_ms, base, mask, n);
    let scan = start.scanned(st.io.now, st.io.current_ms, base, mask, n);
    let missing = missed_below(st.s, base, mask, n);
    assert(start.resends + missing =~= missing);
    assert(base.wrapping_sub(1) == number_at(base, -1));
    let resends = if may_resend(scan.s, base.wrapping_sub(1), scan.count) {
        scan.resends.push(base.wrapping_sub(1))
    } else {
        scan.resends
    };
    (scan, resends)
}

/// What is missed below a bit comes last of all that is missed.
proof fn lemma_missed_last(s: SockView, base: u16, mask: Seq<u8>, i: int, n: int)
    requires
        -1 <= i < n,
        missed(s, base, mask, i),
    ensures
        ({
            let all = missed_below(s, base, mask, n);
            let below = missed_below(s, base, mask, i);
            &&& below.len() < all.len()
            &&& all[all.len() - 1 - below.len()] == number_at(base, i)
        }),
    decreases n,
{
    if i < n - 1 {
        lemma_missed_last(s, base, mask, i, n - 1);
    }
}

proof fn lemma_kept_there(a: SockView, b: SockView, v: u16)
    requires
        a.send_wf(),
        kept(a.outbuf, b.outbuf),
        b.packet_at(v) is Some,
    ensures
        a.packet_at(v) is Some,
        be16(a.packet_at(v)->0.data, 16) == be16(b.packet_at(v)->0.data, 16),
        a.packet_at(v)->0.body() == b.packet_at(v)->0.body(),
{
    reveal(kept);
    lemma_queue_at(
        a.outbuf,
        a.send.seq_nr,
        a.send.cur_window_packets,
        a.send.cur_window,
        v as int,
    );
}

/// What is on the stack is sent also if one more comes on top of it.
proof fn lemma_resent_under(st: St, resends: Seq<u16>, first: u16, k: int, v: u16)
    requires
        st.s.send_wf(),
        st.s.mtu.wf(),
        st.s.oldest_there(),
        0 <= k < resends.len(),
        k + (if st.s.packet_at(first) is Some {
            1int
        } else {
            0
        }) < 4,
        v == resends[resends.len() - 1 - k],
        st.s.packet_at(v) is Some,
        be16(st.s.packet_at(v)->0.data, 16) == v,
    ensures
        goes_out(
            st,
            resent(st, resends.push(first), 0).1,
            v,
            st.s.packet_at(v)->0.data.skip(20),
        ),
{
    let all = resends.push(first);
    if st.s.packet_at(first) is Some {
        lemma_resent_sends(st, all, 0, k + 1, v);
    } else {
        assert(all.drop_last() =~= resends);
        assert(resent(st, all, 0) == resent(st, resends, 0)) by {
            reveal(resent);
        }
        lemma_resent_sends(st, resends, 0, k, v);
    }
}

/// A selective ack makes the packets that did not get through go out again,
/// the lowest numbers first and four at most: every packet that is missed goes
/// out if less than four others come before it. The packet just before the mask
/// comes before all that the mask tells of.
pub proof fn lemma_missed_packets_go_out(st: St, base: u16, mask: Seq<u8>, i: int)
    requires
        st.s.send_wf(),
        st.s.mtu.wf(),
        st.s.oldest_there(),
        mask.len() <= 255,
        missed(st.s, base, mask, i),
        missed_below(st.s, base, mask, i).len() + (if first_missed(st.s, base, mask)
            && st.s.packet_at(number_at(base, -1)) is Some {
            1int
        } else {
            0
        }) < 4,
    ensures
        goes_out(
            st,
            selectively_acked(st, base, mask),
            number_at(base, i),
            st.s.packet_at(number_at(base, i))->0.data.skip(20),
        ),
{
    let (scan, resends) = lemma_walk_whole(st, base, mask);
    let mid = St { s: scan.s, ..st };
    let after = resent(mid, resends, 0).1;
    let v = number_at(base, i);
    let all = missed_below(st.s, base, mask, 8 * mask.len() as int);
    let k = missed_below(st.s, base, mask, i).len() as int;
    lemma_missed_last(st.s, base, mask, i, 8 * mask.len() as int);
    let r = scan.resends;
    assert(r[r.len() - 1 - k] == all[all.len() - 1 - k]);
    lemma_own_number(st.s, v);
    assert(scan.s.packet_at(v) == st.s.packet_at(v));
    if first_missed(st.s, base, mask) {
        let first = number_at(base, -1);
        if scan.s.packet_at(first) is Some {
            lemma_kept_there(st.s, scan.s, first);
        }
        lemma_resent_under(mid, r, first, k, v);
    } else {
        lemma_resent_sends(mid, r, 0, k, v);
    }
    let body = st.s.packet_at(v)->0.data.skip(20);
    let j = choose|j: int| #[trigger] sent_at(mid, after, j, v as int, body);
    assert(sent_at(st, selectively_acked(st, base, mask), j, v as int, body));
}

/// Once three packets past it got through, the packet just before the mask goes
/// out again, unless it has before.
pub proof fn lemma_first_missed_goes_out(st: St, base: u16, mask: Seq<u8>)
    requires
        st.s.send_wf(),
        st.s.mtu.wf(),
        st.s.oldest_there(),
        mask.len() <= 255,
        first_missed(st.s, base, mask),
        in_window(st.s, number_at(base, -1)),
        st.s.packet_at(number_at(base, -1)) is Some,
    ensures
        goes_out(
            st,
            selectively_acked(st, base, mask),
            number_at(base, -1),
            st.s.packet_at(number_at(base, -1))->0.data.skip(20),
        ),
{
    let (scan, resends) = lemma_walk_whole(st, base, mask);
    let mid = St { s: scan.s, ..st };
    let after = resent(mid, resends, 0).1;
    let v = number_at(base, -1);
    lemma_own_number(st.s, v);
    lemma_resent_sends(mid, resends, 0, 0, v);
    let body = st.s.packet_at(v)->0.data.skip(20);
    let j = choose|j: int| #[trigger] sent_at(mid, after, j, v as int, body);
    assert(sent_at(st, selectively_acked(st, base, mask), j, v as int, body));
}

/// Whether the datagram `d` is the packet that is found under `v`.
pub open spec fn is_packet_at(s: SockView, d: DatagramView, v: u16) -> bool {
    &&& s.packet_at(v) is Some
    &&& be16(d.data, 16) == be16(s.packet_at(v)->0.data, 16)
    &&& d.data.skip(20) == s.packet_at(v)->0.data.skip(20)
}

/// Whether the datagram `d` is one of the packets under the numbers `vs`.
pub open spec fn is_one_of(s: SockView, d: DatagramView, vs: Seq<u16>) -> bool {
    exists|k: int| 0 <= k < vs.len() && #[trigger] is_packet_at(s, d, vs[k])
}

/// Only what is on the stack is sent.
proof fn lemma_resent_only(s: SockView, st: St, resends: Seq<u16>, done: int, all: Seq<u16>, j: int)
    requires
        s.send_wf(),
        st.s.send_wf(),
        st.s.mtu.wf(),
        st.s.oldest_there(),
        0 <= done <= 4,
        kept(s.outbuf, st.s.outbuf),
        forall|k: int| 0 <= k < resends.len() ==> all.contains(#[trigger] resends[k]),
        st.io.outgoing.len() <= j < resent(st, resends, done).1.io.outgoing.len(),
    ensures
        is_one_of(s, resent(st, resends, done).1.io.outgoing[j], all),
    decreases resends.len(),
{
    reveal(resent);
    let top = resends.last();
    let rest = resends.drop_last();
    let after = resent(st, resends, done).1;
    if resends.len() == 0 || done >= 4 {
    } else if st.s.packet_at(top) is None {
        lemma_resent_only(s, st, rest, done, all, j);
    } else {
        lemma_packet_sent(st, top);
        lemma_packet_tells_all(st, top);
        let sent = packet_sent(st, top);
        let t = SockView {
            send: SendSide { fast_resend_seq_nr: top.wrapping_add(1), ..sent.s.send },
            ..sent.s
        };
        let next = St { s: t, ..sent };
        lemma_oldest_stays(st.s, t);
        lemma_resent_counts(next, rest, done + 1);
        let n = st.io.outgoing.len() as int;
        if j == n {
            assert(after.io.outgoing.take(n + 1)[n] == after.io.outgoing[n]);
            lemma_kept_there(s, st.s, top);
            assert(all.contains(resends[resends.len() - 1]));
            let k = choose|k: int| 0 <= k < all.len() && all[k] == top;
            assert(is_packet_at(s, after.io.outgoing[j], all[k]));
        } else {
            lemma_packet_kept(st, top);
            lemma_kept_trans(s.outbuf, st.s.outbuf, t.outbuf);
            lemma_resent_only(s, next, rest, done + 1, all, j);
        }
    }
}

/// Sending a packet keeps all of them.
pub proof fn lemma_packet_kept(st: St, seq: u16)
    requires
        st.s.send_wf(),
        st.s.mtu.wf(),
    ensures
        kept(st.s.outbuf, packet_sent(st, seq).s.outbuf),
{
    reveal(packet_sent);
    reveal(data_sent);
    reveal(kept);
    lemma_queue_at(
        st.s.outbuf,
        st.s.send.seq_nr,
        st.s.send.cur_window_packets,
        st.s.send.cur_window,
        seq as int,
    );
    if st.s.packet_at(seq) is Some {
        let p = st.s.packet_at(seq)->0;
        lemma_stamp_keeps(st, put_be16(p.data, 18, st.s.recv.ack_nr as int));
        lemma_stamp_keeps(st, p.data);
    }
}

/// Nothing goes out in answer to a selective ack but what is missed: packets
/// that the mask does not ack, below at least three that it does, and the one
/// just before the mask. No more than four go out at a time.
pub proof fn lemma_only_missed_packets_go_out(st: St, base: u16, mask: Seq<u8>)
    requires
        st.s.send_wf(),
        st.s.mtu.wf(),
        st.s.oldest_there(),
        mask.len() <= 255,
    ensures
        ({
            let after = selectively_acked(st, base, mask);
            let missing = missed_below(st.s, base, mask, 8 * mask.len() as int);
            let all = if first_missed(st.s, base, mask) {
                missing.push(number_at(base, -1))
            } else {
                missing
            };
            &&& st.io.outgoing.len() <= after.io.outgoing.len() <= st.io.outgoing.len() + 4
            &&& after.io.outgoing.take(st.io.outgoing.len() as int) == st.io.outgoing
            &&& forall|j: int| st.io.outgoing.len() <= j < after.io.outgoing.len() ==> is_one_of(
                st.s,
                #[trigger] after.io.outgoing[j],
                all,
            )
        }),
{
    let after = selectively_acked(st, base, mask);
    assert(st.io.outgoing.take(st.io.outgoing.len() as int) =~= st.io.outgoing);
    if st.s.send.cur_window_packets == 0 {
        reveal(selectively_acked);
    } else {
        let (scan, resends) = lemma_walk_whole(st, base, mask);
        let mid = St { s: scan.s, ..st };
        let missing = missed_below(st.s, base, mask, 8 * mask.len() as int);
        let all = if first_missed(st.s, base, mask) {
            missing.push(number_at(base, -1))
        } else {
            missing
        };
        assert forall|k: int| 0 <= k < resends.len() implies all.contains(
            #[trigger] resends[k],
        ) by {
            let d = all.len() - resends.len();
            assert(all[k + d] == resends[k]);
        }
        lemma_resent_counts(mid, resends, 0);
        assert forall|j: int|
            st.io.outgoing.len() <= j < after.io.outgoing.len() implies is_one_of(
            st.s,
            #[trigger] after.io.outgoing[j],
            all,
        ) by {
            lemma_resent_only(st.s, mid, resends, 0, all, j);
        }
    }
}

/// How many packets a mask shows to have got through is what counts for the
/// acks that tell of nothing new.
pub proof fn lemma_mask_counts_duplicates(st: St, base: u16, mask: Seq<u8>)
    requires
        st.s.send_wf(),
        st.s.mtu.wf(),
        st.s.oldest_there(),
        mask.len() <= 255,
        st.s.send.cur_window_packets > 0,
        got_through(st.s, base, mask, 0, 8 * mask.len() as int) < 256,
    ensures
        selectively_acked(st, base, mask).s.send.duplicate_ack == got_through(
            st.s,
            base,
            mask,
            0,
            8 * mask.len() as int,
        ),
{
    reveal(selectively_acked);
    let n = 8 * mask.len() as int;
    let start = Scan { s: st.s, count: 0, resends: Seq::empty() };
    lemma_walk(st.s, start, st, base, mask, n);
}

/// What has been sent again is not sent again for the same loss: the next resend
/// begins past the packet that was sent last.
proof fn lemma_resent_moves_on(st: St, resends: Seq<u16>, done: int)
    requires
        st.s.send_wf(),
        st.s.mtu.wf(),
        0 <= done <= 4,
        forall|k: int|
            0 <= k < resends.len() ==> in_window(st.s, #[trigger] resends[k]),
    ensures
        ({
            let after = resent(st, resends, done).1;
            let last = after.io.outgoing.last();
            &&& !more_sent(st, after) ==> after.s.send.fast_resend_seq_nr
                == st.s.send.fast_resend_seq_nr
            &&& more_sent(st, after) ==> after.s.send.fast_resend_seq_nr == (be16(last.data, 16)
                + 1) % 0x10000
        }),
    decreases resends.len(),
{
    reveal(resent);
    if resends.len() > 0 && done < 4 {
        let v = resends.last();
        let rest = resends.drop_last();
        assert(in_window(st.s, resends[resends.len() - 1]));
        assert forall|k: int| 0 <= k < rest.len() implies in_window(st.s, #[trigger] rest[k]) by {
            assert(in_window(st.s, resends[k]));
        }
        if st.s.packet_at(v) is None {
            lemma_resent_moves_on(st, rest, done);
        } else {
            lemma_packet_sent(st, v);
            lemma_packet_tells_all(st, v);
            lemma_own_number(st.s, v);
            let sent = packet_sent(st, v);
            let s = SockView {
                send: SendSide { fast_resend_seq_nr: v.wrapping_add(1), ..sent.s.send },
                ..sent.s
            };
            let next = St { s, ..sent };
            assert forall|k: int| 0 <= k < rest.len() implies in_window(
                next.s,
                #[trigger] rest[k],
            ) by {
                assert(in_window(st.s, rest[k]));
            }
            lemma_resent_moves_on(next, rest, done + 1);
            lemma_resent_counts(next, rest, done + 1);
            let after = resent(next, rest, done + 1).1;
            let n = next.io.outgoing.len() as int;
            if after.io.outgoing.len() == n {
                assert(after.io.outgoing.take(n) =~= after.io.outgoing);
            }
        }
    }
}

proof fn lemma_missed_in_window(s: SockView, base: u16, mask: Seq<u8>, n: int)
    ensures
        forall|k: int|
            0 <= k < missed_below(s, base, mask, n).len() ==> in_window(
                s,
                #[trigger] missed_below(s, base, mask, n)[k],
            ),
    decreases n + 1,
{
    if n >= 0 {
        lemma_missed_in_window(s, base, mask, n - 1);
        let rest = missed_below(s, base, mask, n - 1);
        let all = missed_below(s, base, mask, n);
        assert forall|k: int| 0 <= k < all.len() implies in_window(s, #[trigger] all[k]) by {
            if missed(s, base, mask, n - 1) {
                if k > 0 {
                    assert(all[k] == rest[k - 1]);
                }
            } else {
                assert(all =~= rest);
            }
        }
    }
}

/// What a selective ack makes go out again is not sent again on the next one
/// that shows the same: resends go on past the packet that was sent last. If
/// nothing goes out, they go on where they were.
pub proof fn lemma_resends_move_on(st: St, base: u16, mask: Seq<u8>)
    requires
        st.s.send_wf(),
        st.s.mtu.wf(),
        st.s.oldest_there(),
        mask.len() <= 255,
        st.s.send.cur_window_packets > 0,
        in_window(st.s, number_at(base, -1)),
    ensures
        ({
            let after = selectively_acked(st, base, mask);
            let last = after.io.outgoing.last();
            &&& !more_sent(st, after) ==> after.s.send.fast_resend_seq_nr
                == st.s.send.fast_resend_seq_nr
            &&& more_sent(st, after) ==> after.s.send.fast_resend_seq_nr == (be16(last.data, 16)
                + 1) % 0x10000
        }),
{
    let (scan, resends) = lemma_walk_whole(st, base, mask);
    let all = missed_below(st.s, base, mask, 8 * mask.len() as int);
    lemma_missed_in_window(st.s, base, mask, 8 * mask.len() as int);
    let mid = St { s: scan.s, ..st };
    assert forall|k: int| 0 <= k < resends.len() implies in_window(
        mid.s,
        #[trigger] resends[k],
    ) by {
        if k < scan.resends.len() {
            let d = all.len() - scan.resends.len();
            assert(scan.resends[k] == all[k + d]);
        }
    }
    lemma_resent_moves_on(mid, resends, 0);
}

} // verus!
