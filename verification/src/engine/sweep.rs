//! What concerns all connections: the acks that are owed, the timers, and the
//! end.

use crate::clock::Now;
use crate::conn_shared::{ConnShared, ConnView};
use crate::engine::context::{
    all_wf, conn_views, ids_of, ids_wf, keys_of, lemma_index, lemma_put, lemma_sock_views,
    lemma_sock_views_update, owing_wf, sock_views, Context, ContextView, RstInfo,
};
use crate::engine::model::{ack_sent, ms_between, unscheduled, St};
use crate::engine::send::st;
use crate::engine::state::{ConnState, DatagramView, Io, IoView, Key, SockView, UtpSock};
use crate::engine::timers::{lemma_timeouts_checked, timeouts_checked};
use crate::engine::timing::lemma_ack_tells_all;
use crate::engine::transmit::lemma_without;
use crate::engine::write::lemma_ack_sent;
use crate::packet::be16;
use vstd::prelude::*;

verus! {

/// milliseconds
pub const TIMEOUT_CHECK_INTERVAL: u64 = 500;

/// milliseconds
pub const RST_INFO_TIMEOUT: i32 = 10000;

impl SockView {
    /// The ack that was owed is about to be sent.
    pub open spec fn relieved(self) -> SockView {
        SockView { in_ack_list: false, ..self }
    }
}

impl RstInfo {
    pub open spec fn expired(self, current_ms: u64) -> bool {
        ms_between(current_ms, self.timestamp) >= RST_INFO_TIMEOUT
    }
}

/// The rejected streams that are still to be remembered.
pub open spec fn rst_kept(list: Seq<RstInfo>, current_ms: u64) -> Seq<RstInfo>
    decreases list.len(),
{
    if list.len() == 0 {
        list
    } else if list.last().expired(current_ms) {
        rst_kept(list.drop_last(), current_ms)
    } else {
        rst_kept(list.drop_last(), current_ms).push(list.last())
    }
}

impl ContextView {
    /// An ack is sent for the connection with a key, if there still is one.
    pub open spec fn ack_issued(self, key: Key) -> ContextView {
        if self.has_key(key) {
            let i = self.index_of(key);
            self.put(i, ack_sent(St { s: self.sockets[i].relieved(), io: self.io }))
        } else {
            self
        }
    }

    /// Acks are sent for the connections with keys from `keys[i]` on.
    #[verifier::opaque]
    pub open spec fn acks_issued_from(self, keys: Seq<Key>, i: int) -> ContextView
        decreases keys.len() - i,
    {
        if i >= keys.len() {
            self
        } else {
            self.ack_issued(keys[i]).acks_issued_from(keys, i + 1)
        }
    }

    /// All acks that are owed are sent.
    pub open spec fn acks_issued(self, now: Now) -> ContextView {
        ContextView {
            io: IoView { now, ack_list: Seq::empty(), ..self.io },
            ..self
        }.acks_issued_from(self.io.ack_list, 0)
    }

    /// The socket at place `i` is taken out. Its user, if it still has one, is
    /// told.
    pub open spec fn destroyed(self, i: int) -> ContextView {
        let user = self.sockets[i].user.with_destroying();
        ContextView {
            sockets: self.sockets.remove(i),
            io: unscheduled(self.st_at(i)).io,
            gone: if user.released {
                self.gone
            } else {
                self.gone.push(user)
            },
            ..self
        }
    }

    /// The socket at place `i` acts on the passing of time, and is taken out
    /// if that was its end.
    pub open spec fn timed(self, i: int) -> ContextView {
        let c = self.put(i, timeouts_checked(self.st_at(i)));
        if c.sockets[i].state == ConnState::Destroy {
            c.destroyed(i)
        } else {
            c
        }
    }

    /// The sockets from place `i` on act on the passing of time.
    #[verifier::opaque]
    pub open spec fn timed_from(self, i: int) -> ContextView
        decreases self.sockets.len() - i,
    {
        if i >= self.sockets.len() || i < 0 {
            self
        } else {
            let c = self.timed(i);
            if c.sockets.len() == self.sockets.len() {
                c.timed_from(i + 1)
            } else {
                c.timed_from(i)
            }
        }
    }

    /// The timers are looked at, unless that was done just now.
    pub open spec fn timeouts_checked(self, now: Now) -> ContextView {
        let io = IoView { now, current_ms: now.ms, ..self.io };
        if now.ms.wrapping_sub(self.last_check) < TIMEOUT_CHECK_INTERVAL {
            ContextView { io, ..self }
        } else {
            ContextView {
                io,
                last_check: now.ms,
                rst_info: rst_kept(self.rst_info, now.ms),
                ..self
            }.timed_from(0)
        }
    }

    /// Every socket is taken out.
    #[verifier::opaque]
    pub open spec fn emptied(self) -> ContextView
        decreases self.sockets.len(),
    {
        if self.sockets.len() == 0 {
            self
        } else {
            self.destroyed(0).emptied()
        }
    }

    /// What holds while the acks from `keys[i]` on are still to be sent.
    spec fn issuing(self, keys: Seq<Key>, i: int) -> bool {
        &&& all_wf(self.sockets)
        &&& keys_of(self.sockets).no_duplicates()
        &&& ids_wf(ids_of(self.sockets, self.gone), self.next_id)
        &&& self.io.ack_list.len() == 0
        &&& keys.no_duplicates()
        &&& forall|j: int|
            0 <= j < self.sockets.len() ==> (#[trigger] self.sockets[j]).in_ack_list
                == keys.skip(i).contains(self.sockets[j].peer.key)
        &&& forall|j: int|
            0 <= j < keys.len() ==> keys_of(self.sockets).contains(#[trigger] keys[j])
    }
}

proof fn lemma_issuing_start(c: ContextView, now: Now)
    requires
        c.wf(),
    ensures
        (ContextView { io: IoView { now, ack_list: Seq::empty(), ..c.io }, ..c }).issuing(
            c.io.ack_list,
            0,
        ),
{
    reveal(owing_wf);
    let keys = c.io.ack_list;
    assert(keys.skip(0) =~= keys);
    assert forall|j: int| 0 <= j < keys.len() implies keys_of(c.sockets).contains(
        #[trigger] keys[j],
    ) by {
        assert(keys.contains(keys[j]));
    }
}

proof fn lemma_issuing_step(c: ContextView, keys: Seq<Key>, i: int)
    requires
        c.issuing(keys, i),
        0 <= i < keys.len(),
    ensures
        c.has_key(keys[i]),
        c.ack_issued(keys[i]).issuing(keys, i + 1),
        c.sockets[c.index_of(keys[i])].relieved().wf(),
{
    let key = keys[i];
    assert(keys_of(c.sockets).contains(key));
    let p = choose|p: int| 0 <= p < c.sockets.len() && keys_of(c.sockets)[p] == key;
    assert(c.sockets[p].peer.key == key);
    lemma_index(c, p);
    reveal(all_wf);
    let st = St { s: c.sockets[p].relieved(), io: c.io };
    lemma_ack_sent(st);
    let d = c.ack_issued(key);
    assert(d.sockets[p] == ack_sent(st).s);
    assert(keys_of(d.sockets) =~= keys_of(c.sockets));
    assert(ids_of(d.sockets, d.gone) =~= ids_of(c.sockets, c.gone));
    assert forall|j: int| 0 <= j < d.sockets.len() implies (#[trigger] d.sockets[j]).in_ack_list
        == keys.skip(i + 1).contains(d.sockets[j].peer.key) by {
        let k = c.sockets[j].peer.key;
        assert(keys_of(c.sockets)[j] == k);
        let rest = keys.skip(i);
        let less = keys.skip(i + 1);
        if j == p {
            if less.contains(key) {
                let m = choose|m: int| 0 <= m < less.len() && less[m] == key;
                assert(keys[i + 1 + m] == keys[i]);
            }
        } else {
            assert(k != key);
            assert(c.sockets[j].in_ack_list == rest.contains(k));
            if rest.contains(k) {
                let m = choose|m: int| 0 <= m < rest.len() && rest[m] == k;
                assert(less[m - 1] == k);
            }
            if less.contains(k) {
                let m = choose|m: int| 0 <= m < less.len() && less[m] == k;
                assert(rest[m + 1] == k);
            }
        }
    }
}

proof fn lemma_issuing_end(c: ContextView, keys: Seq<Key>)
    requires
        c.issuing(keys, keys.len() as int),
    ensures
        c.wf(),
{
    reveal(owing_wf);
    assert(c.io.ack_list =~= Seq::empty());
    assert(keys.skip(keys.len() as int) =~= Seq::empty());
}

/// Sending the acks that are owed leaves the context in order, and no ack owed.
proof fn lemma_acks_issued_from(c: ContextView, keys: Seq<Key>, i: int)
    requires
        c.issuing(keys, i),
        0 <= i <= keys.len(),
    ensures
        c.acks_issued_from(keys, i).wf(),
        c.acks_issued_from(keys, i).io.ack_list.len() == 0,
        c.acks_issued_from(keys, i).sockets.len() == c.sockets.len(),
    decreases keys.len() - i,
{
    reveal(ContextView::acks_issued_from);
    if i >= keys.len() {
        lemma_issuing_end(c, keys);
    } else {
        lemma_issuing_step(c, keys, i);
        lemma_acks_issued_from(c.ack_issued(keys[i]), keys, i + 1);
    }
}

/// Once the acks that are owed have been sent, none is owed.
pub proof fn lemma_acks_issued(c: ContextView, now: Now)
    requires
        c.wf(),
    ensures
        c.acks_issued(now).wf(),
        c.acks_issued(now).io.ack_list.len() == 0,
        c.acks_issued(now).sockets.len() == c.sockets.len(),
        forall|i: int|
            0 <= i < c.acks_issued(now).sockets.len() ==> !(#[trigger] c.acks_issued(
                now,
            ).sockets[i]).in_ack_list,
{
    lemma_issuing_start(c, now);
    let d = ContextView { io: IoView { now, ack_list: Seq::empty(), ..c.io }, ..c };
    lemma_acks_issued_from(d, c.io.ack_list, 0);
    reveal(owing_wf);
}

/// Whether `d` is an ack of all that the connection with a key has received.
pub open spec fn is_ack_of(c: ContextView, key: Key, d: DatagramView) -> bool {
    exists|i: int|
        0 <= i < c.sockets.len() && (#[trigger] c.sockets[i]).peer.key == key && d.addr == key.addr
            && d.data[0] == 0x21 && be16(d.data, 18) == c.sockets[i].recv.ack_nr
}

proof fn lemma_acks_out_from(b: ContextView, c: ContextView, keys: Seq<Key>, i: int)
    requires
        c.issuing(keys, i),
        0 <= i <= keys.len(),
        b.sockets.len() == c.sockets.len(),
        forall|j: int|
            0 <= j < b.sockets.len() ==> (#[trigger] c.sockets[j]).peer == b.sockets[j].peer
                && c.sockets[j].recv == b.sockets[j].recv,
    ensures
        ({
            let after = c.acks_issued_from(keys, i).io.outgoing;
            let n = c.io.outgoing.len();
            &&& after.len() == n + keys.len() - i
            &&& after.take(n as int) == c.io.outgoing
            &&& forall|j: int|
                i <= j < keys.len() ==> is_ack_of(b, #[trigger] keys[j], after[n + j - i])
        }),
    decreases keys.len() - i,
{
    reveal(ContextView::acks_issued_from);
    let n = c.io.outgoing.len() as int;
    let after = c.acks_issued_from(keys, i).io.outgoing;
    if i >= keys.len() {
        assert(after.take(n) =~= c.io.outgoing);
    } else {
        lemma_issuing_step(c, keys, i);
        let d = c.ack_issued(keys[i]);
        let p = c.index_of(keys[i]);
        let st = St { s: c.sockets[p].relieved(), io: c.io };
        assert(c.sockets[p].peer.key == keys[i]);
        lemma_ack_sent(st);
        lemma_ack_tells_all(st);
        assert forall|j: int| 0 <= j < b.sockets.len() implies (#[trigger] d.sockets[j]).peer
            == b.sockets[j].peer && d.sockets[j].recv == b.sockets[j].recv by {
            assert(c.sockets[j].peer == b.sockets[j].peer);
        }
        lemma_acks_out_from(b, d, keys, i + 1);
        assert(after.take(n) =~= after.take(n + 1).drop_last());
        assert(after.take(n + 1)[n] == after[n]);
        assert(b.sockets[p].peer.key == keys[i]);
        assert(is_ack_of(b, keys[i], after[n]));
        assert forall|j: int| i <= j < keys.len() implies is_ack_of(
            b,
            #[trigger] keys[j],
            after[n + j - i],
        ) by {
            if j > i {
                assert(n + j - i == n + 1 + j - (i + 1));
            }
        }
    }
}

proof fn lemma_acks_leave_users_from(c: ContextView, keys: Seq<Key>, i: int)
    requires
        c.issuing(keys, i),
        0 <= i <= keys.len(),
    ensures
        c.acks_issued_from(keys, i).sockets.len() == c.sockets.len(),
        forall|j: int|
            0 <= j < c.sockets.len() ==> (#[trigger] c.acks_issued_from(keys, i).sockets[j]).user
                == c.sockets[j].user,
    decreases keys.len() - i,
{
    reveal(ContextView::acks_issued_from);
    if i < keys.len() {
        lemma_issuing_step(c, keys, i);
        let d = c.ack_issued(keys[i]);
        let p = c.index_of(keys[i]);
        lemma_ack_sent(St { s: c.sockets[p].relieved(), io: c.io });
        lemma_acks_leave_users_from(d, keys, i + 1);
        assert forall|j: int| 0 <= j < c.sockets.len() implies (#[trigger] c.acks_issued_from(
            keys,
            i,
        ).sockets[j]).user == c.sockets[j].user by {
            assert(d.acks_issued_from(keys, i + 1).sockets[j].user == d.sockets[j].user);
        }
    }
}

/// Acks are no news to the users.
pub proof fn lemma_acks_leave_users(c: ContextView, now: Now)
    requires
        c.wf(),
    ensures
        c.acks_issued(now).sockets.len() == c.sockets.len(),
        forall|j: int|
            0 <= j < c.sockets.len() ==> (#[trigger] c.acks_issued(now).sockets[j]).user
                == c.sockets[j].user,
{
    lemma_issuing_start(c, now);
    let d = ContextView { io: IoView { now, ack_list: Seq::empty(), ..c.io }, ..c };
    lemma_acks_leave_users_from(d, c.io.ack_list, 0);
}

/// Every connection that owes an ack gets one out, of all that it has received,
/// and no other connection does.
pub proof fn lemma_owed_acks_go_out(c: ContextView, now: Now)
    requires
        c.wf(),
    ensures
        ({
            let after = c.acks_issued(now).io.outgoing;
            let n = c.io.outgoing.len();
            &&& after.len() == n + c.io.ack_list.len()
            &&& after.take(n as int) == c.io.outgoing
            &&& forall|j: int|
                0 <= j < c.io.ack_list.len() ==> is_ack_of(
                    c,
                    #[trigger] c.io.ack_list[j],
                    after[n + j],
                )
        }),
{
    lemma_issuing_start(c, now);
    let d = ContextView { io: IoView { now, ack_list: Seq::empty(), ..c.io }, ..c };
    lemma_acks_out_from(c, d, c.io.ack_list, 0);
}

/// A rejected stream is remembered for ten seconds, and forgotten then.
pub proof fn lemma_rejections_are_forgotten(list: Seq<RstInfo>, current_ms: u64, r: RstInfo)
    requires
        r.timestamp <= current_ms,
        current_ms - r.timestamp < 0x8000_0000,
    ensures
        rst_kept(list, current_ms).contains(r) <==> list.contains(r) && current_ms - r.timestamp
            < 10000,
        rst_kept(list, current_ms).len() <= list.len(),
    decreases list.len(),
{
    if list.len() > 0 {
        let front = list.drop_last();
        let last = list.last();
        lemma_rejections_are_forgotten(front, current_ms, r);
        let kept = rst_kept(front, current_ms);
        let all = rst_kept(list, current_ms);
        assert(list.contains(r) <==> front.contains(r) || r == last) by {
            if list.contains(r) {
                let i = choose|i: int| 0 <= i < list.len() && list[i] == r;
                if i < front.len() {
                    assert(front[i] == r);
                }
            }
            if front.contains(r) {
                let i = choose|i: int| 0 <= i < front.len() && front[i] == r;
                assert(list[i] == r);
            }
            if r == last {
                assert(list[list.len() - 1] == r);
            }
        }
        if !last.expired(current_ms) {
            assert(all.contains(r) <==> kept.contains(r) || r == last) by {
                if all.contains(r) {
                    let i = choose|i: int| 0 <= i < all.len() && all[i] == r;
                    if i < kept.len() {
                        assert(kept[i] == r);
                    }
                }
                if kept.contains(r) {
                    let i = choose|i: int| 0 <= i < kept.len() && kept[i] == r;
                    assert(all[i] == r);
                }
                if r == last {
                    assert(all[all.len() - 1] == r);
                }
            }
        }
    }
}

/// Moving one of the first numbers behind the others, or dropping it, keeps
/// them apart.
proof fn lemma_moved_apart(a: Seq<u64>, b: Seq<u64>, i: int)
    requires
        (a + b).no_duplicates(),
        0 <= i < a.len(),
    ensures
        (a.remove(i) + b).no_duplicates(),
        (a.remove(i) + b.push(a[i])).no_duplicates(),
{
    let all = a + b;
    let n = a.len() as int;
    let c = a.remove(i) + b.push(a[i]);
    let from = |k: int|
        if k < i {
            k
        } else if k < n - 1 + b.len() {
            k + 1
        } else {
            i
        };
    assert forall|k: int| 0 <= k < c.len() implies #[trigger] c[k] == all[from(k)] && 0 <= from(k)
        < all.len() by {
        if k < n - 1 {
            if k < i {
                assert(c[k] == a[k]);
            } else {
                assert(c[k] == a[k + 1]);
            }
        } else if k < n - 1 + b.len() {
            assert(c[k] == b[k - (n - 1)]);
        } else {
            assert(c[k] == a[i]);
        }
    }
    assert forall|k: int, l: int| 0 <= k < c.len() && 0 <= l < c.len() && k != l implies c[k]
        != c[l] by {
        assert(c[k] == all[from(k)]);
        assert(c[l] == all[from(l)]);
        assert(from(k) != from(l));
    }
    let d = a.remove(i) + b;
    assert forall|k: int, l: int| 0 <= k < d.len() && 0 <= l < d.len() && k != l implies d[k]
        != d[l] by {
        assert(d[k] == c[k]);
        assert(d[l] == c[l]);
    }
}

/// Taking a socket out leaves the context in order.
pub proof fn lemma_destroyed(c: ContextView, i: int)
    requires
        c.wf(),
        0 <= i < c.sockets.len(),
    ensures
        c.destroyed(i).wf(),
        c.destroyed(i).sockets.len() == c.sockets.len() - 1,
{
    let d = c.destroyed(i);
    let key = c.sockets[i].peer.key;
    let keys = keys_of(c.sockets);
    assert(keys_of(d.sockets) =~= keys.remove(i));
    assert forall|k: int, l: int|
        0 <= k < d.sockets.len() && 0 <= l < d.sockets.len() && k != l implies
        #[trigger] keys.remove(i)[k] != #[trigger] keys.remove(i)[l] by {
        let fk = if k < i { k } else { k + 1 };
        let fl = if l < i { l } else { l + 1 };
        assert(keys.remove(i)[k] == keys[fk]);
        assert(keys.remove(i)[l] == keys[fl]);
    }
    assert(ids_wf(ids_of(d.sockets, d.gone), d.next_id)) by {
        reveal(ids_wf);
        let a = c.sockets.map_values(|s: SockView| s.user.id);
        let b = c.gone.map_values(|c: ConnView| c.id);
        assert(ids_of(c.sockets, c.gone) == a + b);
        lemma_moved_apart(a, b, i);
        assert(d.sockets.map_values(|s: SockView| s.user.id) =~= a.remove(i));
        let all = a + b;
        if c.sockets[i].user.released {
            assert(ids_of(d.sockets, d.gone) =~= a.remove(i) + b);
            let ids = ids_of(d.sockets, d.gone);
            assert forall|k: int| 0 <= k < ids.len() implies #[trigger] ids[k] < c.next_id by {
                let f = if k < i { k } else { k + 1 };
                assert(ids[k] == all[f]);
            }
        } else {
            assert(d.gone.map_values(|c: ConnView| c.id) =~= b.push(a[i]));
            assert(ids_of(d.sockets, d.gone) =~= a.remove(i) + b.push(a[i]));
            let ids = ids_of(d.sockets, d.gone);
            assert forall|k: int| 0 <= k < ids.len() implies #[trigger] ids[k] < c.next_id by {
                let f = if k < i { k } else if k < all.len() - 1 { k + 1 } else { i };
                assert(ids[k] == all[f]);
            }
        }
    }
    reveal(all_wf);
    reveal(owing_wf);
    lemma_without(c.io.ack_list, key);
    assert forall|j: int| 0 <= j < d.sockets.len() implies (#[trigger] d.sockets[j]).in_ack_list
        == d.io.ack_list.contains(d.sockets[j].peer.key) by {
        let f = if j < i { j } else { j + 1 };
        assert(d.sockets[j] == c.sockets[f]);
        assert(keys[f] == c.sockets[f].peer.key);
        assert(keys[i] == key);
        assert(keys[f] != keys[i]);
    }
    assert forall|k: Key| #[trigger] d.io.ack_list.contains(k) implies keys_of(
        d.sockets,
    ).contains(k) by {
        assert(c.sockets[i].in_ack_list == c.io.ack_list.contains(key));
        assert(k != key);
        assert(c.io.ack_list.contains(k));
        let j = choose|j: int| 0 <= j < keys.len() && keys[j] == k;
        let f = if j < i { j } else { j - 1 };
        assert(keys.remove(i)[f] == k);
    }
}

/// A socket acting on the passing of time leaves the context in order.
pub proof fn lemma_timed(c: ContextView, i: int)
    requires
        c.wf(),
        0 <= i < c.sockets.len(),
    ensures
        c.put(i, timeouts_checked(c.st_at(i))).wf(),
        c.timed(i).wf(),
{
    reveal(all_wf);
    lemma_timeouts_checked(c.st_at(i));
    lemma_put(c, i, timeouts_checked(c.st_at(i)));
    let d = c.put(i, timeouts_checked(c.st_at(i)));
    if d.sockets[i].state == ConnState::Destroy {
        lemma_destroyed(d, i);
    }
}

proof fn lemma_timed_from(c: ContextView, i: int)
    requires
        c.wf(),
        0 <= i <= c.sockets.len(),
    ensures
        c.timed_from(i).wf(),
    decreases c.sockets.len() - i,
{
    reveal(ContextView::timed_from);
    if i < c.sockets.len() {
        lemma_timed(c, i);
        let d = c.timed(i);
        if d.sockets.len() == c.sockets.len() {
            lemma_timed_from(d, i + 1);
        } else {
            lemma_timed_from(d, i);
        }
    }
}

/// Looking at the timers leaves the context in order.
pub proof fn lemma_context_timeouts(c: ContextView, now: Now)
    requires
        c.wf(),
    ensures
        c.timeouts_checked(now).wf(),
{
    let d = ContextView {
        io: IoView { now, current_ms: now.ms, ..c.io },
        last_check: now.ms,
        rst_info: rst_kept(c.rst_info, now.ms),
        ..c
    };
    lemma_timed_from(d, 0);
}

/// Taking all sockets out leaves the context in order, and nothing owed.
pub proof fn lemma_emptied(c: ContextView)
    requires
        c.wf(),
    ensures
        c.emptied().wf(),
        c.emptied().sockets.len() == 0,
        c.emptied().io.ack_list.len() == 0,
        c.emptied().io.outgoing == c.io.outgoing,
    decreases c.sockets.len(),
{
    reveal(ContextView::emptied);
    if c.sockets.len() == 0 {
        reveal(owing_wf);
        if c.io.ack_list.len() > 0 {
            assert(c.io.ack_list.contains(c.io.ack_list[0]));
        }
    } else {
        lemma_destroyed(c, 0);
        lemma_emptied(c.destroyed(0));
    }
}

proof fn lemma_sock_views_remove(s: Seq<UtpSock>, i: int)
    requires
        0 <= i < s.len(),
    ensures
        sock_views(s.remove(i)) == sock_views(s).remove(i),
{
    reveal(sock_views);
    assert(sock_views(s.remove(i)) =~= sock_views(s).remove(i));
}

proof fn lemma_conn_views_push(s: Seq<ConnShared>, x: ConnShared)
    ensures
        conn_views(s.push(x)) == conn_views(s).push(x@),
{
    reveal(conn_views);
    assert(conn_views(s.push(x)) =~= conn_views(s).push(x@));
}

impl Context {
    /// Sends an ack for the connection with a key.
    fn issue_ack(&mut self, key: Key)
        requires
            keys_of(old(self)@.sockets).no_duplicates(),
            old(self).bufs_wf(),
        ensures
            final(self)@ == old(self)@.ack_issued(key),
            final(self).bufs_wf(),
            final(self).clock == old(self).clock,
    {
        match self.find(key) {
            Some(i) => {
                let ghost c = self@;
                let ghost sockets = self.sockets@;
                proof {
                    lemma_sock_views(sockets);
                    assert(c.sockets[i as int] == sockets[i as int]@);
                }
                self.sockets[i].send_deferred_ack(&mut self.io);
                proof {
                    lemma_sock_views_update(sockets, i as int, self.sockets@[i as int]);
                    assert(self.sockets@ =~= sockets.update(i as int, self.sockets@[i as int]));
                }
            },
            None => {},
        }
    }

    /// Sends all acks that are owed, with the clock at `now`.
    pub fn issue_deferred_acks_at(&mut self, now: Now)
        requires
            old(self).wf(),
        ensures
            final(self).wf(),
            final(self)@ == old(self)@.acks_issued(now),
            final(self).clock == old(self).clock,
    {
        let ghost c = self@;
        proof {
            lemma_issuing_start(c, now);
            lemma_acks_issued(c, now);
        }
        self.io.now = now;
        let mut keys: Vec<Key> = Vec::new();
        std::mem::swap(&mut keys, &mut self.io.ack_list);
        let mut i: usize = 0;
        assert(self@.io.ack_list =~= Seq::empty());
        while i < keys.len()
            invariant
                i <= keys@.len(),
                keys@ == c.io.ack_list,
                self@.issuing(keys@, i as int),
                self@.acks_issued_from(keys@, i as int) == c.acks_issued(now),
                self.bufs_wf(),
                self.clock == old(self).clock,
            decreases keys@.len() - i,
        {
            proof {
                lemma_issuing_step(self@, keys@, i as int);
                reveal(ContextView::acks_issued_from);
            }
            self.issue_ack(keys[i]);
            i = i + 1;
        }
        proof {
            reveal(ContextView::acks_issued_from);
        }
    }

    /// Sends all acks that are owed.
    pub fn issue_deferred_acks(&mut self)
        requires
            old(self).wf(),
        ensures
            final(self).wf(),
            exists|nanos: u128|
                final(self)@ == old(self)@.acks_issued(#[trigger] Now::after(nanos)),
            final(self).clock == old(self).clock,
    {
        let now: Now = self.clock.now();
        self.issue_deferred_acks_at(now)
    }

    /// Takes a socket out.
    fn destroy_sock(&mut self, i: usize)
        requires
            old(self).wf(),
            i < old(self).sockets@.len(),
        ensures
            final(self).wf(),
            final(self)@ == old(self)@.destroyed(i as int),
            final(self).sockets@.len() == old(self).sockets@.len() - 1,
            final(self).clock == old(self).clock,
    {
        let ghost c = self@;
        let ghost sockets = self.sockets@;
        proof {
            lemma_sock_views(sockets);
            lemma_sock_views_remove(sockets, i as int);
            lemma_destroyed(c, i as int);
            assert(c.sockets[i as int] == sockets[i as int]@);
        }
        let mut sock: UtpSock = self.sockets.remove(i);
        sock.user.on_destroying();
        sock.ack_list_remove(&mut self.io);
        let user: ConnShared = sock.user;
        if !user.released {
            proof {
                lemma_conn_views_push(self.gone@, user);
            }
            self.gone.push(user);
        }
    }

    /// Forgets rejected streams after a while.
    fn expire_rst_info(&mut self)
        ensures
            final(self)@ == (ContextView {
                rst_info: rst_kept(old(self)@.rst_info, old(self)@.io.current_ms),
                ..old(self)@
            }),
            final(self).sockets == old(self).sockets,
            final(self).clock == old(self).clock,
    {
        let ghost list = self.rst_info@;
        let ms: u64 = self.io.current_ms;
        let mut kept: Vec<RstInfo> = Vec::new();
        let mut i: usize = 0;
        assert(list.take(0) =~= Seq::empty());
        while i < self.rst_info.len()
            invariant
                i <= list.len(),
                self.rst_info@ == list,
                kept@ == rst_kept(list.take(i as int), ms),
            decreases list.len() - i,
        {
            assert(list.take(i + 1).drop_last() =~= list.take(i as int));
            let r: RstInfo = self.rst_info[i];
            if (ms.wrapping_sub(r.timestamp) as u32 as i32) < RST_INFO_TIMEOUT {
                kept.push(r);
            }
            i = i + 1;
        }
        assert(list.take(i as int) =~= list);
        self.rst_info = kept;
    }

    /// Lets one socket act on the passing of time, and takes it out if that
    /// was its end. Returns whether it is still there.
    fn check_socket(&mut self, i: usize) -> (r: bool)
        requires
            old(self).wf(),
            i < old(self).sockets@.len(),
        ensures
            final(self).wf(),
            final(self)@ == old(self)@.timed(i as int),
            r ==> final(self).sockets@.len() == old(self).sockets@.len(),
            !r ==> final(self).sockets@.len() == old(self).sockets@.len() - 1,
            final(self).clock == old(self).clock,
    {
        let ghost c = self@;
        let ghost sockets = self.sockets@;
        proof {
            lemma_sock_views(sockets);
            reveal(all_wf);
            assert(c.sockets[i as int] == sockets[i as int]@);
            lemma_timed(c, i as int);
        }
        self.sockets[i].check_timeouts(&mut self.io);
        proof {
            lemma_sock_views_update(sockets, i as int, self.sockets@[i as int]);
            assert(self.sockets@ =~= sockets.update(i as int, self.sockets@[i as int]));
        }
        if self.sockets[i].state == ConnState::Destroy {
            self.destroy_sock(i);
            false
        } else {
            true
        }
    }

    /// Lets all sockets act on the passing of time, with the clock at `now`.
    /// Internally rate limited to every 500ms.
    pub fn check_timeouts_at(&mut self, now: Now)
        requires
            old(self).wf(),
        ensures
            final(self).wf(),
            final(self)@ == old(self)@.timeouts_checked(now),
            final(self).clock == old(self).clock,
    {
        let ghost c = self@;
        self.io.now = now;
        self.io.current_ms = now.ms;
        if now.ms.wrapping_sub(self.last_check) < TIMEOUT_CHECK_INTERVAL {
            return ;
        }
        self.last_check = now.ms;
        self.expire_rst_info();
        let mut i: usize = 0;
        proof {
            lemma_sock_views(self.sockets@);
        }
        while i < self.sockets.len()
            invariant
                self.wf(),
                i <= self.sockets@.len(),
                self@.timed_from(i as int) == c.timeouts_checked(now),
                self.clock == old(self).clock,
            decreases self.sockets@.len() - i,
        {
            proof {
                reveal(ContextView::timed_from);
                lemma_sock_views(self.sockets@);
            }
            let stays: bool = self.check_socket(i);
            proof {
                lemma_sock_views(self.sockets@);
            }
            if stays {
                i = i + 1;
            }
        }
        proof {
            reveal(ContextView::timed_from);
            lemma_sock_views(self.sockets@);
        }
    }

    /// Lets all sockets act on the passing of time.
    pub fn check_timeouts(&mut self)
        requires
            old(self).wf(),
        ensures
            final(self).wf(),
            exists|nanos: u128|
                final(self)@ == old(self)@.timeouts_checked(#[trigger] Now::after(nanos)),
            final(self).clock == old(self).clock,
    {
        let now: Now = self.clock.now();
        self.check_timeouts_at(now)
    }

    /// Tears down every socket immediately.
    pub fn destroy_all(&mut self)
        requires
            old(self).wf(),
        ensures
            final(self).wf(),
            final(self)@ == old(self)@.emptied(),
            final(self).clock == old(self).clock,
    {
        let ghost c = self@;
        while self.sockets.len() > 0
            invariant
                self.wf(),
                self@.emptied() == c.emptied(),
                self.clock == old(self).clock,
            decreases self.sockets@.len(),
        {
            proof {
                reveal(ContextView::emptied);
                lemma_sock_views(self.sockets@);
            }
            self.destroy_sock(0);
        }
        proof {
            reveal(ContextView::emptied);
            lemma_sock_views(self.sockets@);
        }
    }
}

impl UtpSock {
    /// Sends the ack that is owed; it is off the list already.
    fn send_deferred_ack(&mut self, io: &mut Io)
        requires
            old(self).bufs_wf(),
        ensures
            st(*final(self), *final(io)) == ack_sent(
                St { s: old(self)@.relieved(), io: old(io)@ },
            ),
            final(self).bufs_wf(),
    {
        self.in_ack_list = false;
        self.send_ack(io);
    }
}

} // verus!
