//! All connections that share one port.

use crate::addr::SocketAddr;
use crate::clock::{Clock, Now};
use crate::conn_shared::{ConnShared, ConnView};
use crate::engine::create::Options;
use crate::engine::model::St;
use crate::engine::send::st;
use crate::engine::state::{datagram_views, Io, IoView, Key, SockView, UtpSock};
use crate::engine::transmit::owing_kept;
use crate::engine::write::{
    closing, drained, lemma_closing, lemma_drained, lemma_written, timed_io_frame, written,
};
use crate::util::{next_counter, rng_seed, Rng};
use vstd::prelude::*;

verus! {

/// microseconds
pub const CCONTROL_TARGET: usize = 100_000;

pub const DEFAULT_BUF: usize = 1_048_576;

/// A stream that was rejected with a RST.
#[derive(Clone, Copy, PartialEq, Eq, Structural, Debug)]
pub struct RstInfo {
    pub addr: SocketAddr,
    pub connid: u32,
    pub ack_nr: u16,
    pub timestamp: u64,
}

/// All connections that share one port. The datagrams that they send pile up
/// until they are taken to be put on the wire.
pub struct Context {
    pub sockets: Vec<UtpSock>,
    pub io: Io,
    pub rst_info: Vec<RstInfo>,
    pub options: Options,
    pub last_check: u64,
    pub clock: Clock,
    pub rng: Rng,
    /// connections whose socket is gone, but which their users still hold
    pub gone: Vec<ConnShared>,
    /// the number of the next connection
    pub next_id: u64,
}

pub struct ContextView {
    pub sockets: Seq<SockView>,
    pub io: IoView,
    pub rst_info: Seq<RstInfo>,
    pub options: Options,
    pub last_check: u64,
    pub clock: Clock,
    pub rng: u64,
    pub gone: Seq<ConnView>,
    pub next_id: u64,
}

#[verifier::opaque]
pub open spec fn sock_views(s: Seq<UtpSock>) -> Seq<SockView> {
    s.map_values(|x: UtpSock| x@)
}

#[verifier::opaque]
pub open spec fn conn_views(s: Seq<ConnShared>) -> Seq<ConnView> {
    s.map_values(|x: ConnShared| x@)
}

impl View for Context {
    type V = ContextView;

    open spec fn view(&self) -> ContextView {
        ContextView {
            sockets: sock_views(self.sockets@),
            io: self.io@,
            rst_info: self.rst_info@,
            options: self.options,
            last_check: self.last_check,
            clock: self.clock,
            rng: self.rng@,
            gone: conn_views(self.gone@),
            next_id: self.next_id,
        }
    }
}

/// The keys of the sockets.
pub open spec fn keys_of(sockets: Seq<SockView>) -> Seq<Key> {
    sockets.map_values(|s: SockView| s.peer.key)
}

/// The numbers of the connections, with and without a socket.
pub open spec fn ids_of(sockets: Seq<SockView>, gone: Seq<ConnView>) -> Seq<u64> {
    sockets.map_values(|s: SockView| s.user.id) + gone.map_values(|c: ConnView| c.id)
}

/// The numbers of the connections tell them apart, and the next number is past
/// them all.
#[verifier::opaque]
pub open spec fn ids_wf(ids: Seq<u64>, next_id: u64) -> bool {
    &&& ids.no_duplicates()
    &&& forall|i: int| 0 <= i < ids.len() ==> #[trigger] ids[i] < next_id
}

/// Every socket is in order.
#[verifier::opaque]
pub open spec fn all_wf(sockets: Seq<SockView>) -> bool {
    forall|i: int| 0 <= i < sockets.len() ==> (#[trigger] sockets[i]).wf()
}

/// The list of acks that are owed holds exactly the keys of the sockets that
/// owe one, each once.
#[verifier::opaque]
pub open spec fn owing_wf(sockets: Seq<SockView>, ack_list: Seq<Key>) -> bool {
    &&& ack_list.no_duplicates()
    &&& forall|i: int|
        0 <= i < sockets.len() ==> (#[trigger] sockets[i]).in_ack_list == ack_list.contains(
            sockets[i].peer.key,
        )
    &&& forall|k: Key| #[trigger] ack_list.contains(k) ==> keys_of(sockets).contains(k)
}

impl ContextView {
    pub open spec fn wf(self) -> bool {
        &&& all_wf(self.sockets)
        &&& keys_of(self.sockets).no_duplicates()
        &&& ids_wf(ids_of(self.sockets, self.gone), self.next_id)
        &&& owing_wf(self.sockets, self.io.ack_list)
    }

    pub open spec fn has_key(self, key: Key) -> bool {
        exists|i: int| 0 <= i < self.sockets.len() && (#[trigger] self.sockets[i]).peer.key == key
    }

    /// The place of the socket with a key.
    pub open spec fn index_of(self, key: Key) -> int {
        choose|i: int| 0 <= i < self.sockets.len() && (#[trigger] self.sockets[i]).peer.key == key
    }

    /// A socket together with what the sockets share.
    pub open spec fn st_at(self, i: int) -> St {
        St { s: self.sockets[i], io: self.io }
    }

    /// What a socket did is entered.
    pub open spec fn put(self, i: int, st: St) -> ContextView {
        ContextView { sockets: self.sockets.update(i, st.s), io: st.io, ..self }
    }

    /// The clock is read.
    pub open spec fn at_time(self, now: Now) -> ContextView {
        ContextView { io: IoView { now, ..self.io }, ..self }
    }

    /// `buf` is written to the connection with a key. Says how much of it was
    /// taken, or that there is no such connection.
    pub open spec fn written_to(
        self,
        now: Now,
        key: Key,
        buf: Seq<u8>,
    ) -> (Option<int>, ContextView) {
        let c = self.at_time(now);
        if c.has_key(key) {
            let i = c.index_of(key);
            let (n, after) = written(c.st_at(i), buf);
            (Some(n), c.put(i, after))
        } else {
            (None, c)
        }
    }

    /// The user of the connection with a key has read all there was.
    pub open spec fn drained_of(self, now: Now, key: Key) -> ContextView {
        let c = self.at_time(now);
        if c.has_key(key) {
            let i = c.index_of(key);
            c.put(i, drained(c.st_at(i)))
        } else {
            c
        }
    }

    /// The user of the connection with a key closes it.
    pub open spec fn closed_by(self, now: Now, key: Key) -> ContextView {
        let c = self.at_time(now);
        if c.has_key(key) {
            let i = c.index_of(key);
            c.put(i, closing(c.st_at(i)))
        } else {
            c
        }
    }
}

/// What one socket does leaves the context in order.
pub proof fn lemma_put(c: ContextView, i: int, after: St)
    requires
        c.wf(),
        0 <= i < c.sockets.len(),
        after.s.wf(),
        timed_io_frame(c.st_at(i), after),
    ensures
        c.put(i, after).wf(),
        keys_of(c.put(i, after).sockets) == keys_of(c.sockets),
        ids_of(c.put(i, after).sockets, c.gone) == ids_of(c.sockets, c.gone),
{
    let d = c.put(i, after);
    assert(keys_of(d.sockets) =~= keys_of(c.sockets));
    assert(ids_of(d.sockets, d.gone) =~= ids_of(c.sockets, c.gone));
    reveal(all_wf);
    reveal(owing_wf);
    reveal(owing_kept);
    let key = c.sockets[i].peer.key;
    assert(keys_of(c.sockets)[i] == key);
    assert(c.sockets[i].in_ack_list == c.io.ack_list.contains(key));
    assert forall|j: int| 0 <= j < d.sockets.len() implies (#[trigger] d.sockets[j]).in_ack_list
        == d.io.ack_list.contains(d.sockets[j].peer.key) by {
        if j != i {
            assert(keys_of(c.sockets)[j] != keys_of(c.sockets)[i]);
            assert(c.sockets[j].in_ack_list == c.io.ack_list.contains(c.sockets[j].peer.key));
        }
    }
    assert forall|k: Key| #[trigger] d.io.ack_list.contains(k) implies keys_of(
        d.sockets,
    ).contains(k) by {
        if k != key {
            assert(c.io.ack_list.contains(k));
        }
    }
}

/// A new connection leaves the context in order.
pub proof fn lemma_push(c: ContextView, new: SockView, after: St)
    requires
        c.wf(),
        !c.has_key(new.peer.key),
        !new.in_ack_list,
        new.user.id == c.next_id,
        c.next_id < u64::MAX,
        after.s.wf(),
        timed_io_frame(St { s: new, io: c.io }, after),
    ensures
        (ContextView {
            sockets: c.sockets.push(after.s),
            io: after.io,
            next_id: (c.next_id + 1) as u64,
            ..c
        }).wf(),
{
    let key = new.peer.key;
    let d = c.sockets.push(after.s);
    let keys = keys_of(c.sockets);
    assert(keys_of(d) =~= keys.push(key));
    assert forall|j: int| 0 <= j < keys.len() implies #[trigger] keys[j] != key by {
        assert(c.sockets[j].peer.key == keys[j]);
    }
    assert(keys_of(d).no_duplicates());
    assert(ids_wf(ids_of(d, c.gone), (c.next_id + 1) as u64)) by {
        reveal(ids_wf);
        let ids = ids_of(c.sockets, c.gone);
        let n = c.sockets.len() as int;
        assert(ids_of(d, c.gone) =~= ids.insert(n, c.next_id));
    }
    reveal(all_wf);
    reveal(owing_wf);
    reveal(owing_kept);
    assert(!c.io.ack_list.contains(key)) by {
        if c.io.ack_list.contains(key) {
            assert(keys.contains(key));
        }
    }
    assert forall|j: int| 0 <= j < d.len() implies (#[trigger] d[j]).in_ack_list
        == after.io.ack_list.contains(d[j].peer.key) by {
        if j < c.sockets.len() {
            assert(d[j] == c.sockets[j]);
            assert(keys[j] == c.sockets[j].peer.key);
        }
    }
    assert forall|k: Key| #[trigger] after.io.ack_list.contains(k) implies keys_of(d).contains(
        k,
    ) by {
        if k != key {
            assert(c.io.ack_list.contains(k));
            let j = choose|j: int| 0 <= j < keys.len() && keys[j] == k;
            assert(keys_of(d)[j] == k);
        } else {
            assert(keys_of(d)[keys.len() as int] == k);
        }
    }
}

/// There is at most one socket with a key.
pub proof fn lemma_index(c: ContextView, i: int)
    requires
        keys_of(c.sockets).no_duplicates(),
        0 <= i < c.sockets.len(),
    ensures
        c.has_key(c.sockets[i].peer.key),
        c.index_of(c.sockets[i].peer.key) == i,
{
    let key = c.sockets[i].peer.key;
    let j = c.index_of(key);
    assert(c.sockets[j].peer.key == key);
    assert(keys_of(c.sockets)[i] == keys_of(c.sockets)[j]);
}

pub proof fn lemma_sock_views(s: Seq<UtpSock>)
    ensures
        sock_views(s).len() == s.len(),
        forall|i: int| 0 <= i < s.len() ==> #[trigger] sock_views(s)[i] == s[i]@,
{
    reveal(sock_views);
}

pub proof fn lemma_sock_views_push(s: Seq<UtpSock>, x: UtpSock)
    ensures
        sock_views(s.push(x)) == sock_views(s).push(x@),
{
    reveal(sock_views);
    assert(sock_views(s.push(x)) =~= sock_views(s).push(x@));
}

pub proof fn lemma_sock_views_update(s: Seq<UtpSock>, i: int, x: UtpSock)
    requires
        0 <= i < s.len(),
    ensures
        sock_views(s.update(i, x)) == sock_views(s).update(i, x@),
{
    reveal(sock_views);
    assert(sock_views(s.update(i, x)) =~= sock_views(s).update(i, x@));
}

impl ContextView {
    /// Nothing has happened yet.
    pub open spec fn fresh(rng: u64, clock: Clock) -> ContextView {
        ContextView {
            sockets: Seq::empty(),
            io: IoView {
                now: Now { ms: 0, us: 0 },
                current_ms: 0,
                ack_list: Seq::empty(),
                outgoing: Seq::empty(),
            },
            rst_info: Seq::empty(),
            options: Options {
                target_delay: CCONTROL_TARGET,
                opt_sndbuf: DEFAULT_BUF,
                opt_rcvbuf: DEFAULT_BUF,
            },
            last_check: 0,
            clock,
            rng,
            gone: Seq::empty(),
            next_id: 0,
        }
    }
}

impl Context {
    /// A context whose connections draw their numbers from `rng`.
    pub fn with_rng(rng: Rng) -> (r: Context)
        ensures
            r.wf(),
            r@ == ContextView::fresh(rng@, r@.clock),
    {
        let r = Context {
            sockets: Vec::new(),
            io: Io {
                now: Now { ms: 0, us: 0 },
                current_ms: 0,
                ack_list: Vec::new(),
                outgoing: Vec::new(),
            },
            rst_info: Vec::new(),
            options: Options {
                target_delay: CCONTROL_TARGET,
                opt_sndbuf: DEFAULT_BUF,
                opt_rcvbuf: DEFAULT_BUF,
            },
            last_check: 0,
            clock: Clock::new(),
            rng,
            gone: Vec::new(),
            next_id: 0,
        };
        proof {
            reveal(sock_views);
            reveal(conn_views);
            reveal(datagram_views);
            reveal(all_wf);
            reveal(owing_wf);
            reveal(ids_wf);
            assert(sock_views(r.sockets@) =~= Seq::empty());
            assert(conn_views(r.gone@) =~= Seq::empty());
            assert(r.io@.outgoing =~= Seq::empty());
        }
        r
    }

    /// A context of its own, of a process that has made as many generators as
    /// `counter` tells.
    pub fn new(counter: &mut u64) -> (r: Context)
        ensures
            r.wf(),
            exists|nanos: u64|
                r@ == ContextView::fresh(#[trigger] rng_seed(nanos, *old(counter)), r@.clock),
            *final(counter) == next_counter(*old(counter)),
    {
        Context::with_rng(Rng::new(counter))
    }

    pub open spec fn wf(&self) -> bool {
        &&& self@.wf()
        &&& self.bufs_wf()
    }

    pub open spec fn bufs_wf(&self) -> bool {
        forall|i: int| 0 <= i < self.sockets@.len() ==> (#[trigger] self.sockets@[i]).bufs_wf()
    }

    /// The place of the socket with a key.
    pub fn find(&self, key: Key) -> (r: Option<usize>)
        requires
            keys_of(self@.sockets).no_duplicates(),
        ensures
            match r {
                Some(i) => {
                    &&& i < self.sockets@.len()
                    &&& self@.has_key(key)
                    &&& self@.index_of(key) == i
                },
                None => !self@.has_key(key),
            },
    {
        proof {
            lemma_sock_views(self.sockets@);
        }
        let mut i: usize = 0;
        while i < self.sockets.len()
            invariant
                i <= self.sockets@.len(),
                keys_of(self@.sockets).no_duplicates(),
                self@.sockets.len() == self.sockets@.len(),
                forall|j: int|
                    0 <= j < self.sockets@.len() ==> #[trigger] self@.sockets[j]
                        == self.sockets@[j]@,
                forall|j: int| 0 <= j < i ==> (#[trigger] self@.sockets[j]).peer.key != key,
            decreases self.sockets@.len() - i,
        {
            assert(self@.sockets[i as int] == self.sockets@[i as int]@);
            if self.sockets[i].peer.key == key {
                proof {
                    lemma_index(self@, i as int);
                }
                return Some(i);
            }
            i = i + 1;
        }
        None
    }

    /// Writes to a connection, with the clock at `now`. Returns None if the
    /// engine socket no longer exists.
    pub fn write_at(&mut self, now: Now, key: Key, buf: &[u8]) -> (r: Option<usize>)
        requires
            old(self).wf(),
        ensures
            final(self).wf(),
            final(self)@ == old(self)@.written_to(now, key, buf@).1,
            match r {
                Some(n) => old(self)@.written_to(now, key, buf@).0 == Some(n as int),
                None => old(self)@.written_to(now, key, buf@).0 is None,
            },
            final(self).clock == old(self).clock,
    {
        self.io.now = now;
        match self.find(key) {
            Some(i) => {
                let ghost c = self@;
                let ghost sockets = self.sockets@;
                proof {
                    lemma_sock_views(sockets);
                    reveal(all_wf);
                    assert(c.sockets[i as int] == sockets[i as int]@);
                    lemma_written(c.st_at(i as int), buf@);
                    lemma_put(c, i as int, written(c.st_at(i as int), buf@).1);
                }
                let n: usize = self.sockets[i].write_engine(&mut self.io, buf);
                proof {
                    lemma_sock_views_update(sockets, i as int, self.sockets@[i as int]);
                    assert(self.sockets@ =~= sockets.update(i as int, self.sockets@[i as int]));
                }
                Some(n)
            },
            None => None,
        }
    }

    /// Writes to a connection. Returns None if the engine socket no longer
    /// exists.
    pub fn write(&mut self, key: Key, buf: &[u8]) -> (r: Option<usize>)
        requires
            old(self).wf(),
        ensures
            final(self).wf(),
            exists|nanos: u128|
                {
                    let w = old(self)@.written_to(#[trigger] Now::after(nanos), key, buf@);
                    &&& final(self)@ == w.1
                    &&& match r {
                        Some(n) => w.0 == Some(n as int),
                        None => w.0 is None,
                    }
                },
            final(self).clock == old(self).clock,
    {
        let now: Now = self.clock.now();
        self.write_at(now, key, buf)
    }

    /// The user has read all there was, with the clock at `now`.
    pub fn read_drained_at(&mut self, now: Now, key: Key)
        requires
            old(self).wf(),
        ensures
            final(self).wf(),
            final(self)@ == old(self)@.drained_of(now, key),
            final(self).clock == old(self).clock,
    {
        self.io.now = now;
        match self.find(key) {
            Some(i) => {
                let ghost c = self@;
                let ghost sockets = self.sockets@;
                proof {
                    lemma_sock_views(sockets);
                    reveal(all_wf);
                    assert(c.sockets[i as int] == sockets[i as int]@);
                    lemma_drained(c.st_at(i as int));
                    lemma_put(c, i as int, drained(c.st_at(i as int)));
                }
                self.sockets[i].read_drained(&mut self.io);
                proof {
                    lemma_sock_views_update(sockets, i as int, self.sockets@[i as int]);
                    assert(self.sockets@ =~= sockets.update(i as int, self.sockets@[i as int]));
                }
            },
            None => {},
        }
    }

    pub fn read_drained(&mut self, key: Key)
        requires
            old(self).wf(),
        ensures
            final(self).wf(),
            exists|nanos: u128|
                final(self)@ == old(self)@.drained_of(#[trigger] Now::after(nanos), key),
            final(self).clock == old(self).clock,
    {
        let now: Now = self.clock.now();
        self.read_drained_at(now, key)
    }

    /// Closes a connection, with the clock at `now`.
    pub fn close_at(&mut self, now: Now, key: Key)
        requires
            old(self).wf(),
        ensures
            final(self).wf(),
            final(self)@ == old(self)@.closed_by(now, key),
            final(self).clock == old(self).clock,
    {
        self.io.now = now;
        match self.find(key) {
            Some(i) => {
                let ghost c = self@;
                let ghost sockets = self.sockets@;
                proof {
                    lemma_sock_views(sockets);
                    reveal(all_wf);
                    assert(c.sockets[i as int] == sockets[i as int]@);
                    lemma_closing(c.st_at(i as int));
                    lemma_put(c, i as int, closing(c.st_at(i as int)));
                }
                self.sockets[i].close_engine(&mut self.io);
                proof {
                    lemma_sock_views_update(sockets, i as int, self.sockets@[i as int]);
                    assert(self.sockets@ =~= sockets.update(i as int, self.sockets@[i as int]));
                }
            },
            None => {},
        }
    }

    pub fn close(&mut self, key: Key)
        requires
            old(self).wf(),
        ensures
            final(self).wf(),
            exists|nanos: u128|
                final(self)@ == old(self)@.closed_by(#[trigger] Now::after(nanos), key),
            final(self).clock == old(self).clock,
    {
        let now: Now = self.clock.now();
        self.close_at(now, key)
    }
}

} // verus!
