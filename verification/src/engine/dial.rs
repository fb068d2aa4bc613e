//! Dialling a peer.

use crate::addr::SocketAddr;
use crate::clock::Now;
use crate::engine::context::{
    keys_of, lemma_push, lemma_sock_views, lemma_sock_views_push, Context, ContextView,
};
use crate::engine::create::lemma_dialling;
use crate::engine::model::{packet_sent, St};
use crate::engine::send::st;
use crate::engine::state::{IoView, Key, Peer, SockView, UtpSock};
use crate::engine::transmit::{lemma_oldest_stays, lemma_packet_sent};
use crate::util::{lemma_rng_reaches, rng_after, rng_output};
use vstd::prelude::*;

verus! {

/// The `n`-th connection seed that a generator in state `rng` gives out from
/// now on, counted from 1.
pub open spec fn seed_drawn(rng: u64, n: nat) -> u32 {
    (rng_output(rng, n) as u32) & 0xffff
}

impl ContextView {
    /// Whether no connection with `addr` is received under `id`.
    pub open spec fn id_free(self, addr: SocketAddr, id: u32) -> bool {
        !self.has_key(Key { addr, recv_id: id })
    }

    /// Whether there is a connection seed left for `addr`.
    pub open spec fn can_dial(self, addr: SocketAddr) -> bool {
        exists|id: u32| id < 0x10000 && #[trigger] self.id_free(addr, id)
    }

    /// Whether the `n`-th draw gives the first seed that is free.
    pub open spec fn first_free(self, addr: SocketAddr, n: nat) -> bool {
        &&& n >= 1
        &&& self.id_free(addr, seed_drawn(self.rng, n))
        &&& forall|m: nat|
            1 <= m < n ==> !self.id_free(addr, #[trigger] seed_drawn(self.rng, m))
    }

    /// The number of draws it takes to get a seed that is free.
    pub open spec fn draws(self, addr: SocketAddr) -> nat {
        choose|n: nat| self.first_free(addr, n)
    }

    /// The key of the next connection to be dialled.
    pub open spec fn dial_key(self, addr: SocketAddr) -> Key {
        Key { addr, recv_id: seed_drawn(self.rng, self.draws(addr)) }
    }

    /// The socket of the next connection to be dialled, before it has sent its
    /// SYN.
    pub open spec fn dialler(self, now: Now, addr: SocketAddr) -> SockView {
        let key = self.dial_key(addr);
        let peer = Peer {
            key,
            conn_seed: key.recv_id,
            conn_id_recv: key.recv_id,
            conn_id_send: key.recv_id.wrapping_add(1),
        };
        let seq_nr = rng_output(self.rng, self.draws(addr) + 1) as u32 as u16;
        SockView::created(self.next_id, peer, self.options, now).dialling(seq_nr, now)
    }

    /// A connection to `addr` is dialled.
    #[verifier::opaque]
    pub open spec fn dialled(self, now: Now, addr: SocketAddr) -> ContextView {
        let s = self.dialler(now, addr);
        let io = IoView { now, current_ms: now.ms, ..self.io };
        let sent = packet_sent(St { s, io }, s.send.seq_nr.wrapping_sub(1));
        ContextView {
            sockets: self.sockets.push(sent.s),
            io: sent.io,
            rng: rng_after(self.rng, self.draws(addr) + 1),
            next_id: (self.next_id + 1) as u64,
            ..self
        }
    }
}

/// The first draw that is free is the first.
proof fn lemma_draws(c: ContextView, addr: SocketAddr, n: nat)
    requires
        c.first_free(addr, n),
    ensures
        c.draws(addr) == n,
{
    let m = c.draws(addr);
    assert(c.first_free(addr, m));
    if m < n {
        assert(!c.id_free(addr, seed_drawn(c.rng, m)));
    }
    if n < m {
        assert(!c.id_free(addr, seed_drawn(c.rng, n)));
    }
}

/// A free seed is drawn sooner or later.
proof fn lemma_seed_comes(c: ContextView, addr: SocketAddr, rng: u64) -> (n: nat)
    requires
        c.can_dial(addr),
    ensures
        n >= 1,
        c.id_free(addr, seed_drawn(rng, n)),
{
    let id = choose|id: u32| id < 0x10000 && #[trigger] c.id_free(addr, id);
    let target = id as u64;
    let n = lemma_rng_reaches(rng, target);
    assert((target as u32) & 0xffff == target as u32) by (bit_vector)
        requires
            target < 0x10000,
    ;
    n
}

/// As long as there are fewer connections than seeds, a peer can be dialled.
pub proof fn lemma_can_dial(c: ContextView, addr: SocketAddr)
    requires
        c.sockets.len() < 0x10000,
    ensures
        c.can_dial(addr),
{
    if !c.can_dial(addr) {
        let ids = Seq::new(0x10000, |i: int| Key { addr, recv_id: i as u32 });
        let keys = keys_of(c.sockets);
        assert forall|i: int| 0 <= i < 0x10000 implies keys.contains(#[trigger] ids[i]) by {
            assert(!c.id_free(addr, i as u32));
            let j = choose|j: int|
                0 <= j < c.sockets.len() && (#[trigger] c.sockets[j]).peer.key == ids[i];
            assert(keys[j] == ids[i]);
        }
        assert(ids.no_duplicates());
        ids.unique_seq_to_set();
        assert(ids.to_set().subset_of(keys.to_set()));
        vstd::set_lib::lemma_len_subset(ids.to_set(), keys.to_set());
        keys.lemma_cardinality_of_set();
    }
}

impl Context {
    /// Whether `addr` can be dialled: whether there is a connection seed left
    /// for it.
    pub fn can_dial(&self, addr: SocketAddr) -> (r: bool)
        requires
            self.wf(),
        ensures
            r == self@.can_dial(addr),
    {
        proof {
            lemma_sock_views(self.sockets@);
        }
        if self.sockets.len() < 0x10000 {
            proof {
                lemma_can_dial(self@, addr);
            }
            return true;
        }
        let mut id: u32 = 0;
        while id < 0x10000
            invariant
                self.wf(),
                id <= 0x10000,
                forall|i: u32| i < id ==> !#[trigger] self@.id_free(addr, i),
            decreases 0x10000 - id,
        {
            if self.find(Key { addr, recv_id: id }).is_none() {
                assert(self@.id_free(addr, id));
                return true;
            }
            id = id + 1;
        }
        false
    }

    /// Draws connection seeds until there is one that is free.
    fn draw_seed(&mut self, addr: SocketAddr) -> (seed: u32)
        requires
            old(self).wf(),
            old(self)@.can_dial(addr),
        ensures
            final(self).wf(),
            final(self)@ == (ContextView {
                rng: rng_after(old(self)@.rng, old(self)@.draws(addr)),
                ..old(self)@
            }),
            seed == seed_drawn(old(self)@.rng, old(self)@.draws(addr)),
            old(self)@.first_free(addr, old(self)@.draws(addr)),
            final(self).clock == old(self).clock,
    {
        let ghost c = self@;
        let ghost last = lemma_seed_comes(c, addr, c.rng);
        let ghost mut i: nat = 0;
        loop
            invariant
                self.wf(),
                c == old(self)@,
                self@ == (ContextView { rng: rng_after(c.rng, i), ..c }),
                forall|m: nat| 1 <= m <= i ==> !c.id_free(addr, #[trigger] seed_drawn(c.rng, m)),
                c.id_free(addr, seed_drawn(c.rng, last)),
                last >= 1,
                i < last,
            decreases last - i,
        {
            let seed: u32 = self.rng.next_u32() & 0xffff;
            proof {
                i = i + 1;
            }
            assert(seed == seed_drawn(c.rng, i));
            if self.find(Key { addr, recv_id: seed }).is_none() {
                proof {
                    assert(c.id_free(addr, seed)) by {
                        if c.has_key(Key { addr, recv_id: seed }) {
                            assert(self@.has_key(Key { addr, recv_id: seed }));
                        }
                    }
                    lemma_draws(c, addr, i);
                }
                return seed;
            }
            proof {
                assert(self@.has_key(Key { addr, recv_id: seed }));
                assert(c.has_key(Key { addr, recv_id: seed }));
                assert(!c.id_free(addr, seed));
            }
        }
    }

    /// Dials `addr`, with the clock at `now`. Returns the key and the number
    /// of the new connection.
    pub fn connect_at(&mut self, now: Now, addr: SocketAddr) -> (r: (Key, u64))
        requires
            old(self).wf(),
            old(self)@.can_dial(addr),
            old(self)@.next_id < u64::MAX,
        ensures
            final(self).wf(),
            final(self)@ == old(self)@.dialled(now, addr),
            r.0 == old(self)@.dial_key(addr),
            r.1 == old(self)@.next_id,
            !old(self)@.has_key(r.0),
            final(self).clock == old(self).clock,
    {
        let ghost c = self@;
        let seed: u32 = self.draw_seed(addr);
        let seq_nr: u16 = self.rng.next_u32() as u16;
        self.io.now = now;
        self.io.current_ms = now.ms;
        let key = Key { addr, recv_id: seed };
        let peer = Peer {
            key,
            conn_seed: seed,
            conn_id_recv: seed,
            conn_id_send: seed.wrapping_add(1),
        };
        let id: u64 = self.next_id;
        proof {
            lemma_dialling(id, peer, c.options, now, seq_nr);
        }
        let mut sock: UtpSock = UtpSock::new(id, peer, self.options, now);
        sock.dial(seq_nr, now);
        let ghost mid = self@;
        let ghost before = st(sock, self.io);
        proof {
            lemma_packet_sent(before, seq_nr);
            let after = packet_sent(before, seq_nr);
            lemma_oldest_stays(before.s, after.s);
            assert(after.s.wf());
            assert(!mid.has_key(key)) by {
                if mid.has_key(key) {
                    assert(c.has_key(key));
                }
            }
            lemma_push(mid, before.s, after);
        }
        sock.send_packet_at(&mut self.io, seq_nr);
        proof {
            reveal(ContextView::dialled);
            lemma_sock_views_push(self.sockets@, sock);
            assert(before.s.send.seq_nr.wrapping_sub(1) == seq_nr);
        }
        self.sockets.push(sock);
        self.next_id = id + 1;
        (key, id)
    }

    /// Dials `addr`. Returns the key and the number of the new connection.
    pub fn connect(&mut self, addr: SocketAddr) -> (r: (Key, u64))
        requires
            old(self).wf(),
            old(self)@.can_dial(addr),
            old(self)@.next_id < u64::MAX,
        ensures
            final(self).wf(),
            exists|nanos: u128|
                final(self)@ == old(self)@.dialled(#[trigger] Now::after(nanos), addr),
            r.0 == old(self)@.dial_key(addr),
            r.1 == old(self)@.next_id,
            !old(self)@.has_key(r.0),
            final(self).clock == old(self).clock,
    {
        let now: Now = self.clock.now();
        self.connect_at(now, addr)
    }
}

} // verus!
