//! What the users of the connections see of them, and what they send.

use crate::conn_shared::{ConnShared, ConnView, ErrorKind};
use crate::engine::context::{
    all_wf, conn_views, ids_of, ids_wf, keys_of, lemma_sock_views, lemma_sock_views_update,
    owing_wf, sock_views, Context, ContextView,
};
use crate::engine::state::{datagram_views, Datagram, IoView, SockView, UtpSock};
use vstd::prelude::*;

verus! {

impl ContextView {
    /// Whether the connection numbered `id` has a socket.
    pub open spec fn has_socket(self, id: u64) -> bool {
        exists|i: int| 0 <= i < self.sockets.len() && (#[trigger] self.sockets[i]).user.id == id
    }

    /// Whether the connection numbered `id` has lost its socket, and is still
    /// held.
    pub open spec fn is_gone(self, id: u64) -> bool {
        exists|i: int| 0 <= i < self.gone.len() && (#[trigger] self.gone[i]).id == id
    }

    /// Whether there is a connection numbered `id`.
    pub open spec fn has_conn(self, id: u64) -> bool {
        self.has_socket(id) || self.is_gone(id)
    }

    /// What the user of the connection numbered `id` sees.
    pub open spec fn conn(self, id: u64) -> ConnView {
        if self.has_socket(id) {
            let i = choose|i: int|
                0 <= i < self.sockets.len() && (#[trigger] self.sockets[i]).user.id == id;
            self.sockets[i].user
        } else {
            let i = choose|i: int| 0 <= i < self.gone.len() && (#[trigger] self.gone[i]).id == id;
            self.gone[i]
        }
    }

    /// The user of the connection numbered `id` sees `user` from now on.
    pub open spec fn with_conn(self, id: u64, user: ConnView) -> ContextView {
        ContextView {
            sockets: self.sockets.map_values(
                |s: SockView|
                    if s.user.id == id {
                        SockView { user, ..s }
                    } else {
                        s
                    },
            ),
            gone: self.gone.map_values(
                |c: ConnView|
                    if c.id == id {
                        user
                    } else {
                        c
                    },
            ),
            ..self
        }
    }

    /// The user of the connection numbered `id` lets go of it. One that has
    /// lost its socket is forgotten.
    pub open spec fn released(self, id: u64) -> ContextView {
        if self.has_socket(id) {
            self.with_conn(id, ConnView { released: true, ..self.conn(id) })
        } else {
            ContextView { gone: others(self.gone, id), ..self }
        }
    }
}

impl ConnView {
    pub open spec fn woken(self) -> ConnView {
        ConnView { notified: false, ..self }
    }
}

/// The numbers of the connections on which something has changed.
pub open spec fn notified_ids(conns: Seq<ConnView>) -> Seq<u64>
    decreases conns.len(),
{
    if conns.len() == 0 {
        Seq::empty()
    } else if conns.last().notified {
        notified_ids(conns.drop_last()).push(conns.last().id)
    } else {
        notified_ids(conns.drop_last())
    }
}

impl ContextView {
    /// What the users of all connections see.
    pub open spec fn conns(self) -> Seq<ConnView> {
        self.sockets.map_values(|s: SockView| s.user) + self.gone
    }

    /// Everybody has been told of what has changed.
    pub open spec fn all_woken(self) -> ContextView {
        ContextView {
            sockets: self.sockets.map_values(
                |s: SockView| SockView { user: s.user.woken(), ..s },
            ),
            gone: self.gone.map_values(|c: ConnView| c.woken()),
            ..self
        }
    }
}

/// The connections other than the one numbered `id`.
pub open spec fn others(conns: Seq<ConnView>, id: u64) -> Seq<ConnView>
    decreases conns.len(),
{
    if conns.len() == 0 {
        conns
    } else if conns.last().id == id {
        others(conns.drop_last(), id)
    } else {
        others(conns.drop_last(), id).push(conns.last())
    }
}

/// The place of the connection numbered `id`, in one list behind the other.
proof fn lemma_ids_at(c: ContextView)
    ensures
        forall|i: int|
            0 <= i < c.sockets.len() ==> ids_of(c.sockets, c.gone)[i] == (
            #[trigger] c.sockets[i]).user.id,
        forall|i: int|
            0 <= i < c.gone.len() ==> ids_of(c.sockets, c.gone)[c.sockets.len() + i] == (
            #[trigger] c.gone[i]).id,
        ids_of(c.sockets, c.gone).len() == c.sockets.len() + c.gone.len(),
{
}

/// A connection with a socket is told by its number.
pub proof fn lemma_conn_at(c: ContextView, i: int)
    requires
        c.wf(),
        0 <= i < c.sockets.len(),
    ensures
        c.has_socket(c.sockets[i].user.id),
        c.conn(c.sockets[i].user.id) == c.sockets[i].user,
        !c.is_gone(c.sockets[i].user.id),
{
    reveal(ids_wf);
    lemma_ids_at(c);
    let id = c.sockets[i].user.id;
    let ids = ids_of(c.sockets, c.gone);
    let j = choose|j: int| 0 <= j < c.sockets.len() && (#[trigger] c.sockets[j]).user.id == id;
    assert(ids[i] == ids[j]);
    if c.is_gone(id) {
        let k = choose|k: int| 0 <= k < c.gone.len() && (#[trigger] c.gone[k]).id == id;
        assert(ids[i] == ids[c.sockets.len() + k]);
    }
}

/// A connection that has lost its socket is told by its number.
pub proof fn lemma_gone_at(c: ContextView, i: int)
    requires
        c.wf(),
        0 <= i < c.gone.len(),
    ensures
        c.is_gone(c.gone[i].id),
        c.conn(c.gone[i].id) == c.gone[i],
        !c.has_socket(c.gone[i].id),
{
    reveal(ids_wf);
    lemma_ids_at(c);
    let id = c.gone[i].id;
    let n = c.sockets.len() as int;
    let ids = ids_of(c.sockets, c.gone);
    let j = choose|j: int| 0 <= j < c.gone.len() && (#[trigger] c.gone[j]).id == id;
    assert(ids[n + i] == ids[n + j]);
    if c.has_socket(id) {
        let k = choose|k: int| 0 <= k < c.sockets.len() && (#[trigger] c.sockets[k]).user.id == id;
        assert(ids[n + i] == ids[k]);
    }
}

/// What a user sees may change without the engine minding.
pub proof fn lemma_with_conn(c: ContextView, id: u64, user: ConnView)
    requires
        c.wf(),
        user.id == id,
        c.has_conn(id) && user.got_eof ==> c.conn(id).got_eof,
    ensures
        c.with_conn(id, user).wf(),
        keys_of(c.with_conn(id, user).sockets) == keys_of(c.sockets),
        c.has_conn(id) ==> c.with_conn(id, user).has_conn(id) && c.with_conn(id, user).conn(id)
            == user,
        c.has_socket(id) == c.with_conn(id, user).has_socket(id),
{
    let d = c.with_conn(id, user);
    assert(keys_of(d.sockets) =~= keys_of(c.sockets));
    assert(ids_of(d.sockets, d.gone) =~= ids_of(c.sockets, c.gone));
    reveal(all_wf);
    reveal(owing_wf);
    assert forall|i: int| 0 <= i < d.sockets.len() implies (#[trigger] d.sockets[i]).wf() by {
        assert(c.sockets[i].wf());
        if c.sockets[i].user.id == id {
            lemma_conn_at(c, i);
        }
    }
    assert forall|i: int| 0 <= i < d.sockets.len() implies (#[trigger] d.sockets[i]).in_ack_list
        == d.io.ack_list.contains(d.sockets[i].peer.key) by {
        assert(c.sockets[i].in_ack_list == c.io.ack_list.contains(c.sockets[i].peer.key));
    }
    if c.has_socket(id) {
        let i = choose|i: int| 0 <= i < c.sockets.len() && (#[trigger] c.sockets[i]).user.id == id;
        assert(d.sockets[i].user == user);
        lemma_conn_at(d, i);
    }
    if d.has_socket(id) {
        let i = choose|i: int| 0 <= i < d.sockets.len() && (#[trigger] d.sockets[i]).user.id == id;
        assert(c.sockets[i].user.id == id);
    }
    if c.is_gone(id) {
        let i = choose|i: int| 0 <= i < c.gone.len() && (#[trigger] c.gone[i]).id == id;
        assert(d.gone[i] == user);
        lemma_gone_at(d, i);
    }
}

/// Where there is no such connection, nothing changes.
pub proof fn lemma_with_no_conn(c: ContextView, id: u64, user: ConnView)
    requires
        !c.has_conn(id),
    ensures
        c.with_conn(id, user) == c,
{
    assert(c.with_conn(id, user).sockets =~= c.sockets);
    assert(c.with_conn(id, user).gone =~= c.gone);
}

proof fn lemma_with_conn_if(c: ContextView, id: u64, user: ConnView)
    requires
        c.wf(),
    ensures
        user.id == id && (c.has_conn(id) && user.got_eof ==> c.conn(id).got_eof) ==> c.with_conn(
            id,
            user,
        ).wf(),
{
    if user.id == id && (c.has_conn(id) && user.got_eof ==> c.conn(id).got_eof) {
        lemma_with_conn(c, id, user);
    }
}

/// Changing what one user sees changes one place.
pub proof fn lemma_with_conn_socket(c: ContextView, i: int, user: ConnView)
    requires
        c.wf(),
        0 <= i < c.sockets.len(),
    ensures
        c.with_conn(c.sockets[i].user.id, user) == (ContextView {
            sockets: c.sockets.update(i, SockView { user, ..c.sockets[i] }),
            ..c
        }),
{
    reveal(ids_wf);
    lemma_ids_at(c);
    let id = c.sockets[i].user.id;
    let ids = ids_of(c.sockets, c.gone);
    let d = c.with_conn(id, user);
    assert forall|j: int| 0 <= j < c.sockets.len() && j != i implies c.sockets[j].user.id != id by {
        assert(ids[i] != ids[j]);
    }
    assert forall|j: int| 0 <= j < c.gone.len() implies c.gone[j].id != id by {
        assert(ids[i] != ids[c.sockets.len() + j]);
    }
    assert(d.sockets =~= c.sockets.update(i, SockView { user, ..c.sockets[i] }));
    assert(d.gone =~= c.gone);
}

proof fn lemma_with_conn_gone(c: ContextView, i: int, user: ConnView)
    requires
        c.wf(),
        0 <= i < c.gone.len(),
    ensures
        c.with_conn(c.gone[i].id, user) == (ContextView { gone: c.gone.update(i, user), ..c }),
{
    reveal(ids_wf);
    lemma_ids_at(c);
    let id = c.gone[i].id;
    let n = c.sockets.len() as int;
    let ids = ids_of(c.sockets, c.gone);
    let d = c.with_conn(id, user);
    assert forall|j: int| 0 <= j < c.sockets.len() implies c.sockets[j].user.id != id by {
        assert(ids[n + i] != ids[j]);
    }
    assert forall|j: int| 0 <= j < c.gone.len() && j != i implies c.gone[j].id != id by {
        assert(ids[n + i] != ids[n + j]);
    }
    assert(d.sockets =~= c.sockets);
    assert(d.gone =~= c.gone.update(i, user));
}

pub proof fn lemma_conn_views(s: Seq<ConnShared>)
    ensures
        conn_views(s).len() == s.len(),
        forall|i: int| 0 <= i < s.len() ==> #[trigger] conn_views(s)[i] == s[i]@,
{
    reveal(conn_views);
}

proof fn lemma_conn_views_update(s: Seq<ConnShared>, i: int, x: ConnShared)
    requires
        0 <= i < s.len(),
    ensures
        conn_views(s.update(i, x)) == conn_views(s).update(i, x@),
{
    reveal(conn_views);
    assert(conn_views(s.update(i, x)) =~= conn_views(s).update(i, x@));
}

impl Context {
    /// The place of the socket of the connection numbered `id`.
    fn find_socket(&self, id: u64) -> (r: Option<usize>)
        ensures
            match r {
                Some(i) => i < self.sockets@.len() && self@.sockets[i as int].user.id == id,
                None => !self@.has_socket(id),
            },
    {
        proof {
            lemma_sock_views(self.sockets@);
        }
        let mut i: usize = 0;
        while i < self.sockets.len()
            invariant
                i <= self.sockets@.len(),
                self@.sockets.len() == self.sockets@.len(),
                forall|j: int|
                    0 <= j < self.sockets@.len() ==> #[trigger] self@.sockets[j]
                        == self.sockets@[j]@,
                forall|j: int| 0 <= j < i ==> (#[trigger] self@.sockets[j]).user.id != id,
            decreases self.sockets@.len() - i,
        {
            assert(self@.sockets[i as int] == self.sockets@[i as int]@);
            if self.sockets[i].user.id == id {
                return Some(i);
            }
            i = i + 1;
        }
        None
    }

    /// The place of a connection that has lost its socket.
    fn find_gone(&self, id: u64) -> (r: Option<usize>)
        ensures
            match r {
                Some(i) => i < self.gone@.len() && self@.gone[i as int].id == id,
                None => !self@.is_gone(id),
            },
    {
        proof {
            lemma_conn_views(self.gone@);
        }
        let mut i: usize = 0;
        while i < self.gone.len()
            invariant
                i <= self.gone@.len(),
                self@.gone.len() == self.gone@.len(),
                forall|j: int|
                    0 <= j < self.gone@.len() ==> #[trigger] self@.gone[j] == self.gone@[j]@,
                forall|j: int| 0 <= j < i ==> (#[trigger] self@.gone[j]).id != id,
            decreases self.gone@.len() - i,
        {
            assert(self@.gone[i as int] == self.gone@[i as int]@);
            if self.gone[i].id == id {
                return Some(i);
            }
            i = i + 1;
        }
        None
    }

    /// What the user of the connection numbered `id` sees.
    pub fn conn(&self, id: u64) -> (r: Option<&ConnShared>)
        requires
            self.wf(),
        ensures
            match r {
                Some(u) => self@.has_conn(id) && u@ == self@.conn(id),
                None => !self@.has_conn(id),
            },
    {
        proof {
            lemma_sock_views(self.sockets@);
            lemma_conn_views(self.gone@);
        }
        match self.find_socket(id) {
            Some(i) => {
                proof {
                    lemma_conn_at(self@, i as int);
                }
                Some(&self.sockets[i].user)
            },
            None => match self.find_gone(id) {
                Some(i) => {
                    proof {
                        lemma_gone_at(self@, i as int);
                    }
                    Some(&self.gone[i])
                },
                None => None,
            },
        }
    }

    /// What the user of the connection numbered `id` sees, to be changed.
    pub fn conn_mut(&mut self, id: u64) -> (r: Option<&mut ConnShared>)
        requires
            old(self).wf(),
        ensures
            match r {
                Some(u) => {
                    &&& old(self)@.has_conn(id)
                    &&& (*u)@ == old(self)@.conn(id)
                    &&& (*u)@.id == id
                    &&& final(u)@.id == id && (final(u)@.got_eof ==> (*u)@.got_eof) ==> {
                        &&& final(self)@ == old(self)@.with_conn(id, final(u)@)
                        &&& final(self).wf()
                    }
                },
                None => !old(self)@.has_conn(id) && *final(self) == *old(self),
            },
    {
        let ghost c = self@;
        let ghost sockets = self.sockets@;
        let ghost gone = self.gone@;
        proof {
            lemma_sock_views(self.sockets@);
            lemma_conn_views(self.gone@);
        }
        match self.find_socket(id) {
            Some(i) => {
                proof {
                    lemma_conn_at(c, i as int);
                    assert(c.sockets[i as int] == sockets[i as int]@);
                }
                let u: &mut ConnShared = &mut self.sockets[i].user;
                proof {
                    let x = UtpSock { user: *final(u), ..sockets[i as int] };
                    lemma_sock_views_update(sockets, i as int, x);
                    lemma_with_conn_socket(c, i as int, final(u)@);
                    lemma_with_conn_if(c, id, final(u)@);
                }
                Some(u)
            },
            None => match self.find_gone(id) {
                Some(i) => {
                    proof {
                        lemma_gone_at(c, i as int);
                        assert(c.gone[i as int] == gone[i as int]@);
                    }
                    let u: &mut ConnShared = &mut self.gone[i];
                    proof {
                        lemma_conn_views_update(gone, i as int, *final(u));
                        lemma_with_conn_gone(c, i as int, final(u)@);
                        lemma_with_conn_if(c, id, final(u)@);
                    }
                    Some(u)
                },
                None => None,
            },
        }
    }

    /// Takes the datagrams that are to be sent, in their order.
    pub fn take_outgoing(&mut self) -> (r: Vec<Datagram>)
        requires
            old(self).wf(),
        ensures
            final(self).wf(),
            datagram_views(r@) == old(self)@.io.outgoing,
            final(self)@ == (ContextView {
                io: IoView { outgoing: Seq::empty(), ..old(self)@.io },
                ..old(self)@
            }),
            final(self).clock == old(self).clock,
    {
        let mut r: Vec<Datagram> = Vec::new();
        std::mem::swap(&mut r, &mut self.io.outgoing);
        proof {
            reveal(datagram_views);
            assert(self@.io.outgoing =~= Seq::empty());
        }
        r
    }

    /// Notes that a datagram of the connection numbered `id` could not be
    /// sent. `clean` is what the datagram says.
    pub fn on_send_error(&mut self, id: u64, kind: ErrorKind, clean: bool)
        requires
            old(self).wf(),
        ensures
            final(self).wf(),
            final(self)@ == (if old(self)@.has_conn(id) {
                old(self)@.with_conn(id, old(self)@.conn(id).with_send_error(kind, clean))
            } else {
                old(self)@
            }),
            final(self).clock == old(self).clock,
    {
        match self.conn_mut(id) {
            Some(u) => u.on_send_error(kind, clean),
            None => {},
        }
    }

    /// Lets go of the connection numbered `id`.
    pub fn release(&mut self, id: u64)
        requires
            old(self).wf(),
        ensures
            final(self).wf(),
            final(self)@ == old(self)@.released(id),
            final(self).clock == old(self).clock,
    {
        let ghost c = self@;
        match self.find_socket(id) {
            Some(i) => {
                proof {
                    lemma_sock_views(self.sockets@);
                    lemma_conn_at(c, i as int);
                }
                match self.conn_mut(id) {
                    Some(u) => {
                        u.released = true;
                    },
                    None => {},
                }
            },
            None => {
                self.forget(id);
            },
        }
    }

    fn forget(&mut self, id: u64)
        requires
            old(self).wf(),
        ensures
            final(self).wf(),
            final(self)@ == (ContextView { gone: others(old(self)@.gone, id), ..old(self)@ }),
            final(self).clock == old(self).clock,
    {
        let ghost c = self@;
        proof {
            lemma_conn_views(self.gone@);
        }
        match self.find_gone(id) {
            Some(i) => {
                proof {
                    lemma_others_remove(c, i as int);
                    lemma_conn_views_remove(self.gone@, i as int);
                }
                let _u: ConnShared = self.gone.remove(i);
            },
            None => {
                proof {
                    lemma_others_none(c.gone, id);
                }
            },
        }
    }

    /// Takes the numbers of the connections on which something has changed, so
    /// that whoever waits for that can be woken.
    pub fn take_notified(&mut self) -> (r: Vec<u64>)
        requires
            old(self).wf(),
        ensures
            final(self).wf(),
            r@ == notified_ids(old(self)@.conns()),
            final(self)@ == old(self)@.all_woken(),
            final(self).clock == old(self).clock,
    {
        let ghost c = self@;
        let ghost users = c.conns();
        let ghost sockets = self.sockets@;
        let ghost gone = self.gone@;
        proof {
            lemma_sock_views(sockets);
            lemma_conn_views(gone);
            lemma_all_woken(c);
        }
        let mut r: Vec<u64> = Vec::new();
        let mut i: usize = 0;
        assert(users.take(0) =~= Seq::empty());
        while i < self.sockets.len()
            invariant
                i <= sockets.len(),
                self.sockets@.len() == sockets.len(),
                self@ == (ContextView { sockets: self@.sockets, ..c }),
                c.sockets == sock_views(sockets),
                c.sockets.len() == sockets.len(),
                users == c.conns(),
                r@ == notified_ids(users.take(i as int)),
                forall|j: int| 0 <= j < sockets.len() ==> #[trigger] c.sockets[j] == sockets[j]@,
                forall|j: int|
                    0 <= j < sockets.len() ==> (#[trigger] self.sockets@[j]).bufs_wf(),
                forall|j: int|
                    0 <= j < sockets.len() ==> (#[trigger] self.sockets@[j])@ == (if j < i {
                        SockView { user: c.sockets[j].user.woken(), ..c.sockets[j] }
                    } else {
                        c.sockets[j]
                    }),
                self.gone@ == gone,
            decreases sockets.len() - i,
        {
            assert(users.take(i + 1).drop_last() =~= users.take(i as int));
            assert(users[i as int] == c.sockets[i as int].user);
            assert(self.sockets@[i as int]@ == c.sockets[i as int]);
            if self.sockets[i].user.notified {
                r.push(self.sockets[i].user.id);
            }
            self.sockets[i].user.notified = false;
            i = i + 1;
        }
        assert(self@.sockets =~= c.all_woken().sockets) by {
            lemma_sock_views(self.sockets@);
        }
        let mut k: usize = 0;
        let ghost n = sockets.len() as int;
        while k < self.gone.len()
            invariant
                k <= gone.len(),
                self.gone@.len() == gone.len(),
                n == c.sockets.len(),
                self.bufs_wf(),
                self@ == (ContextView { sockets: c.all_woken().sockets, gone: self@.gone, ..c }),
                c.gone == conn_views(gone),
                c.gone.len() == gone.len(),
                users == c.conns(),
                users.len() == n + gone.len(),
                r@ == notified_ids(users.take(n + k)),
                forall|j: int| 0 <= j < gone.len() ==> #[trigger] c.gone[j] == gone[j]@,
                forall|j: int|
                    0 <= j < gone.len() ==> (#[trigger] self.gone@[j])@ == (if j < k {
                        c.gone[j].woken()
                    } else {
                        c.gone[j]
                    }),
            decreases gone.len() - k,
        {
            assert(users.take(n + k + 1).drop_last() =~= users.take(n + k));
            assert(users[n + k] == c.gone[k as int]);
            assert(self.gone@[k as int]@ == c.gone[k as int]);
            if self.gone[k].notified {
                r.push(self.gone[k].id);
            }
            self.gone[k].notified = false;
            k = k + 1;
        }
        assert(self@.gone =~= c.all_woken().gone) by {
            lemma_conn_views(self.gone@);
        }
        assert(users.take(n + k) =~= users);
        r
    }
}

/// Telling everybody leaves the context in order.
proof fn lemma_all_woken(c: ContextView)
    requires
        c.wf(),
    ensures
        c.all_woken().wf(),
{
    let d = c.all_woken();
    assert(keys_of(d.sockets) =~= keys_of(c.sockets));
    assert(ids_of(d.sockets, d.gone) =~= ids_of(c.sockets, c.gone));
    reveal(all_wf);
    reveal(owing_wf);
    assert forall|i: int| 0 <= i < d.sockets.len() implies (#[trigger] d.sockets[i]).wf() by {
        assert(c.sockets[i].wf());
    }
    assert forall|i: int| 0 <= i < d.sockets.len() implies (#[trigger] d.sockets[i]).in_ack_list
        == d.io.ack_list.contains(d.sockets[i].peer.key) by {
        assert(c.sockets[i].in_ack_list == c.io.ack_list.contains(c.sockets[i].peer.key));
    }
}

proof fn lemma_others_none(conns: Seq<ConnView>, id: u64)
    requires
        forall|i: int| 0 <= i < conns.len() ==> (#[trigger] conns[i]).id != id,
    ensures
        others(conns, id) == conns,
    decreases conns.len(),
{
    if conns.len() > 0 {
        let front = conns.drop_last();
        assert forall|i: int| 0 <= i < front.len() implies (#[trigger] front[i]).id != id by {
            assert(front[i] == conns[i]);
        }
        lemma_others_none(front, id);
        assert(conns.last() == conns[conns.len() - 1]);
        assert(front.push(conns.last()) =~= conns);
    }
}

proof fn lemma_others_one(conns: Seq<ConnView>, id: u64, i: int)
    requires
        0 <= i < conns.len(),
        conns[i].id == id,
        forall|j: int| 0 <= j < conns.len() && j != i ==> (#[trigger] conns[j]).id != id,
    ensures
        others(conns, id) == conns.remove(i),
    decreases conns.len(),
{
    let front = conns.drop_last();
    let n = conns.len() - 1;
    assert(conns.last() == conns[n]);
    if i == n {
        assert forall|j: int| 0 <= j < front.len() implies (#[trigger] front[j]).id != id by {
            assert(front[j] == conns[j]);
        }
        lemma_others_none(front, id);
        assert(conns.remove(i) =~= front);
    } else {
        assert(front[i] == conns[i]);
        assert forall|j: int| 0 <= j < front.len() && j != i implies (#[trigger] front[j]).id
            != id by {
            assert(front[j] == conns[j]);
        }
        lemma_others_one(front, id, i);
        assert(conns.remove(i) =~= front.remove(i).push(conns.last()));
    }
}

/// Forgetting a connection leaves the context in order.
proof fn lemma_others_remove(c: ContextView, i: int)
    requires
        c.wf(),
        0 <= i < c.gone.len(),
    ensures
        others(c.gone, c.gone[i].id) == c.gone.remove(i),
        (ContextView { gone: c.gone.remove(i), ..c }).wf(),
{
    reveal(ids_wf);
    lemma_ids_at(c);
    let id = c.gone[i].id;
    let n = c.sockets.len() as int;
    let ids = ids_of(c.sockets, c.gone);
    assert forall|j: int| 0 <= j < c.gone.len() && j != i implies (#[trigger] c.gone[j]).id
        != id by {
        assert(ids[n + i] != ids[n + j]);
    }
    lemma_others_one(c.gone, id, i);
    let d = ContextView { gone: c.gone.remove(i), ..c };
    assert(ids_of(d.sockets, d.gone) =~= ids.remove(n + i));
    let less = ids.remove(n + i);
    assert forall|k: int, l: int| 0 <= k < less.len() && 0 <= l < less.len() && k != l implies less[k]
        != less[l] by {
        let fk = if k < n + i { k } else { k + 1 };
        let fl = if l < n + i { l } else { l + 1 };
        assert(less[k] == ids[fk]);
        assert(less[l] == ids[fl]);
    }
}

proof fn lemma_conn_views_remove(s: Seq<ConnShared>, i: int)
    requires
        0 <= i < s.len(),
    ensures
        conn_views(s.remove(i)) == conn_views(s).remove(i),
{
    reveal(conn_views);
    assert(conn_views(s.remove(i)) =~= conn_views(s).remove(i));
}

/// The connections on which something has changed are exactly those that are
/// named.
pub proof fn lemma_notified_are_named(conns: Seq<ConnView>, id: u64)
    ensures
        notified_ids(conns).contains(id) <==> exists|i: int|
            0 <= i < conns.len() && (#[trigger] conns[i]).notified && conns[i].id == id,
    decreases conns.len(),
{
    if conns.len() > 0 {
        let front = conns.drop_last();
        let last = conns.last();
        lemma_notified_are_named(front, id);
        let named = notified_ids(front);
        if last.notified {
            let all = named.push(last.id);
            if named.contains(id) {
                let j = choose|j: int| 0 <= j < named.len() && named[j] == id;
                assert(all[j] == id);
            }
            if last.id == id {
                assert(all[named.len() as int] == id);
            }
            if all.contains(id) && last.id != id {
                let j = choose|j: int| 0 <= j < all.len() && all[j] == id;
                assert(named[j] == id);
            }
        }
        if named.contains(id) {
            let i = choose|i: int|
                0 <= i < front.len() && (#[trigger] front[i]).notified && front[i].id == id;
            assert(conns[i].notified && conns[i].id == id);
        }
        if last.notified && last.id == id {
            assert(conns[conns.len() - 1].notified);
        }
        if exists|i: int|
            0 <= i < conns.len() && (#[trigger] conns[i]).notified && conns[i].id == id {
            let i = choose|i: int|
                0 <= i < conns.len() && (#[trigger] conns[i]).notified && conns[i].id == id;
            if i < front.len() {
                assert(front[i].notified && front[i].id == id);
            }
        }
    }
}

/// Once everybody has been told, nobody is left to be told.
pub proof fn lemma_all_are_woken(c: ContextView)
    ensures
        forall|i: int|
            0 <= i < c.all_woken().conns().len() ==> !(#[trigger] c.all_woken().conns()[i]).notified,
        c.all_woken().conns().len() == c.conns().len(),
{
}

} // verus!
