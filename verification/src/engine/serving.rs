//! Which connection a datagram concerns, and what becomes of one that concerns
//! none.

use crate::addr::SocketAddr;
use crate::clock::Now;
use crate::conn_shared::ErrorKind;
use crate::engine::context::{lemma_index, ContextView};
use crate::engine::incoming::arrived;
use crate::engine::laws::lemma_rst_missing;
use crate::engine::model::St;
use crate::engine::receive::{is_utp, ProcessUdp};
use crate::engine::state::{ConnState, IoView, Key};
use crate::packet::be16;
use vstd::prelude::*;

verus! {

/// A packet goes to the connection that it is for, and no other notices.
pub proof fn lemma_packet_finds_its_connection(
    c: ContextView,
    now: Now,
    buf: Seq<u8>,
    addr: SocketAddr,
    blocked: bool,
    i: int,
)
    requires
        c.wf(),
        is_utp(buf, addr),
        buf[0] / 16 <= 2,
        0 <= i < c.sockets.len(),
        c.sockets[i].peer.key.addr == addr,
        c.sockets[i].peer.key.recv_id == be16(buf, 2),
    ensures
        ({
            let (r, after) = c.received(now, buf, addr, blocked);
            let one = arrived(
                St { s: c.sockets[i], io: IoView { now, ..c.io } },
                buf,
                false,
            ).1;
            &&& r == ProcessUdp::Handled
            &&& after.sockets.len() == c.sockets.len()
            &&& after.sockets[i] == one.s
            &&& after.io == one.io
            &&& forall|j: int| 0 <= j < c.sockets.len() && j != i ==> (#[trigger] after.sockets[j])
                == c.sockets[j]
            &&& after.rst_info == c.rst_info
        }),
{
    let d = c.at_time(now);
    lemma_index(d, i);
    reveal(ContextView::delivered_to);
}

/// A packet that is for no connection is answered with a RST that names its
/// stream, unless that has been done, or too many have been of late. No
/// connection notices.
pub proof fn lemma_stray_packet_is_rejected(
    c: ContextView,
    now: Now,
    buf: Seq<u8>,
    addr: SocketAddr,
    blocked: bool,
)
    requires
        is_utp(buf, addr),
        buf[0] / 16 <= 2,
        !c.has_key(Key { addr, recv_id: be16(buf, 2) as u32 }),
    ensures
        ({
            let (r, after) = c.received(now, buf, addr, blocked);
            let d = after.io.outgoing.last();
            let known = exists|i: int|
                0 <= i < c.rst_info.len() && (#[trigger] c.rst_info[i]).addr == addr
                    && c.rst_info[i].connid == be16(buf, 2) && c.rst_info[i].ack_nr == be16(
                    buf,
                    16,
                );
            &&& r == ProcessUdp::Handled
            &&& after.sockets == c.sockets
            &&& known || c.rst_info.len() > 1000 ==> after.io.outgoing == c.io.outgoing
            &&& !known && c.rst_info.len() <= 1000 ==> {
                &&& after.io.outgoing.len() == c.io.outgoing.len() + 1
                &&& after.io.outgoing.drop_last() == c.io.outgoing
                &&& d.addr == addr
                &&& d.data.len() == 20
                &&& d.data[0] == 0x31
                &&& be16(d.data, 2) == be16(buf, 2)
                &&& be16(d.data, 18) == be16(buf, 16)
            }
        }),
{
    reveal(ContextView::rejected);
    let t = c.at_time(now);
    assert(!t.has_key(Key { addr, recv_id: be16(buf, 2) as u32 }));
    let id = be16(buf, 2) as u32;
    let seq = be16(buf, 16) as u16;
    lemma_rst_missing(c.rst_info, addr, id, seq);
    let after = c.received(now, buf, addr, blocked).1;
    if after.io.outgoing.len() == c.io.outgoing.len() + 1 {
        assert(after.io.outgoing.drop_last() =~= c.io.outgoing);
    }
}

/// A RST resets the connection that it names: that one fails, and no other
/// notices.
pub proof fn lemma_rst_finds_its_connection(
    c: ContextView,
    now: Now,
    buf: Seq<u8>,
    addr: SocketAddr,
    blocked: bool,
    i: int,
)
    requires
        c.wf(),
        is_utp(buf, addr),
        buf[0] / 16 == 3,
        0 <= i < c.sockets.len(),
    ensures
        ({
            let (r, after) = c.received(now, buf, addr, blocked);
            let s = c.sockets[i];
            let id = be16(buf, 2);
            let t = after.sockets[i];
            &&& r == ProcessUdp::Handled
            &&& after.sockets.len() == c.sockets.len()
            &&& after.io.outgoing == c.io.outgoing
            // the one that is named is reset
            &&& s.peer.key.addr == addr && s.peer.key.recv_id == id ==> {
                &&& t.state == (if s.send.close_requested {
                    ConnState::Destroy
                } else {
                    ConnState::Reset
                })
                &&& s.user.error is None ==> t.user.error == Some(ErrorKind::ConnectionReset)
                &&& t.user.notified
            }
            // others are not
            &&& s.peer.key.addr != addr || s.peer.key.recv_id != id && s.peer.conn_id_send != id
                ==> t == s
        }),
{
    reveal(ContextView::reset_received);
    let d = c.at_time(now);
    lemma_index(d, i);
    let id = be16(buf, 2) as u32;
    match d.reset_key(addr, id) {
        Some(key) => {
            let j = d.index_of(key);
            assert(d.has_key(key));
            assert(d.sockets[j].peer.key == key);
        },
        None => {},
    }
}

/// A SYN that comes again, or when there are too many connections, is ignored.
pub proof fn lemma_late_syn_is_ignored(
    c: ContextView,
    now: Now,
    buf: Seq<u8>,
    addr: SocketAddr,
    blocked: bool,
)
    requires
        is_utp(buf, addr),
        buf[0] / 16 == 4,
        c.has_key(Key { addr, recv_id: (be16(buf, 2) + 1) as u32 }) || c.sockets.len() > 3000,
    ensures
        ({
            let (r, after) = c.received(now, buf, addr, blocked);
            &&& r == ProcessUdp::Handled
            &&& after == c.at_time(now)
        }),
{
    let d = c.at_time(now);
    let key = d.accept_key(buf, addr);
    assert(key == Key { addr, recv_id: (be16(buf, 2) + 1) as u32 });
    if c.has_key(key) {
        let i = choose|i: int|
            0 <= i < c.sockets.len() && (#[trigger] c.sockets[i]).peer.key == key;
        assert(d.sockets[i].peer.key == key);
    }
}

/// A SYN that is not blocked and comes for the first time, while there are not
/// too many connections, makes a connection, which is handed out for
/// acceptance.
pub proof fn lemma_syn_makes_a_connection(
    c: ContextView,
    now: Now,
    buf: Seq<u8>,
    addr: SocketAddr,
)
    requires
        is_utp(buf, addr),
        buf[0] / 16 == 4,
        !c.has_key(Key { addr, recv_id: (be16(buf, 2) + 1) as u32 }),
        c.sockets.len() <= 3000,
    ensures
        ({
            let (r, after) = c.received(now, buf, addr, false);
            let key = Key { addr, recv_id: (be16(buf, 2) + 1) as u32 };
            &&& r == ProcessUdp::Accepted(key, c.next_id)
            &&& after == c.at_time(now).accepting(buf, addr)
        }),
{
    let d = c.at_time(now);
    let key = d.accept_key(buf, addr);
    assert(key == Key { addr, recv_id: (be16(buf, 2) + 1) as u32 });
    if d.has_key(key) {
        let i = choose|i: int|
            0 <= i < d.sockets.len() && (#[trigger] d.sockets[i]).peer.key == key;
        assert(c.sockets[i].peer.key == key);
    }
}

/// A RST may also name a connection by the id that its packets are sent under:
/// that is one less than the id they are received under if the peer dialled, and
/// one more if we did.
pub proof fn lemma_rst_by_sending_id(
    c: ContextView,
    now: Now,
    buf: Seq<u8>,
    addr: SocketAddr,
    blocked: bool,
    i: int,
)
    requires
        c.wf(),
        is_utp(buf, addr),
        buf[0] / 16 == 3,
        0 <= i < c.sockets.len(),
        c.sockets[i].peer.key.addr == addr,
        c.sockets[i].peer.conn_id_send == be16(buf, 2),
        !c.has_key(Key { addr, recv_id: be16(buf, 2) as u32 }),
        be16(buf, 2) > 0,
        c.sockets[i].peer.key.recv_id == be16(buf, 2) + 1 || c.sockets[i].peer.key.recv_id == be16(
            buf,
            2,
        ) - 1 && !c.has_key(Key { addr, recv_id: (be16(buf, 2) + 1) as u32 }),
    ensures
        ({
            let t = c.received(now, buf, addr, blocked).1.sockets[i];
            &&& t.state == ConnState::Reset || t.state == ConnState::Destroy
            &&& t.user.error is Some
            &&& t.user.notified
        }),
{
    reveal(ContextView::reset_received);
    let d = c.at_time(now);
    lemma_index(d, i);
    let id = be16(buf, 2) as u32;
    assert forall|k: Key| #[trigger] d.has_key(k) == c.has_key(k) by {
        if d.has_key(k) {
            let j = choose|j: int|
                0 <= j < d.sockets.len() && (#[trigger] d.sockets[j]).peer.key == k;
            assert(c.sockets[j].peer.key == k);
        }
        if c.has_key(k) {
            let j = choose|j: int|
                0 <= j < c.sockets.len() && (#[trigger] c.sockets[j]).peer.key == k;
            assert(d.sockets[j].peer.key == k);
        }
    }
    assert(d.reset_key(addr, id) == Some(c.sockets[i].peer.key));
}

} // verus!
