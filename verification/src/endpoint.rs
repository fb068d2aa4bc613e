//! The decisions behind a socket that is shared by its connections: what to do
//! with what arrives, and what a call that may have to wait is answered.
//!
//! A call that waits is a loop around one of the steps here: the step says
//! either what the call returns, or that there is nothing to return yet.

use crate::addr::SocketAddr;
use crate::clock::{Clock, Now};
use crate::conn_shared::{fitting, overlaid, ConnView, ErrorKind};
use crate::engine::context::{Context, ContextView};
use crate::engine::create::{lemma_answering, lemma_created, Options};
use crate::engine::incoming::{arrived, lemma_arrived};
use crate::engine::model::St;
use crate::engine::receive::ProcessUdp;
use crate::engine::state::{datagram_views, Datagram, IoView, Key};
use crate::engine::sweep::{lemma_acks_issued, lemma_emptied};
use crate::engine::users::{lemma_with_no_conn, notified_ids};
use crate::engine::write::lemma_ack_sent;
use crate::packet::HEADER_SIZE;
use crate::util::Rng;
use std::collections::VecDeque;
use vstd::prelude::*;

verus! {

/// Pending incoming connections we hold before they are accepted.
pub const BACKLOG: usize = 5;

/// Buffered non-uTP datagrams.
pub const NON_UTP_BACKLOG: usize = 100;

/// So many read errors in a row close the socket.
pub const MAX_READ_ERRORS: u32 = 100;

/// Why a call fails.
#[derive(Clone, Copy, PartialEq, Eq, Structural, Debug)]
pub enum Error {
    SocketClosed,
    ConnClosed,
    ConnDestroyed,
    ConnectFailed(ErrorKind),
    ConnectTimedOut,
    ReadFailed(ErrorKind),
    ReadTimedOut,
    WriteFailed(ErrorKind),
    WriteTimedOut,
}

impl Error {
    pub open spec fn spec_kind(self) -> ErrorKind {
        match self {
            Error::SocketClosed => ErrorKind::NotConnected,
            Error::ConnClosed => ErrorKind::NotConnected,
            Error::ConnDestroyed => ErrorKind::ConnectionAborted,
            Error::ConnectFailed(kind) => kind,
            Error::ConnectTimedOut => ErrorKind::TimedOut,
            Error::ReadFailed(kind) => kind,
            Error::ReadTimedOut => ErrorKind::TimedOut,
            Error::WriteFailed(kind) => kind,
            Error::WriteTimedOut => ErrorKind::TimedOut,
        }
    }

    pub open spec fn spec_message(self) -> Seq<char> {
        match self {
            Error::SocketClosed => "utp socket closed"@,
            Error::ConnClosed => "utp connection closed"@,
            Error::ConnDestroyed => "utp connection destroyed"@,
            Error::ConnectFailed(_) => "utp connect failed"@,
            Error::ConnectTimedOut => "utp connect timed out"@,
            Error::ReadFailed(_) => "utp read failed"@,
            Error::ReadTimedOut => "utp read timed out"@,
            Error::WriteFailed(_) => "utp write failed"@,
            Error::WriteTimedOut => "utp write timed out"@,
        }
    }

    pub fn kind(&self) -> (r: ErrorKind)
        ensures
            r == self.spec_kind(),
    {
        match self {
            Error::SocketClosed => ErrorKind::NotConnected,
            Error::ConnClosed => ErrorKind::NotConnected,
            Error::ConnDestroyed => ErrorKind::ConnectionAborted,
            Error::ConnectFailed(kind) => *kind,
            Error::ConnectTimedOut => ErrorKind::TimedOut,
            Error::ReadFailed(kind) => *kind,
            Error::ReadTimedOut => ErrorKind::TimedOut,
            Error::WriteFailed(kind) => *kind,
            Error::WriteTimedOut => ErrorKind::TimedOut,
        }
    }

    pub fn message(&self) -> (r: &'static str)
        ensures
            r@ == self.spec_message(),
    {
        match self {
            Error::SocketClosed => "utp socket closed",
            Error::ConnClosed => "utp connection closed",
            Error::ConnDestroyed => "utp connection destroyed",
            Error::ConnectFailed(_) => "utp connect failed",
            Error::ConnectTimedOut => "utp connect timed out",
            Error::ReadFailed(_) => "utp read failed",
            Error::ReadTimedOut => "utp read timed out",
            Error::WriteFailed(_) => "utp write failed",
            Error::WriteTimedOut => "utp write timed out",
        }
    }
}

/// The answer to a call that may have to wait.
#[derive(Debug)]
pub enum Step<T> {
    Done(T),
    Failed(Error),
    /// nothing yet
    Wait,
}

/// What became of a datagram that arrived.
#[derive(Clone, Copy, PartialEq, Eq, Structural, Debug)]
pub enum Arrival {
    /// there is a new connection to accept
    Connection,
    /// there is a datagram for someone else
    NonUtp,
    /// nothing that a call on the socket waits for
    Nothing,
}

/// A datagram that is not uTP, and where it came from.
pub struct Foreign {
    pub data: Vec<u8>,
    pub from: SocketAddr,
}

pub struct ForeignView {
    pub data: Seq<u8>,
    pub from: SocketAddr,
}

impl View for Foreign {
    type V = ForeignView;

    open spec fn view(&self) -> ForeignView {
        ForeignView { data: self.data@, from: self.from }
    }
}

/// A connection, as its user holds it.
#[derive(Clone, Copy, PartialEq, Eq, Structural, Debug)]
pub struct Handle {
    pub key: Key,
    pub id: u64,
}

pub struct Endpoint {
    ctx: Context,
    backlog: VecDeque<Handle>,
    non_utp: VecDeque<Foreign>,
    closed: bool,
    /// read errors since the last datagram
    read_errors: u32,
}

pub struct EndpointView {
    pub ctx: ContextView,
    pub backlog: Seq<Handle>,
    pub non_utp: Seq<ForeignView>,
    pub closed: bool,
    pub read_errors: u32,
}

#[verifier::opaque]
pub open spec fn foreign_views(s: Seq<Foreign>) -> Seq<ForeignView> {
    s.map_values(|x: Foreign| x@)
}

impl View for Endpoint {
    type V = EndpointView;

    closed spec fn view(&self) -> EndpointView {
        EndpointView {
            ctx: self.ctx@,
            backlog: self.backlog@,
            non_utp: foreign_views(self.non_utp@),
            closed: self.closed,
            read_errors: self.read_errors,
        }
    }
}

impl EndpointView {
    /// A socket that is closed has no connections, and nothing to hand out.
    pub open spec fn wf(self) -> bool {
        &&& self.ctx.wf()
        &&& self.backlog.len() <= BACKLOG
        &&& self.non_utp.len() <= NON_UTP_BACKLOG
        &&& self.read_errors <= MAX_READ_ERRORS
        &&& self.read_errors == MAX_READ_ERRORS ==> self.closed
        &&& self.closed ==> {
            &&& self.ctx.sockets.len() == 0
            &&& self.backlog.len() == 0
            &&& self.non_utp.len() == 0
        }
    }

    pub open spec fn fresh(rng: u64, clock: Clock) -> EndpointView {
        EndpointView {
            ctx: ContextView::fresh(rng, clock),
            backlog: Seq::empty(),
            non_utp: Seq::empty(),
            closed: false,
            read_errors: 0,
        }
    }

    /// A connection that there is no room for is closed immediately.
    pub open spec fn turned_away(self, now: Now, key: Key, id: u64) -> EndpointView {
        let c = self.ctx;
        let d = c.with_conn(id, ConnView { closed: true, released: true, ..c.conn(id) });
        EndpointView { ctx: d.closed_by(now, key), ..self }
    }

    /// A datagram arrives from `addr`. `blocked` tells whether an incoming
    /// connection from there is to be ignored.
    #[verifier::opaque]
    pub open spec fn processed(
        self,
        now: Now,
        buf: Seq<u8>,
        addr: SocketAddr,
        blocked: bool,
    ) -> (Arrival, EndpointView) {
        let (res, ctx) = self.ctx.received(now, buf, addr, blocked);
        let e = EndpointView { ctx, ..self };
        match res {
            ProcessUdp::NotUtp => if self.non_utp.len() < NON_UTP_BACKLOG {
                (
                    Arrival::NonUtp,
                    EndpointView {
                        non_utp: self.non_utp.push(ForeignView { data: buf, from: addr }),
                        ..e
                    },
                )
            } else {
                (Arrival::Nothing, e)
            },
            ProcessUdp::Handled => (Arrival::Nothing, e),
            ProcessUdp::Accepted(key, id) => if self.backlog.len() >= BACKLOG {
                (Arrival::Nothing, e.turned_away(now, key, id))
            } else {
                (
                    Arrival::Connection,
                    EndpointView { backlog: self.backlog.push(Handle { key, id }), ..e },
                )
            },
        }
    }
}

/// Connections that were not accepted yet are let go of.
pub open spec fn all_released(ctx: ContextView, backlog: Seq<Handle>) -> ContextView
    decreases backlog.len(),
{
    if backlog.len() == 0 {
        ctx
    } else {
        all_released(ctx.released(backlog.last().id), backlog.drop_last())
    }
}

impl EndpointView {
    /// A datagram arrived: it is processed, the acks that are owed go out, and
    /// the timers get a chance to run.
    pub open spec fn on_datagram(
        self,
        now: Now,
        buf: Seq<u8>,
        addr: SocketAddr,
        blocked: bool,
    ) -> EndpointView {
        if self.closed {
            self
        } else {
            let e = self.processed(now, buf, addr, blocked).1;
            EndpointView {
                ctx: e.ctx.acks_issued(now).timeouts_checked(now),
                read_errors: 0,
                ..e
            }
        }
    }

    /// Nothing arrived for a while.
    pub open spec fn on_idle(self, now: Now) -> EndpointView {
        if self.closed {
            self
        } else {
            EndpointView { ctx: self.ctx.timeouts_checked(now), ..self }
        }
    }

    /// Reading failed. A bounded run of errors is tolerated.
    pub open spec fn on_read_error(self, now: Now) -> EndpointView {
        if self.closed {
            self
        } else if self.read_errors + 1 >= MAX_READ_ERRORS {
            EndpointView { read_errors: (self.read_errors + 1) as u32, ..self }.shut_down()
        } else {
            EndpointView {
                ctx: self.ctx.timeouts_checked(now),
                read_errors: (self.read_errors + 1) as u32,
                ..self
            }
        }
    }

    /// The socket is closed: all connections are destroyed.
    pub open spec fn shut_down(self) -> EndpointView {
        if self.closed {
            self
        } else {
            EndpointView {
                ctx: all_released(self.ctx.emptied(), self.backlog),
                backlog: Seq::empty(),
                non_utp: Seq::empty(),
                closed: true,
                ..self
            }
        }
    }

    /// The next connection to be accepted.
    pub open spec fn accepted(self) -> (Step<Handle>, EndpointView) {
        if self.backlog.len() > 0 {
            (
                Step::Done(self.backlog[0]),
                EndpointView { backlog: self.backlog.skip(1), ..self },
            )
        } else if self.closed {
            (Step::Failed(Error::SocketClosed), self)
        } else {
            (Step::Wait, self)
        }
    }

    /// The next datagram that is not uTP goes to a buffer that holds `buf`.
    pub open spec fn foreign_taken(self, buf: Seq<u8>) -> (
        Step<(usize, SocketAddr)>,
        Seq<u8>,
        EndpointView,
    ) {
        if self.non_utp.len() > 0 {
            let d = self.non_utp[0];
            let n = fitting(d.data.len(), buf.len());
            (
                Step::Done((n as usize, d.from)),
                overlaid(buf, d.data.take(n)),
                EndpointView { non_utp: self.non_utp.skip(1), ..self },
            )
        } else if self.closed {
            (Step::Failed(Error::SocketClosed), buf, self)
        } else {
            (Step::Wait, buf, self)
        }
    }

    /// What the user of a connection sees. One that is not there looks like
    /// one that is destroyed.
    pub open spec fn user(self, h: Handle) -> ConnView {
        if self.ctx.has_conn(h.id) {
            self.ctx.conn(h.id)
        } else {
            ConnView { destroyed: true, ..ConnView::fresh(h.id, h.key.addr) }
        }
    }

    /// The user of a connection sees `user` from now on.
    pub open spec fn with_user(self, h: Handle, user: ConnView) -> EndpointView {
        EndpointView { ctx: self.ctx.with_conn(h.id, user), ..self }
    }

    /// The user closes a connection. A FIN is sent, and what is in flight
    /// keeps being delivered.
    #[verifier::opaque]
    pub open spec fn conn_closed(self, now: Now, h: Handle) -> EndpointView {
        let u = self.user(h);
        let e = self.with_user(h, ConnView { closed: true, notified: true, ..u });
        if !u.destroyed && !u.closed {
            EndpointView { ctx: e.ctx.closed_by(now, h.key), ..e }
        } else {
            e
        }
    }

    /// The user lets go of a connection, which closes it.
    pub open spec fn conn_dropped(self, now: Now, h: Handle) -> EndpointView {
        let u = self.user(h);
        let e = if u.closed || u.destroyed {
            self
        } else {
            self.conn_closed(now, h)
        };
        EndpointView { ctx: e.ctx.released(h.id), ..e }
    }

    /// What a call that waits for a connection to be established is answered.
    /// `late` tells whether the time that it may take is over.
    pub open spec fn connect_answer(self, h: Handle, late: bool) -> Step<()> {
        let u = self.user(h);
        if u.error is Some {
            Step::Failed(Error::ConnectFailed(u.error->0))
        } else if u.got_connect {
            Step::Done(())
        } else if u.destroyed {
            Step::Failed(Error::ConnDestroyed)
        } else if u.closed {
            Step::Failed(Error::ConnClosed)
        } else if self.closed {
            Step::Failed(Error::SocketClosed)
        } else if late {
            Step::Failed(Error::ConnectTimedOut)
        } else {
            Step::Wait
        }
    }

    /// A connection that fails, or takes too long, is closed.
    pub open spec fn connect_stepped(self, now: Now, h: Handle, late: bool) -> EndpointView {
        match self.connect_answer(h, late) {
            Step::Failed(Error::ConnectFailed(_)) => self.conn_closed(now, h),
            Step::Failed(Error::ConnectTimedOut) => self.conn_closed(now, h),
            _ => self,
        }
    }

    /// What a call that reads up to `room` bytes is answered. Order matters:
    /// what has been received comes before the end of the stream, and that
    /// before any error.
    pub open spec fn recv_answer(self, h: Handle, room: nat, late: bool) -> Step<usize> {
        let u = self.user(h);
        if room == 0 {
            Step::Done(0)
        } else if u.read_buf.len() > 0 {
            Step::Done(fitting(u.read_buf.len(), room) as usize)
        } else if u.got_eof {
            Step::Done(0)
        } else if u.error is Some {
            Step::Failed(Error::ReadFailed(u.error->0))
        } else if u.destroyed {
            Step::Failed(Error::ConnDestroyed)
        } else if u.closed {
            Step::Failed(Error::ConnClosed)
        } else if late {
            Step::Failed(Error::ReadTimedOut)
        } else {
            Step::Wait
        }
    }

    /// What is read leaves the connection. Once all is, the engine acks the
    /// reopened receive window.
    #[verifier::opaque]
    pub open spec fn recv_stepped(self, now: Now, h: Handle, room: nat) -> EndpointView {
        let u = self.user(h);
        let n = fitting(u.read_buf.len(), room);
        if n == 0 {
            self
        } else {
            let e = self.with_user(h, u.without_read(n));
            if n == u.read_buf.len() && !u.destroyed {
                EndpointView { ctx: e.ctx.drained_of(now, h.key).acks_issued(now), ..e }
            } else {
                e
            }
        }
    }

    /// Whether a call that writes is refused, and why.
    pub open spec fn send_refusal(self, h: Handle) -> Option<Error> {
        let u = self.user(h);
        if u.error is Some {
            Some(Error::WriteFailed(u.error->0))
        } else if u.closed {
            Some(Error::ConnClosed)
        } else if u.destroyed {
            Some(Error::ConnDestroyed)
        } else {
            None
        }
    }

    /// What a call that writes `buf` is answered: how much was accepted.
    #[verifier::opaque]
    pub open spec fn sent(self, now: Now, h: Handle, buf: Seq<u8>, late: bool) -> (
        Step<usize>,
        EndpointView,
    ) {
        if buf.len() == 0 {
            (Step::Done(0), self)
        } else {
            match self.send_refusal(h) {
                Some(e) => (Step::Failed(e), self),
                None => {
                    let (n, ctx) = self.ctx.written_to(now, h.key, buf);
                    (
                        if n is Some && n->0 > 0 {
                            Step::Done(n->0 as usize)
                        } else if late {
                            Step::Failed(Error::WriteTimedOut)
                        } else {
                            Step::Wait
                        },
                        EndpointView { ctx, ..self },
                    )
                },
            }
        }
    }
}

proof fn lemma_foreign_push(s: Seq<Foreign>, x: Foreign)
    ensures
        foreign_views(s.push(x)) == foreign_views(s).push(x@),
        foreign_views(s).len() == s.len(),
{
    reveal(foreign_views);
    assert(foreign_views(s.push(x)) =~= foreign_views(s).push(x@));
}

proof fn lemma_foreign_first(s: Seq<Foreign>)
    ensures
        foreign_views(s).len() == s.len(),
        s.len() > 0 ==> {
            &&& foreign_views(s)[0] == s[0]@
            &&& foreign_views(s.subrange(1, s.len() as int)) == foreign_views(s).skip(1)
        },
{
    reveal(foreign_views);
    if s.len() > 0 {
        assert(foreign_views(s.subrange(1, s.len() as int)) =~= foreign_views(s).skip(1));
    }
}

impl Endpoint {
    pub closed spec fn wf(&self) -> bool {
        &&& self@.wf()
        &&& self.ctx.wf()
    }

    /// A socket that is in order looks it.
    pub proof fn lemma_wf(&self)
        requires
            self.wf(),
        ensures
            self@.wf(),
    {
    }

    /// A socket whose connections draw their numbers from `rng`.
    pub fn with_rng(rng: Rng) -> (r: Endpoint)
        ensures
            r.wf(),
            r@ == EndpointView::fresh(rng@, r@.ctx.clock),
    {
        let r = Endpoint {
            ctx: Context::with_rng(rng),
            backlog: VecDeque::new(),
            non_utp: VecDeque::new(),
            closed: false,
            read_errors: 0,
        };
        proof {
            reveal(foreign_views);
            assert(r@.non_utp =~= Seq::empty());
            assert(r@.backlog =~= Seq::empty());
        }
        r
    }

    /// The connections, to be looked at.
    pub fn ctx(&self) -> (r: &Context)
        requires
            self.wf(),
        ensures
            r.wf(),
            r@ == self@.ctx,
    {
        &self.ctx
    }

    pub fn is_closed(&self) -> (r: bool)
        ensures
            r == self@.closed,
    {
        self.closed
    }

    /// Takes the datagrams that are to be sent, in their order.
    pub fn take_outgoing(&mut self) -> (r: Vec<Datagram>)
        requires
            old(self).wf(),
        ensures
            final(self).wf(),
            datagram_views(r@) == old(self)@.ctx.io.outgoing,
            final(self)@ == old(self)@.with_io(
                (IoView { outgoing: Seq::empty(), ..old(self)@.ctx.io }),
            ),
    {
        self.ctx.take_outgoing()
    }

    /// Takes the numbers of the connections whose users are to be woken.
    pub fn take_notified(&mut self) -> (r: Vec<u64>)
        requires
            old(self).wf(),
        ensures
            final(self).wf(),
            r@ == notified_ids(old(self)@.ctx.conns()),
            final(self)@ == (EndpointView { ctx: old(self)@.ctx.all_woken(), ..old(self)@ }),
    {
        self.ctx.take_notified()
    }

    /// Notes that a datagram of the connection numbered `id` could not be
    /// sent. `clean` is what the datagram says.
    pub fn on_send_error(&mut self, id: u64, kind: ErrorKind, clean: bool)
        requires
            old(self).wf(),
        ensures
            final(self).wf(),
            final(self)@ == old(self)@.send_failed(id, kind, clean),
    {
        self.ctx.on_send_error(id, kind, clean);
    }

    /// Closes a connection that there is no room for.
    fn turn_away(&mut self, now: Now, key: Key, id: u64)
        requires
            old(self).wf(),
            !old(self)@.closed,
            old(self)@.ctx.has_conn(id),
        ensures
            final(self).wf(),
            final(self)@ == old(self)@.turned_away(now, key, id),
    {
        let ghost c = self.ctx@;
        match self.ctx.conn_mut(id) {
            Some(u) => {
                u.cell.closed = true;
                u.released = true;
            },
            None => {},
        }
        self.ctx.close_at(now, key);
    }

    /// Handles a datagram, with the clock at `now`. `blocked` tells whether an
    /// incoming connection from there is to be ignored.
    pub fn process_datagram(
        &mut self,
        now: Now,
        buf: &[u8],
        addr: SocketAddr,
        blocked: bool,
    ) -> (r: Arrival)
        requires
            old(self).wf(),
            !old(self)@.closed,
            old(self)@.ctx.next_id < u64::MAX,
        ensures
            final(self).wf(),
            r == old(self)@.processed(now, buf@, addr, blocked).0,
            final(self)@ == old(self)@.processed(now, buf@, addr, blocked).1,
    {
        proof {
            reveal(EndpointView::processed);
        }
        let res: ProcessUdp = self.ctx.process_udp_at(now, buf, addr, blocked);
        match res {
            ProcessUdp::NotUtp => {
                let d = Foreign { data: vstd::slice::slice_to_vec(buf), from: addr };
                proof {
                    lemma_foreign_push(self.non_utp@, d);
                }
                if self.non_utp.len() < NON_UTP_BACKLOG {
                    self.non_utp.push_back(d);
                    Arrival::NonUtp
                } else {
                    // dropped
                    Arrival::Nothing
                }
            },
            ProcessUdp::Handled => Arrival::Nothing,
            ProcessUdp::Accepted(key, id) => {
                if self.backlog.len() >= BACKLOG {
                    // No room; close it immediately.
                    proof {
                        lemma_accepted_there(old(self)@.ctx, now, buf@, addr, blocked, key, id);
                    }
                    self.turn_away(now, key, id);
                    Arrival::Nothing
                } else {
                    self.backlog.push_back(Handle { key, id });
                    Arrival::Connection
                }
            },
        }
    }

    /// Handles a datagram, and then does what is due. Returns what it was, or
    /// that there is no more use in reading.
    pub fn on_datagram(
        &mut self,
        now: Now,
        buf: &[u8],
        addr: SocketAddr,
        blocked: bool,
    ) -> (r: Option<Arrival>)
        requires
            old(self).wf(),
            old(self)@.ctx.next_id < u64::MAX,
        ensures
            final(self).wf(),
            final(self)@ == old(self)@.on_datagram(now, buf@, addr, blocked),
            match r {
                Some(a) => !old(self)@.closed && a == old(self)@.processed(
                    now,
                    buf@,
                    addr,
                    blocked,
                ).0,
                None => old(self)@.closed,
            },
    {
        if self.closed {
            return None;
        }
        let a: Arrival = self.process_datagram(now, buf, addr, blocked);
        self.read_errors = 0;
        // flush deferred acks and give timeouts a chance to run
        self.ctx.issue_deferred_acks_at(now);
        self.ctx.check_timeouts_at(now);
        proof {
            reveal(EndpointView::processed);
        }
        Some(a)
    }

    /// Lets the timers run. Returns whether there is still use in reading.
    pub fn on_idle(&mut self, now: Now) -> (r: bool)
        requires
            old(self).wf(),
        ensures
            final(self).wf(),
            final(self)@ == old(self)@.on_idle(now),
            r == !old(self)@.closed,
    {
        if self.closed {
            return false;
        }
        self.ctx.check_timeouts_at(now);
        true
    }

    /// Some platforms raise read errors that don't mean we should stop;
    /// tolerates a bounded run of them. Returns whether there is still use in
    /// reading.
    pub fn on_read_error(&mut self, now: Now) -> (r: bool)
        requires
            old(self).wf(),
        ensures
            final(self).wf(),
            final(self)@ == old(self)@.on_read_error(now),
            r == !final(self)@.closed,
    {
        if self.closed {
            return false;
        }
        if self.read_errors + 1 >= MAX_READ_ERRORS {
            self.close();
            self.read_errors = self.read_errors + 1;
            return false;
        }
        self.read_errors = self.read_errors + 1;
        self.ctx.check_timeouts_at(now);
        true
    }

    /// Lets go of the connections that were not accepted yet.
    fn release_backlog(&mut self)
        requires
            old(self).ctx.wf(),
        ensures
            final(self).ctx.wf(),
            final(self)@ == (EndpointView {
                ctx: all_released(old(self)@.ctx, old(self)@.backlog),
                backlog: Seq::empty(),
                ..old(self)@
            }),
            final(self)@.ctx.sockets.len() == old(self)@.ctx.sockets.len(),
    {
        let ghost e = self@;
        while self.backlog.len() > 0
            invariant
                self.ctx.wf(),
                all_released(self@.ctx, self@.backlog) == all_released(e.ctx, e.backlog),
                self@ == (EndpointView { ctx: self@.ctx, backlog: self@.backlog, ..e }),
                self@.ctx.sockets.len() == e.ctx.sockets.len(),
            decreases self.backlog@.len(),
        {
            let ghost c = self.ctx@;
            match self.backlog.pop_back() {
                Some(h) => {
                    self.ctx.release(h.id);
                },
                None => {},
            }
        }
        assert(self@.backlog =~= Seq::empty());
    }

    /// Close the socket: all connections are destroyed. Returns false if it
    /// was closed already.
    pub fn close(&mut self) -> (r: bool)
        requires
            old(self).wf(),
        ensures
            final(self).wf(),
            final(self)@ == old(self)@.shut_down(),
            r == !old(self)@.closed,
    {
        if self.closed {
            return false;
        }
        proof {
            lemma_emptied(self.ctx@);
        }
        self.ctx.destroy_all();
        self.release_backlog();
        self.non_utp.clear();
        self.closed = true;
        proof {
            reveal(foreign_views);
            assert(self@.non_utp =~= Seq::empty());
        }
        true
    }

    /// Hands out the next incoming connection.
    pub fn try_accept(&mut self) -> (r: Step<Handle>)
        requires
            old(self).wf(),
        ensures
            final(self).wf(),
            r == old(self)@.accepted().0,
            final(self)@ == old(self)@.accepted().1,
    {
        let ghost before = self.backlog@;
        match self.backlog.pop_front() {
            Some(h) => {
                assert(self.backlog@ =~= before.skip(1));
                return Step::Done(h);
            },
            None => {},
        }
        if self.closed {
            return Step::Failed(Error::SocketClosed);
        }
        Step::Wait
    }

    /// Hands out the next datagram that was not recognized as uTP traffic.
    pub fn try_recv_from(&mut self, buf: &mut [u8]) -> (r: Step<(usize, SocketAddr)>)
        requires
            old(self).wf(),
        ensures
            final(self).wf(),
            r == old(self)@.foreign_taken(old(buf)@).0,
            final(buf)@ == old(self)@.foreign_taken(old(buf)@).1,
            final(self)@ == old(self)@.foreign_taken(old(buf)@).2,
    {
        proof {
            lemma_foreign_first(self.non_utp@);
        }
        match self.non_utp.pop_front() {
            Some(d) => {
                let n: usize = copy_over(buf, d.data.as_slice());
                return Step::Done((n, d.from));
            },
            None => {},
        }
        if self.closed {
            return Step::Failed(Error::SocketClosed);
        }
        Step::Wait
    }

    /// Dials `addr`, with the clock at `now`.
    pub fn dial(&mut self, now: Now, addr: SocketAddr) -> (r: Result<Handle, Error>)
        requires
            old(self).wf(),
            !old(self)@.closed ==> old(self)@.ctx.can_dial(addr) && old(self)@.ctx.next_id
                < u64::MAX,
        ensures
            final(self).wf(),
            match r {
                Ok(h) => {
                    &&& !old(self)@.closed
                    &&& h.key == old(self)@.ctx.dial_key(addr)
                    &&& h.id == old(self)@.ctx.next_id
                    &&& final(self)@ == (EndpointView {
                        ctx: old(self)@.ctx.dialled(now, addr),
                        ..old(self)@
                    })
                },
                Err(e) => {
                    &&& old(self)@.closed
                    &&& e == Error::SocketClosed
                    &&& final(self)@ == old(self)@
                },
            },
    {
        if self.closed {
            return Err(Error::SocketClosed);
        }
        let (key, id): (Key, u64) = self.ctx.connect_at(now, addr);
        Ok(Handle { key, id })
    }

    /// Closes a connection, with the clock at `now`.
    pub fn close_conn(&mut self, now: Now, h: Handle)
        requires
            old(self).wf(),
        ensures
            final(self).wf(),
            final(self)@ == old(self)@.conn_closed(now, h),
    {
        proof {
            reveal(EndpointView::conn_closed);
            if !self@.ctx.has_conn(h.id) {
                lemma_with_no_conn(
                    self@.ctx,
                    h.id,
                    ConnView { closed: true, notified: true, ..self@.user(h) },
                );
            }
        }
        let ghost c = self.ctx@;
        let mut need_engine_close: bool = false;
        match self.ctx.conn_mut(h.id) {
            Some(u) => {
                need_engine_close = !u.cell.destroyed && !u.cell.closed;
                u.cell.closed = true;
                u.notified = true;
            },
            None => {},
        }
        if need_engine_close {
            self.ctx.close_at(now, h.key);
        }
    }

    /// Closes a connection if that has not been done, and lets go of it.
    pub fn drop_conn(&mut self, now: Now, h: Handle)
        requires
            old(self).wf(),
        ensures
            final(self).wf(),
            final(self)@ == old(self)@.conn_dropped(now, h),
    {
        let done: bool = match self.ctx.conn(h.id) {
            Some(u) => u.cell.closed || u.cell.destroyed,
            None => true,
        };
        if !done {
            self.close_conn(now, h);
        }
        self.ctx.release(h.id);
    }

    /// One look at a connection that is being established.
    pub fn connect_step(&mut self, now: Now, h: Handle, late: bool) -> (r: Step<()>)
        requires
            old(self).wf(),
        ensures
            final(self).wf(),
            r == old(self)@.connect_answer(h, late),
            final(self)@ == old(self)@.connect_stepped(now, h, late),
    {
        let (error, got_connect, destroyed, closed): (
            Option<ErrorKind>,
            bool,
            bool,
            bool,
        ) = match self.ctx.conn(h.id) {
            Some(u) => (u.cell.error, u.cell.got_connect, u.cell.destroyed, u.cell.closed),
            None => (None, false, true, false),
        };
        match error {
            Some(kind) => {
                self.close_conn(now, h);
                return Step::Failed(Error::ConnectFailed(kind));
            },
            None => {},
        }
        if got_connect {
            return Step::Done(());
        }
        if destroyed {
            return Step::Failed(Error::ConnDestroyed);
        }
        if closed {
            return Step::Failed(Error::ConnClosed);
        }
        if self.closed {
            return Step::Failed(Error::SocketClosed);
        }
        if late {
            self.close_conn(now, h);
            return Step::Failed(Error::ConnectTimedOut);
        }
        Step::Wait
    }

    /// Moves what was received to `buf`, and acks that.
    fn take_received(&mut self, now: Now, h: Handle, buf: &mut [u8]) -> (n: usize)
        requires
            old(self).wf(),
            old(self)@.user(h).read_buf.len() > 0,
            old(buf)@.len() > 0,
        ensures
            final(self).wf(),
            n == fitting(old(self)@.user(h).read_buf.len(), old(buf)@.len()),
            final(buf)@ == overlaid(
                old(buf)@,
                old(self)@.user(h).read_buf.take(n as int),
            ),
            final(self)@ == old(self)@.recv_stepped(now, h, old(buf)@.len()),
    {
        proof {
            reveal(EndpointView::recv_stepped);
        }
        let ghost c = self.ctx@;
        let mut copied: usize = 0;
        let mut drained: bool = false;
        match self.ctx.conn_mut(h.id) {
            Some(u) => {
                copied = u.take_read(buf);
                drained = u.read_buffer_len() == 0 && !u.cell.destroyed;
            },
            None => {},
        }
        if drained {
            // Reopened receive window; let the engine ack it.
            self.ctx.read_drained_at(now, h.key);
            proof {
                lemma_acks_issued(self.ctx@, now);
            }
            self.ctx.issue_deferred_acks_at(now);
        }
        copied
    }

    /// One attempt to read from a connection.
    pub fn recv_step(&mut self, now: Now, h: Handle, buf: &mut [u8], late: bool) -> (r: Step<
        usize,
    >)
        requires
            old(self).wf(),
        ensures
            final(self).wf(),
            r == old(self)@.recv_answer(h, old(buf)@.len(), late),
            final(self)@ == old(self)@.recv_stepped(now, h, old(buf)@.len()),
            final(buf)@ == overlaid(
                old(buf)@,
                old(self)@.user(h).read_buf.take(
                    fitting(old(self)@.user(h).read_buf.len(), old(buf)@.len()),
                ),
            ),
    {
        proof {
            reveal(EndpointView::recv_stepped);
            assert(overlaid(buf@, self@.user(h).read_buf.take(0)) =~= buf@);
        }
        if buf.len() == 0 {
            return Step::Done(0);
        }
        let (len, got_eof, error, destroyed, closed): (
            usize,
            bool,
            Option<ErrorKind>,
            bool,
            bool,
        ) = match self.ctx.conn(h.id) {
            Some(u) => (
                u.read_buffer_len(),
                u.cell.got_eof,
                u.cell.error,
                u.cell.destroyed,
                u.cell.closed,
            ),
            None => (0, false, None, true, false),
        };
        if len > 0 {
            let n: usize = self.take_received(now, h, buf);
            return Step::Done(n);
        }
        // Order matters.

        if got_eof {
            return Step::Done(0);
        }
        match error {
            Some(kind) => {
                return Step::Failed(Error::ReadFailed(kind));
            },
            None => {},
        }
        if destroyed {
            return Step::Failed(Error::ConnDestroyed);
        }
        if closed {
            return Step::Failed(Error::ConnClosed);
        }
        if late {
            return Step::Failed(Error::ReadTimedOut);
        }
        Step::Wait
    }

    /// One attempt to write to a connection.
    pub fn send_step(&mut self, now: Now, h: Handle, buf: &[u8], late: bool) -> (r: Step<usize>)
        requires
            old(self).wf(),
        ensures
            final(self).wf(),
            r == old(self)@.sent(now, h, buf@, late).0,
            final(self)@ == old(self)@.sent(now, h, buf@, late).1,
    {
        proof {
            reveal(EndpointView::sent);
        }
        if buf.len() == 0 {
            return Step::Done(0);
        }
        let (error, destroyed, closed): (Option<ErrorKind>, bool, bool) = match self.ctx.conn(
            h.id,
        ) {
            Some(u) => (u.cell.error, u.cell.destroyed, u.cell.closed),
            None => (None, true, false),
        };
        match error {
            Some(kind) => {
                return Step::Failed(Error::WriteFailed(kind));
            },
            None => {},
        }
        if closed {
            return Step::Failed(Error::ConnClosed);
        }
        if destroyed {
            return Step::Failed(Error::ConnDestroyed);
        }
        match self.ctx.write_at(now, h.key, buf) {
            Some(n) => {
                if n > 0 {
                    return Step::Done(n);
                }
            },
            None => {},
        }
        if late {
            return Step::Failed(Error::WriteTimedOut);
        }
        Step::Wait
    }

    /// Send buffer limit applied to connections created after this call.
    pub fn set_send_buffer_size(&mut self, bytes: usize)
        requires
            old(self).wf(),
            bytes >= 1,
        ensures
            final(self).wf(),
            final(self)@ == old(self)@.with_options(
                (Options { opt_sndbuf: bytes, ..old(self)@.ctx.options }),
            ),
    {
        self.ctx.options.opt_sndbuf = bytes;
    }

    /// Receive buffer limit (i.e. maximum receive window) applied to
    /// connections created after this call.
    pub fn set_recv_buffer_size(&mut self, bytes: usize)
        requires
            old(self).wf(),
            bytes >= 1,
        ensures
            final(self).wf(),
            final(self)@ == old(self)@.with_options(
                (Options { opt_rcvbuf: bytes, ..old(self)@.ctx.options }),
            ),
    {
        self.ctx.options.opt_rcvbuf = bytes;
    }

    /// LEDBAT target delay in microseconds for connections created after this
    /// call (default 100ms).
    pub fn set_target_delay(&mut self, micros: usize)
        requires
            old(self).wf(),
        ensures
            final(self).wf(),
            final(self)@ == old(self)@.with_options(
                (Options { target_delay: micros, ..old(self)@.ctx.options }),
            ),
    {
        self.ctx.options.target_delay = micros;
    }

    /// The address of the peer of a connection.
    pub fn peer_addr(&self, h: Handle) -> (r: SocketAddr)
        requires
            self.wf(),
        ensures
            r == self@.user(h).remote_addr,
    {
        match self.ctx.conn(h.id) {
            Some(u) => u.cell.remote_addr,
            None => h.key.addr,
        }
    }
}

impl EndpointView {
    pub open spec fn with_options(self, options: Options) -> EndpointView {
        EndpointView { ctx: ContextView { options, ..self.ctx }, ..self }
    }

    pub open spec fn with_io(self, io: IoView) -> EndpointView {
        EndpointView { ctx: ContextView { io, ..self.ctx }, ..self }
    }

    /// A datagram of the connection numbered `id` could not be sent.
    pub open spec fn send_failed(self, id: u64, kind: ErrorKind, clean: bool) -> EndpointView {
        let c = self.ctx;
        if c.has_conn(id) {
            EndpointView {
                ctx: c.with_conn(id, c.conn(id).with_send_error(kind, clean)),
                ..self
            }
        } else {
            self
        }
    }
}

/// A connection that was just accepted is there.
proof fn lemma_accepted_there(
    c: ContextView,
    now: Now,
    buf: Seq<u8>,
    addr: SocketAddr,
    blocked: bool,
    key: Key,
    id: u64,
)
    requires
        c.wf(),
        buf.len() >= HEADER_SIZE,
        c.received(now, buf, addr, blocked).0 == ProcessUdp::Accepted(key, id),
    ensures
        c.received(now, buf, addr, blocked).1.has_conn(id),
{
    let d = c.at_time(now);
    let s = d.answerer(buf, addr);
    let io = IoView { current_ms: now.ms, ..d.io };
    lemma_created(d.next_id, s.peer, d.options, now);
    lemma_answering(d.next_id, s.peer, d.options, now, s.recv.ack_nr, s.send.seq_nr);
    let heard = arrived(St { s, io }, buf, true).1;
    lemma_arrived(St { s, io }, buf, true);
    lemma_ack_sent(heard);
    reveal(ContextView::accepting);
    let e = d.accepting(buf, addr);
    assert(e.sockets[d.sockets.len() as int].user.id == id);
}

/// Copies as much of `data` as fits to the start of `buf`.
fn copy_over(buf: &mut [u8], data: &[u8]) -> (n: usize)
    ensures
        n == fitting(data@.len(), old(buf)@.len()),
        final(buf)@ == overlaid(old(buf)@, data@.take(n as int)),
{
    let mut n: usize = 0;
    assert(overlaid(buf@, data@.take(0)) =~= buf@);
    while n < buf.len() && n < data.len()
        invariant
            n <= data@.len(),
            n <= old(buf)@.len(),
            buf@ == overlaid(old(buf)@, data@.take(n as int)),
        decreases data@.len() - n,
    {
        buf[n] = data[n];
        n = n + 1;
        assert(buf@ =~= overlaid(old(buf)@, data@.take(n as int)));
    }
    n
}

/// A socket that is closed stays closed and refuses what it is asked: no
/// connection, no datagram, and nothing that arrives moves it.
pub proof fn lemma_closed_refuses(
    e: EndpointView,
    now: Now,
    buf: Seq<u8>,
    addr: SocketAddr,
    blocked: bool,
)
    requires
        e.wf(),
        e.closed,
    ensures
        e.accepted() == (Step::<Handle>::Failed(Error::SocketClosed), e),
        e.foreign_taken(buf).0 == Step::<(usize, SocketAddr)>::Failed(Error::SocketClosed),
        e.on_datagram(now, buf, addr, blocked) == e,
        e.on_idle(now) == e,
        e.on_read_error(now) == e,
        e.shut_down() == e,
{
}

/// Reading on at the end of the stream keeps saying so.
pub proof fn lemma_eof_repeats(e: EndpointView, now: Now, h: Handle, room: nat, late: bool)
    requires
        e.user(h).got_eof,
        e.user(h).read_buf.len() == 0,
    ensures
        e.recv_answer(h, room, late) == Step::<usize>::Done(0),
        e.recv_stepped(now, h, room) == e,
{
    reveal(EndpointView::recv_stepped);
}

/// What has been received is handed out before anything else is said, even on
/// a connection that has failed or is gone.
pub proof fn lemma_data_comes_first(e: EndpointView, h: Handle, room: nat, late: bool)
    requires
        e.user(h).read_buf.len() > 0,
        0 < room <= usize::MAX,
    ensures
        e.recv_answer(h, room, late) matches Step::Done(n) && 0 < n <= room,
{
}

} // verus!
