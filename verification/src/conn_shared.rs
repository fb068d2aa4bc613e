//! Per-connection state that the protocol engine shares with the user of the
//! connection: the bytes waiting to be read, and what has become of the
//! connection.

use crate::addr::SocketAddr;
use std::collections::VecDeque;
use vstd::prelude::*;

verus! {

/// Why an operation failed.
#[derive(Clone, Copy, PartialEq, Eq, Structural, Debug)]
pub enum ErrorKind {
    ConnectionReset,
    ConnectionAborted,
    NotConnected,
    AddrNotAvailable,
    InvalidInput,
    TimedOut,
    Other,
}

/// What the user of a connection gets to see of it.
#[verifier::ext_equal]
pub struct ConnView {
    pub id: u64,
    pub remote_addr: SocketAddr,
    pub read_buf: Seq<u8>,
    pub got_eof: bool,
    pub got_connect: bool,
    pub destroyed: bool,
    pub closed: bool,
    pub error: Option<ErrorKind>,
    pub send_failed: bool,
    pub notified: bool,
    pub released: bool,
}

impl ConnView {
    pub open spec fn fresh(id: u64, remote_addr: SocketAddr) -> ConnView {
        ConnView {
            id,
            remote_addr,
            read_buf: Seq::empty(),
            got_eof: false,
            got_connect: false,
            destroyed: false,
            closed: false,
            error: None,
            send_failed: false,
            notified: false,
            released: false,
        }
    }

    pub open spec fn with_read(self, data: Seq<u8>) -> ConnView {
        ConnView { read_buf: self.read_buf + data, notified: true, ..self }
    }

    /// The user has taken the first `n` bytes.
    pub open spec fn without_read(self, n: int) -> ConnView {
        ConnView { read_buf: self.read_buf.skip(n), ..self }
    }

    pub open spec fn with_writable(self) -> ConnView {
        ConnView { notified: true, ..self }
    }

    pub open spec fn with_connect(self) -> ConnView {
        ConnView { got_connect: true, notified: true, ..self }
    }

    pub open spec fn with_eof(self) -> ConnView {
        ConnView { got_eof: true, notified: true, ..self }
    }

    /// The first error stays.
    pub open spec fn with_error(self, kind: ErrorKind) -> ConnView {
        ConnView {
            error: match self.error {
                Some(k) => Some(k),
                None => Some(kind),
            },
            notified: true,
            ..self
        }
    }

    pub open spec fn with_destroying(self) -> ConnView {
        ConnView { destroyed: true, notified: true, ..self }
    }

    /// A datagram of this connection could not be sent. `clean` tells whether
    /// the connection was free of errors when the datagram was made: then
    /// this failure came before any error noted since. Failures that are not
    /// about the arguments or the route are transient, and ignored.
    pub open spec fn with_send_error(self, kind: ErrorKind, clean: bool) -> ConnView {
        if kind != ErrorKind::InvalidInput && kind != ErrorKind::AddrNotAvailable {
            self
        } else if self.error is None || clean && !self.send_failed {
            ConnView { error: Some(kind), send_failed: true, notified: true, ..self }
        } else {
            ConnView { notified: true, ..self }
        }
    }
}

/// How much of `len` bytes fits a buffer of `room` bytes.
pub open spec fn fitting(len: nat, room: nat) -> int {
    if len < room {
        len as int
    } else {
        room as int
    }
}

/// `buf` with `data` written over its start.
pub open spec fn overlaid(buf: Seq<u8>, data: Seq<u8>) -> Seq<u8> {
    data + buf.skip(data.len() as int)
}

pub struct ConnCell {
    pub read_buf: VecDeque<u8>,
    pub got_eof: bool,
    pub got_connect: bool,
    /// The engine-side socket no longer exists.
    pub destroyed: bool,
    /// The connection was closed by its user.
    pub closed: bool,
    pub error: Option<ErrorKind>,
    /// `error` tells of a datagram that could not be sent.
    pub send_failed: bool,
    pub remote_addr: SocketAddr,
}

pub struct ConnShared {
    /// Tells this connection from the others of its socket.
    pub id: u64,
    pub cell: ConnCell,
    /// Set on any state change relevant to a blocked reader/writer/connector,
    /// until the blocked calls have been woken.
    pub notified: bool,
    /// The user has let go of the connection.
    pub released: bool,
}

impl View for ConnShared {
    type V = ConnView;

    open spec fn view(&self) -> ConnView {
        ConnView {
            id: self.id,
            remote_addr: self.cell.remote_addr,
            read_buf: self.cell.read_buf@,
            got_eof: self.cell.got_eof,
            got_connect: self.cell.got_connect,
            destroyed: self.cell.destroyed,
            closed: self.cell.closed,
            error: self.cell.error,
            send_failed: self.cell.send_failed,
            notified: self.notified,
            released: self.released,
        }
    }
}

impl ConnShared {
    pub fn new(id: u64, remote_addr: SocketAddr) -> (r: Self)
        ensures
            r@ == ConnView::fresh(id, remote_addr),
    {
        ConnShared {
            id,
            cell: ConnCell {
                read_buf: VecDeque::new(),
                got_eof: false,
                got_connect: false,
                destroyed: false,
                closed: false,
                error: None,
                send_failed: false,
                remote_addr,
            },
            notified: false,
            released: false,
        }
    }

    pub fn on_read(&mut self, data: &[u8])
        ensures
            final(self)@ == old(self)@.with_read(data@),
    {
        let ghost before = self.cell.read_buf@;
        let mut i: usize = 0;
        while i < data.len()
            invariant
                i <= data@.len(),
                self@ == (ConnView { read_buf: before + data@.take(i as int), ..old(self)@ }),
            decreases data.len() - i,
        {
            self.cell.read_buf.push_back(data[i]);
            i += 1;
            assert(self.cell.read_buf@ =~= before + data@.take(i as int));
        }
        assert(data@.take(i as int) =~= data@);
        self.notified = true;
    }

    pub fn read_buffer_len(&self) -> (r: usize)
        ensures
            r == self@.read_buf.len(),
    {
        self.cell.read_buf.len()
    }

    /// Moves what has been read to the start of `buf`, as far as it fits.
    /// Returns how much that is.
    pub fn take_read(&mut self, buf: &mut [u8]) -> (n: usize)
        ensures
            n == fitting(old(self)@.read_buf.len(), old(buf)@.len()),
            final(self)@ == old(self)@.without_read(n as int),
            final(buf)@ == overlaid(old(buf)@, old(self)@.read_buf.take(n as int)),
    {
        let ghost read = self.cell.read_buf@;
        let mut n: usize = 0;
        assert(read.skip(0) =~= read);
        assert(overlaid(buf@, read.take(0)) =~= buf@);
        while n < buf.len() && self.cell.read_buf.len() > 0
            invariant
                read == old(self)@.read_buf,
                n <= read.len(),
                n <= old(buf)@.len(),
                self@ == old(self)@.without_read(n as int),
                buf@ == overlaid(old(buf)@, read.take(n as int)),
            decreases old(buf)@.len() - n,
        {
            match self.cell.read_buf.pop_front() {
                Some(b) => {
                    buf[n] = b;
                },
                None => {},
            }
            n = n + 1;
            assert(self.cell.read_buf@ =~= read.skip(n as int));
            assert(buf@ =~= overlaid(old(buf)@, read.take(n as int)));
        }
        n
    }

    pub fn on_writable(&mut self)
        ensures
            final(self)@ == old(self)@.with_writable(),
    {
        self.notified = true;
    }

    pub fn on_connect(&mut self)
        ensures
            final(self)@ == old(self)@.with_connect(),
    {
        self.cell.got_connect = true;
        self.notified = true;
    }

    pub fn on_eof(&mut self)
        ensures
            final(self)@ == old(self)@.with_eof(),
    {
        self.cell.got_eof = true;
        self.notified = true;
    }

    pub fn on_error(&mut self, kind: ErrorKind)
        ensures
            final(self)@ == old(self)@.with_error(kind),
    {
        if self.cell.error.is_none() {
            self.cell.error = Some(kind);
        }
        self.notified = true;
    }

    pub fn on_destroying(&mut self)
        ensures
            final(self)@ == old(self)@.with_destroying(),
    {
        self.cell.destroyed = true;
        self.notified = true;
    }

    /// A datagram of this connection could not be sent.
    pub fn on_send_error(&mut self, kind: ErrorKind, clean: bool)
        ensures
            final(self)@ == old(self)@.with_send_error(kind, clean),
    {
        if kind == ErrorKind::InvalidInput || kind == ErrorKind::AddrNotAvailable {
            if self.cell.error.is_none() || clean && !self.cell.send_failed {
                self.cell.error = Some(kind);
                self.cell.send_failed = true;
            }
            self.notified = true;
        }
    }
}

/// Of a datagram that could not be sent, the user hears only if it was for its
/// address or its contents; other failures pass. An error that came before
/// stays.
pub proof fn lemma_send_errors_are_told(c: ConnView, kind: ErrorKind, clean: bool)
    ensures
        ({
            let after = c.with_send_error(kind, clean);
            let told = kind == ErrorKind::InvalidInput || kind == ErrorKind::AddrNotAvailable;
            &&& !told ==> after == c
            &&& told ==> after.notified
            &&& told && c.error is None ==> after.error == Some(kind)
            &&& told && c.error is Some && (!clean || c.send_failed) ==> after.error == c.error
            &&& after.read_buf == c.read_buf
            &&& after.got_eof == c.got_eof
        }),
{
}

/// The first error stays, whatever goes wrong later, and what has been received
/// can still be read.
pub proof fn lemma_first_error_stays(c: ConnView, a: ErrorKind, b: ErrorKind)
    requires
        c.error is None,
    ensures
        c.with_error(a).error == Some(a),
        c.with_error(a).with_error(b).error == Some(a),
        c.with_error(a).notified,
        c.with_error(a).read_buf == c.read_buf,
{
}

/// What is handed up is read in the order in which it came, and nothing of it is
/// lost or doubled.
pub proof fn lemma_read_takes_from_the_front(c: ConnView, data: Seq<u8>, n: int)
    requires
        0 <= n <= c.read_buf.len(),
    ensures
        c.with_read(data).read_buf.take(n) == c.read_buf.take(n),
        c.with_read(data).without_read(n).read_buf == c.without_read(n).with_read(data).read_buf,
        c.read_buf.take(n) + c.without_read(n).read_buf == c.read_buf,
{
    assert(c.with_read(data).read_buf.take(n) =~= c.read_buf.take(n));
    assert(c.with_read(data).without_read(n).read_buf =~= c.without_read(n).with_read(
        data,
    ).read_buf);
    assert(c.read_buf.take(n) + c.without_read(n).read_buf =~= c.read_buf);
}

} // verus!
