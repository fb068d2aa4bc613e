//! Sockets against sockets, over a network that is a list of datagrams and a
//! clock that is a number.

use utp::addr::SocketAddr;
use utp::clock::Now;
use utp::conn_shared::ErrorKind;
use utp::endpoint::{Endpoint, Error, Handle, Step};
use utp::util::Rng;

fn v4(port: u16) -> SocketAddr {
    SocketAddr::V4 { ip: 0x7f00_0001, port }
}

fn v6(port: u16) -> SocketAddr {
    SocketAddr::V6 { ip: 1, port, flowinfo: 0, scope_id: 0 }
}

fn pattern(len: usize, seed: u8) -> Vec<u8> {
    (0..len)
        .map(|i| (i as u8).wrapping_mul(31).wrapping_add(seed))
        .collect()
}

/// A socket with its address, and what becomes of the datagrams it sends.
struct Node {
    end: Endpoint,
    addr: SocketAddr,
    blocked: bool,
    sent: u64,
    /// drop datagrams where sent % modulus == offset
    modulus: u64,
    offset: u64,
}

struct Net {
    nodes: Vec<Node>,
    now_us: u64,
    /// datagrams for addresses without a socket
    stray: Vec<(SocketAddr, Vec<u8>)>,
}

impl Net {
    fn new(addrs: &[SocketAddr]) -> Net {
        let mut nodes = Vec::new();
        for (i, addr) in addrs.iter().enumerate() {
            nodes.push(Node {
                end: Endpoint::with_rng(Rng::seeded(1234, i as u64)),
                addr: *addr,
                blocked: false,
                sent: 0,
                modulus: 0,
                offset: 0,
            });
        }
        Net { nodes, now_us: 1_000_000, stray: Vec::new() }
    }

    fn now(&self) -> Now {
        Now { ms: self.now_us / 1000, us: self.now_us }
    }

    fn elapsed_ms(&self) -> u64 {
        (self.now_us - 1_000_000) / 1000
    }

    fn inject(&mut self, to: usize, data: &[u8], from: SocketAddr) {
        let now = self.now();
        let blocked = self.nodes[to].blocked;
        self.nodes[to].end.on_datagram(now, data, from, blocked);
    }

    /// Delivers everything that is underway and lets a millisecond pass.
    fn turn(&mut self) {
        let mut underway = Vec::new();
        for node in &mut self.nodes {
            for d in node.end.take_outgoing() {
                let c = node.sent;
                node.sent += 1;
                if node.modulus == 0 || c % node.modulus != node.offset {
                    underway.push((node.addr, d.addr, d.data));
                }
            }
        }
        self.now_us += 1000;
        for (from, to, data) in underway {
            match self.nodes.iter().position(|n| n.addr == to) {
                Some(i) => self.inject(i, &data, from),
                None => self.stray.push((to, data)),
            }
        }
        let now = self.now();
        for node in &mut self.nodes {
            node.end.on_idle(now);
        }
    }

    fn connect(&mut self, from: usize, to: SocketAddr, timeout_ms: u64) -> Result<Handle, Error> {
        let now = self.now();
        assert!(self.nodes[from].end.is_closed() || self.nodes[from].end.ctx().can_dial(to));
        let h = self.nodes[from].end.dial(now, to)?;
        let deadline = self.elapsed_ms() + timeout_ms;
        loop {
            let late = self.elapsed_ms() >= deadline;
            let now = self.now();
            match self.nodes[from].end.connect_step(now, h, late) {
                Step::Done(()) => return Ok(h),
                Step::Failed(e) => return Err(e),
                Step::Wait => self.turn(),
            }
        }
    }

    fn accept(&mut self, at: usize) -> Handle {
        loop {
            match self.nodes[at].end.try_accept() {
                Step::Done(h) => return h,
                Step::Failed(e) => panic!("{}", e.message()),
                Step::Wait => self.turn(),
            }
        }
    }

    fn pair(&mut self, a: usize, b: usize) -> (Handle, Handle) {
        let to = self.nodes[b].addr;
        let dialed = self.connect(a, to, 60_000).unwrap();
        let accepted = self.accept(b);
        (dialed, accepted)
    }

    fn send(&mut self, at: usize, h: Handle, buf: &[u8], timeout_ms: u64) -> Result<usize, Error> {
        let deadline = self.elapsed_ms() + timeout_ms;
        loop {
            let late = self.elapsed_ms() >= deadline;
            let now = self.now();
            match self.nodes[at].end.send_step(now, h, buf, late) {
                Step::Done(n) => return Ok(n),
                Step::Failed(e) => return Err(e),
                Step::Wait => self.turn(),
            }
        }
    }

    fn recv(&mut self, at: usize, h: Handle, buf: &mut [u8], timeout_ms: u64) -> Result<usize, Error> {
        let deadline = self.elapsed_ms() + timeout_ms;
        loop {
            let late = self.elapsed_ms() >= deadline;
            let now = self.now();
            match self.nodes[at].end.recv_step(now, h, buf, late) {
                Step::Done(n) => return Ok(n),
                Step::Failed(e) => return Err(e),
                Step::Wait => self.turn(),
            }
        }
    }

    /// Writes what there is room for, and says how much that was.
    fn try_send(&mut self, at: usize, h: Handle, buf: &[u8]) -> usize {
        let now = self.now();
        match self.nodes[at].end.send_step(now, h, buf, false) {
            Step::Done(n) => n,
            Step::Failed(e) => panic!("{}", e.message()),
            Step::Wait => 0,
        }
    }

    /// Reads what there is.
    fn try_recv(&mut self, at: usize, h: Handle) -> Vec<u8> {
        let mut buf = vec![0u8; 4096];
        let now = self.now();
        match self.nodes[at].end.recv_step(now, h, &mut buf, false) {
            Step::Done(n) => buf[..n].to_vec(),
            Step::Failed(e) => panic!("{}", e.message()),
            Step::Wait => Vec::new(),
        }
    }

    fn read_to_end(&mut self, at: usize, h: Handle) -> Vec<u8> {
        let mut got = Vec::new();
        let mut buf = [0u8; 512];
        loop {
            let n = self.recv(at, h, &mut buf, 60_000).unwrap();
            if n == 0 {
                return got;
            }
            got.extend_from_slice(&buf[..n]);
        }
    }
}

#[test]
fn connect_accept_exchange() {
    let mut net = Net::new(&[v4(1000), v4(2000)]);
    let (dialed, accepted) = net.pair(0, 1);

    assert_eq!(net.nodes[0].end.peer_addr(dialed), v4(2000));
    assert_eq!(net.nodes[1].end.peer_addr(accepted), v4(1000));

    // Small message each way.
    net.send(0, dialed, b"ping", 1000).unwrap();
    let mut buf = [0u8; 16];
    let n = net.recv(1, accepted, &mut buf, 1000).unwrap();
    assert_eq!(&buf[..n], b"ping");

    net.send(1, accepted, b"pong", 1000).unwrap();
    let n = net.recv(0, dialed, &mut buf, 1000).unwrap();
    assert_eq!(&buf[..n], b"pong");
}

#[test]
fn ipv6_loopback() {
    let mut net = Net::new(&[v6(1000), v6(2000)]);
    let (dialed, accepted) = net.pair(0, 1);
    net.send(0, dialed, b"six", 1000).unwrap();
    let mut buf = [0u8; 8];
    let n = net.recv(1, accepted, &mut buf, 1000).unwrap();
    assert_eq!(&buf[..n], b"six");
}

/// Moves `up` from the first end to the second and `down` the other way.
fn exchange(net: &mut Net, a: Handle, b: Handle, up: &[u8], down: &[u8]) {
    let mut up_sent = 0;
    let mut down_sent = 0;
    let mut up_got = Vec::new();
    let mut down_got = Vec::new();
    while up_got.len() < up.len() || down_got.len() < down.len() {
        if up_sent < up.len() {
            up_sent += net.try_send(0, a, &up[up_sent..]);
        }
        if down_sent < down.len() {
            down_sent += net.try_send(1, b, &down[down_sent..]);
        }
        net.turn();
        up_got.extend(net.try_recv(1, b));
        down_got.extend(net.try_recv(0, a));
        assert!(net.elapsed_ms() < 3_000_000, "no progress");
        assert!(up_got[..] == up[..up_got.len()], "uploaded data corrupted");
        assert!(down_got[..] == down[..down_got.len()], "downloaded data corrupted");
    }
    assert!(up_got == up, "uploaded data corrupted");
    assert!(down_got == down, "downloaded data corrupted");
}

#[test]
fn large_transfer_both_directions() {
    const N: usize = 1 << 20; // 1 MiB each way
    let mut net = Net::new(&[v4(1000), v4(2000)]);
    let (dialed, accepted) = net.pair(0, 1);
    let up = pattern(N, 3);
    let down = pattern(N, 7);
    exchange(&mut net, dialed, accepted, &up, &down);
}

#[test]
fn eof_after_close() {
    let mut net = Net::new(&[v4(1000), v4(2000)]);
    let (dialed, accepted) = net.pair(0, 1);

    net.send(0, dialed, b"bye", 1000).unwrap();
    let now = net.now();
    net.nodes[0].end.close_conn(now, dialed);

    let got = net.read_to_end(1, accepted);
    assert_eq!(got, b"bye");

    // Further reads keep returning EOF.
    let mut buf = [0u8; 4];
    assert_eq!(net.recv(1, accepted, &mut buf, 1000).unwrap(), 0);
    assert_eq!(net.recv(1, accepted, &mut buf, 1000).unwrap(), 0);
}

#[test]
fn self_dial_single_socket() {
    // Both ends of a connection on one socket.
    let mut net = Net::new(&[v4(1000)]);
    let (dialed, accepted) = net.pair(0, 0);
    net.send(0, dialed, b"loop", 1000).unwrap();
    let mut buf = [0u8; 8];
    let n = net.recv(0, accepted, &mut buf, 1000).unwrap();
    assert_eq!(&buf[..n], b"loop");
}

#[test]
fn read_timeout() {
    let mut net = Net::new(&[v4(1000), v4(2000)]);
    let (dialed, _accepted) = net.pair(0, 1);

    let started = net.elapsed_ms();
    let mut buf = [0u8; 4];
    let err = net.recv(0, dialed, &mut buf, 300).unwrap_err();
    assert_eq!(err.kind(), ErrorKind::TimedOut);
    assert_eq!(err, Error::ReadTimedOut);
    assert!(net.elapsed_ms() - started >= 300);
}

#[test]
fn connect_timeout_to_black_hole() {
    // An address that never answers.
    let mut net = Net::new(&[v4(1000)]);
    let err = net.connect(0, v4(9), 500).unwrap_err();
    assert_eq!(err.kind(), ErrorKind::TimedOut);
    assert_eq!(err, Error::ConnectTimedOut);
    assert!(net.elapsed_ms() >= 500);
    assert!(net.elapsed_ms() < 5_000);
    // the one SYN went out, and nothing else
    net.turn();
    assert_eq!(net.stray.len(), 1);
    assert_eq!(net.stray[0].0, v4(9));
    assert_eq!(net.stray[0].1[0], 0x41);
}

#[test]
fn engine_gives_up_dialing_on_its_own() {
    // Without a caller-imposed deadline, the engine's SYN retransmit limit
    // (2 retries in SYN_SENT: ~3s + ~6s) fails the connect by itself.
    let mut net = Net::new(&[v4(1000)]);
    let err = net.connect(0, v4(9), 1_000_000).unwrap_err();
    assert_eq!(err.kind(), ErrorKind::TimedOut);
    assert_eq!(err, Error::ConnectFailed(ErrorKind::TimedOut));
    assert!(net.elapsed_ms() < 30_000);
    // 3 s, then 6 s, then 12 s
    assert!(net.elapsed_ms() >= 21_000);
    assert_eq!(net.stray.len(), 3);
}

#[test]
fn write_timeout_when_receiver_stalls() {
    let mut net = Net::new(&[v4(1000), v4(2000)]);
    // Small buffers so the send window fills up quickly against a receiver
    // that never reads.
    net.nodes[0].end.set_send_buffer_size(64 << 10);
    net.nodes[1].end.set_recv_buffer_size(64 << 10);
    let (dialed, _accepted) = net.pair(0, 1);

    let buf = vec![0u8; 16 << 10];
    let mut written = 0usize;
    let err = loop {
        match net.send(0, dialed, &buf, 500) {
            Ok(n) => written += n,
            Err(e) => break e,
        }
        assert!(written < 64 << 20, "wrote unboundedly with no reader");
    };
    assert_eq!(err.kind(), ErrorKind::TimedOut);
    assert_eq!(err, Error::WriteTimedOut);
    assert!(written > 0, "should have buffered something before stalling");
}

#[test]
fn non_utp_passthrough() {
    let mut net = Net::new(&[v4(1000)]);
    let raw = v4(7777);
    net.inject(0, b"\x00not utp, too short", raw);
    let mut buf = [0u8; 64];
    match net.nodes[0].end.try_recv_from(&mut buf) {
        Step::Done((n, from)) => {
            assert_eq!(&buf[..n], b"\x00not utp, too short");
            assert_eq!(from, raw);
        }
        _ => panic!("no datagram"),
    }
    // a short buffer gets the beginning
    net.inject(0, b"\x00not utp, too short", raw);
    let mut short = [9u8; 4];
    match net.nodes[0].end.try_recv_from(&mut short) {
        Step::Done((n, _)) => assert_eq!((n, &short), (4, b"\x00not")),
        _ => panic!("no datagram"),
    }
    assert!(matches!(net.nodes[0].end.try_recv_from(&mut buf), Step::Wait));
    // none of it was answered
    net.turn();
    assert_eq!(net.stray.len(), 0);
}

#[test]
fn firewall_blocks_incoming() {
    let mut net = Net::new(&[v4(1000), v4(2000)]);
    net.nodes[1].blocked = true;
    let err = net.connect(0, v4(2000), 700).unwrap_err();
    assert_eq!(err.kind(), ErrorKind::TimedOut);
    // not even a RST came back
    assert_eq!(net.nodes[1].sent, 0);
    assert!(matches!(net.nodes[1].end.try_accept(), Step::Wait));
}

#[test]
fn socket_close_errors_blocked_accept() {
    let mut net = Net::new(&[v4(1000)]);
    assert!(matches!(net.nodes[0].end.try_accept(), Step::Wait));
    assert!(net.nodes[0].end.close());
    assert!(matches!(
        net.nodes[0].end.try_accept(),
        Step::Failed(Error::SocketClosed)
    ));
    let mut buf = [0u8; 4];
    assert!(matches!(
        net.nodes[0].end.try_recv_from(&mut buf),
        Step::Failed(Error::SocketClosed)
    ));
    // closing twice is closing once
    assert!(!net.nodes[0].end.close());
}

#[test]
fn connect_after_close_fails() {
    let mut net = Net::new(&[v4(1000)]);
    net.nodes[0].end.close();
    let err = net.connect(0, v4(1000), 1000).unwrap_err();
    assert_eq!(err, Error::SocketClosed);
    assert_eq!(err.kind(), ErrorKind::NotConnected);
    assert_eq!(err.message(), "utp socket closed");
}

#[test]
fn survives_packet_loss() {
    const N: usize = 256 << 10; // 256 KiB through a lossy link
    let mut net = Net::new(&[v4(1000), v4(2000)]);
    // ~7% loss in each direction, desynchronized so the handshake can
    // eventually make it through even if a SYN or SYN-ACK is eaten.
    net.nodes[0].modulus = 14;
    net.nodes[0].offset = 5;
    net.nodes[1].modulus = 14;
    net.nodes[1].offset = 9;

    let data = pattern(N, 11);
    let (dialed, accepted) = net.pair(0, 1);
    exchange(&mut net, dialed, accepted, &data, &[]);
}

#[test]
fn heavy_loss_loses_nothing() {
    let mut net = Net::new(&[v4(1000), v4(2000)]);
    let (dialed, accepted) = net.pair(0, 1);
    net.nodes[0].modulus = 3;
    net.nodes[1].modulus = 4;
    let up = pattern(40_000, 1);
    let down = pattern(30_000, 2);
    exchange(&mut net, dialed, accepted, &up, &down);
    // and the end of the stream still comes after all of it
    net.nodes[0].modulus = 0;
    net.nodes[1].modulus = 0;
    let now = net.now();
    net.nodes[0].end.close_conn(now, dialed);
    assert_eq!(net.read_to_end(1, accepted), b"");
}

#[test]
fn an_empty_queue_means_that_all_arrived() {
    let mut net = Net::new(&[v4(1000), v4(2000)]);
    let (dialed, accepted) = net.pair(0, 1);
    net.nodes[0].modulus = 4;
    net.nodes[1].modulus = 3;
    let data = pattern(20_000, 9);
    let mut sent = 0;
    let mut got = Vec::new();
    while sent < data.len() || net.nodes[0].end.ctx().sockets[0].send.cur_window_packets > 0 {
        if sent < data.len() {
            sent += net.try_send(0, dialed, &data[sent..]);
        }
        net.turn();
        if net.nodes[0].end.ctx().sockets[0].send.cur_window_packets == 0 {
            // nothing is left to be acked, so nothing is missing
            loop {
                let more = net.try_recv(1, accepted);
                if more.is_empty() {
                    break;
                }
                got.extend(more);
            }
            assert!(got[..] == data[..sent]);
        }
        assert!(net.elapsed_ms() < 1_000_000, "no progress");
    }
    assert!(got == data);
}

#[test]
fn repeated_and_reordered_datagrams_change_nothing() {
    let mut net = Net::new(&[v4(1000), v4(2000)]);
    let (dialed, accepted) = net.pair(0, 1);
    let data = pattern(50_000, 5);
    let mut sent = 0;
    let mut got = Vec::new();
    while got.len() < data.len() {
        if sent < data.len() {
            sent += net.try_send(0, dialed, &data[sent..]);
        }
        // everything arrives twice, the newest first
        let mut out = net.nodes[0].end.take_outgoing();
        out.reverse();
        for _ in 0..2 {
            for d in &out {
                net.inject(1, &d.data, v4(1000));
            }
        }
        net.turn();
        got.extend(net.try_recv(1, accepted));
        assert!(got[..] == data[..got.len()]);
        assert!(net.elapsed_ms() < 1_000_000, "no progress");
    }
}

#[test]
fn backlog_is_bounded() {
    let mut net = Net::new(&[v4(1000), v4(2000)]);
    let mut handles = Vec::new();
    for _ in 0..7 {
        handles.push(net.connect(0, v4(2000), 10_000).unwrap());
    }
    // five can be accepted, in the order in which they came
    let mut ids = Vec::new();
    for _ in 0..5 {
        ids.push(net.accept(1).id);
    }
    assert!(ids.windows(2).all(|w| w[0] < w[1]));
    assert!(matches!(net.nodes[1].end.try_accept(), Step::Wait));
}

#[test]
fn foreign_datagrams_are_bounded() {
    let mut net = Net::new(&[v4(1000)]);
    for i in 0..120u8 {
        net.inject(0, &[i], v4(5));
    }
    // a hundred are kept, the oldest ones
    let mut buf = [0u8; 4];
    for i in 0..100u8 {
        match net.nodes[0].end.try_recv_from(&mut buf) {
            Step::Done((n, from)) => assert_eq!((n, buf[0], from), (1, i, v4(5))),
            _ => panic!("no datagram"),
        }
    }
    assert!(matches!(net.nodes[0].end.try_recv_from(&mut buf), Step::Wait));
}

#[test]
fn a_run_of_read_errors_closes_the_socket() {
    let mut net = Net::new(&[v4(1000)]);
    let now = net.now();
    for _ in 0..99 {
        assert!(net.nodes[0].end.on_read_error(now));
    }
    // a datagram ends the run
    net.inject(0, b"x", v4(5));
    for _ in 0..99 {
        assert!(net.nodes[0].end.on_read_error(now));
    }
    assert!(!net.nodes[0].end.is_closed());
    assert!(!net.nodes[0].end.on_read_error(now));
    assert!(net.nodes[0].end.is_closed());
    assert!(net.nodes[0].end.on_datagram(now, b"x", v4(5), false).is_none());
    assert!(!net.nodes[0].end.on_idle(now));
}

#[test]
fn closing_the_socket_destroys_its_connections() {
    let mut net = Net::new(&[v4(1000), v4(2000)]);
    let (dialed, _accepted) = net.pair(0, 1);
    net.nodes[0].end.close();
    let mut buf = [0u8; 4];
    assert_eq!(
        net.recv(0, dialed, &mut buf, 1000).unwrap_err(),
        Error::ConnDestroyed
    );
    let err = net.send(0, dialed, b"x", 1000).unwrap_err();
    assert_eq!(err, Error::ConnDestroyed);
    assert_eq!(err.kind(), ErrorKind::ConnectionAborted);
}

#[test]
fn closing_a_connection_refuses_its_user() {
    let mut net = Net::new(&[v4(1000), v4(2000)]);
    let (dialed, accepted) = net.pair(0, 1);
    let now = net.now();
    net.nodes[0].end.close_conn(now, dialed);
    assert_eq!(
        net.send(0, dialed, b"x", 1000).unwrap_err(),
        Error::ConnClosed
    );
    let mut buf = [0u8; 4];
    assert_eq!(
        net.recv(0, dialed, &mut buf, 1000).unwrap_err(),
        Error::ConnClosed
    );
    assert_eq!(net.nodes[0].end.peer_addr(dialed), v4(2000));
    // empty reads and writes are answered without looking
    assert_eq!(net.send(0, dialed, b"", 1000).unwrap(), 0);
    assert_eq!(net.recv(0, dialed, &mut [], 1000).unwrap(), 0);
    // once both sides are done, the sockets go away
    let now = net.now();
    net.nodes[1].end.drop_conn(now, accepted);
    net.nodes[0].end.drop_conn(now, dialed);
    for _ in 0..5_000 {
        net.turn();
    }
    assert_eq!(net.nodes[0].end.ctx().sockets.len(), 0);
    assert_eq!(net.nodes[1].end.ctx().sockets.len(), 0);
    assert_eq!(net.nodes[0].end.ctx().gone.len(), 0);
    assert_eq!(net.nodes[1].end.ctx().gone.len(), 0);
}

#[test]
fn a_lost_peer_is_given_up() {
    let mut net = Net::new(&[v4(1000), v4(2000)]);
    let (dialed, _accepted) = net.pair(0, 1);
    // the first data goes through, then nothing does
    net.nodes[0].modulus = 1;
    net.send(0, dialed, b"lost", 1000).unwrap();
    let mut buf = [0u8; 4];
    let err = net.recv(0, dialed, &mut buf, 1_000_000).unwrap_err();
    assert_eq!(err, Error::ReadFailed(ErrorKind::TimedOut));
    let err = net.send(0, dialed, b"more", 1000).unwrap_err();
    assert_eq!(err, Error::WriteFailed(ErrorKind::TimedOut));
}

#[test]
fn a_reset_reaches_the_user() {
    let mut net = Net::new(&[v4(1000), v4(2000)]);
    let (dialed, accepted) = net.pair(0, 1);
    net.send(0, dialed, b"data", 1000).unwrap();
    net.turn();
    // the far end forgets the connection without a word
    let _ = accepted;
    net.nodes[1].end = Endpoint::with_rng(Rng::seeded(9, 9));
    net.send(0, dialed, b"more", 1000).unwrap();
    let mut buf = [0u8; 4];
    let err = net.recv(0, dialed, &mut buf, 100_000).unwrap_err();
    assert_eq!(err, Error::ReadFailed(ErrorKind::ConnectionReset));
}

#[test]
fn error_messages() {
    assert_eq!(Error::ConnClosed.message(), "utp connection closed");
    assert_eq!(Error::ConnClosed.kind(), ErrorKind::NotConnected);
    assert_eq!(Error::ConnDestroyed.message(), "utp connection destroyed");
    let reset = ErrorKind::ConnectionReset;
    assert_eq!(Error::ConnectFailed(reset).message(), "utp connect failed");
    assert_eq!(Error::ReadFailed(reset).message(), "utp read failed");
    assert_eq!(Error::WriteFailed(reset).message(), "utp write failed");
    assert_eq!(Error::WriteFailed(reset).kind(), reset);
    assert_eq!(Error::ConnectTimedOut.message(), "utp connect timed out");
    assert_eq!(Error::ReadTimedOut.message(), "utp read timed out");
    assert_eq!(Error::WriteTimedOut.message(), "utp write timed out");
}
