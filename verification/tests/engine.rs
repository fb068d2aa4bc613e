//! The engine on its own: datagrams in, datagrams out.

use utp::addr::SocketAddr;
use utp::clock::{Clock, Now};
use utp::conn_shared::ErrorKind;
use utp::delay_hist::DelayHist;
use utp::engine::context::Context;
use utp::engine::drift::Drift;
use utp::engine::mtu::Mtu;
use utp::engine::receive::{recognize, ProcessUdp};
use utp::engine::rtt::Rtt;
use utp::engine::state::{ConnState, Datagram, Key};
use utp::packet;
use utp::packet::{Header, ST_DATA, ST_FIN, ST_RESET, ST_STATE, ST_SYN};
use utp::util::Rng;

const PEER: SocketAddr = SocketAddr::V4 { ip: 0x0a00_0001, port: 4000 };

fn at(ms: u64) -> Now {
    Now { ms, us: ms * 1000 }
}

fn context() -> Context {
    Context::with_rng(Rng::seeded(7, 7))
}

fn packet_of(kind: u8, conn_id: u16, seq_nr: u16, ack_nr: u16, payload: &[u8]) -> Vec<u8> {
    let mut b = vec![0u8; 20];
    packet::set_version_type(&mut b, 1, kind);
    packet::set_conn_id(&mut b, conn_id);
    packet::set_tv_usec(&mut b, 5_000);
    packet::set_window_size(&mut b, 1 << 20);
    packet::set_seq_nr(&mut b, seq_nr);
    packet::set_ack_nr(&mut b, ack_nr);
    b.extend_from_slice(payload);
    b
}

/// Puts a selective ack into a packet.
fn with_mask(mut b: Vec<u8>, mask: &[u8]) -> Vec<u8> {
    packet::set_ext(&mut b, 1);
    let mut ext = vec![0, mask.len() as u8];
    ext.extend_from_slice(mask);
    let payload = b.split_off(20);
    b.extend(ext);
    b.extend(payload);
    b
}

fn kinds(out: &[Datagram]) -> Vec<u8> {
    out.iter().map(|d| Header(&d.data).packet_type()).collect()
}

/// An incoming connection with id 100 whose peer starts at number 500, past
/// the peer's first data packet.
fn accepted(ctx: &mut Context) -> (Key, u64, u16) {
    let syn = packet_of(ST_SYN, 100, 500, 0, b"");
    assert!(ctx.is_incoming(&syn, PEER));
    let (key, id) = match ctx.process_udp_at(at(1000), &syn, PEER, false) {
        ProcessUdp::Accepted(key, id) => (key, id),
        _ => panic!("not accepted"),
    };
    assert_eq!(key, Key { addr: PEER, recv_id: 101 });
    let out = ctx.take_outgoing();
    assert_eq!(kinds(&out), [ST_STATE]);
    let h = Header(&out[0].data);
    assert_eq!(h.conn_id(), 100);
    assert_eq!(h.ack_nr(), 500);
    let seq_nr = h.seq_nr();
    let first = packet_of(ST_DATA, 101, 501, seq_nr.wrapping_sub(1), b"");
    assert!(matches!(
        ctx.process_udp_at(at(1001), &first, PEER, false),
        ProcessUdp::Handled
    ));
    ctx.issue_deferred_acks_at(at(1001));
    let out = ctx.take_outgoing();
    assert_eq!(kinds(&out), [ST_STATE]);
    assert_eq!(Header(&out[0].data).ack_nr(), 501);
    (key, id, seq_nr)
}

fn read_all(ctx: &mut Context, id: u64) -> Vec<u8> {
    let mut buf = vec![0u8; 65536];
    let n = ctx.conn_mut(id).unwrap().take_read(&mut buf);
    buf.truncate(n);
    buf
}

#[test]
fn recognizes_what_is_utp() {
    let syn = packet_of(ST_SYN, 1, 1, 0, b"");
    assert!(recognize(&syn, PEER));
    assert!(!recognize(&syn[..19], PEER));
    assert!(!recognize(&syn, SocketAddr::V4 { ip: 1, port: 0 }));
    let mut other = syn.clone();
    other[0] = 0x42;
    assert!(!recognize(&other, PEER));
    other[0] = 0x51;
    assert!(!recognize(&other, PEER));
    other[0] = 0x41;
    other[1] = 3;
    assert!(!recognize(&other, PEER));
    let mut ctx = context();
    assert!(matches!(
        ctx.process_udp_at(at(1), b"nonsense", PEER, false),
        ProcessUdp::NotUtp
    ));
    assert!(ctx.take_outgoing().is_empty());
}

#[test]
fn data_is_delivered_in_order() {
    let mut ctx = context();
    let (_key, id, seq_nr) = accepted(&mut ctx);
    let ack = seq_nr.wrapping_sub(1);
    // the second and the fourth come early
    for (n, text) in [(503u16, "two"), (505, "four"), (503, "two")] {
        ctx.process_udp_at(at(1002), &packet_of(ST_DATA, 101, n, ack, text.as_bytes()), PEER, false);
    }
    assert_eq!(read_all(&mut ctx, id), b"");
    // the ack names them: bit 0 stands for 503, bit 2 for 505
    ctx.issue_deferred_acks_at(at(1002));
    let out = ctx.take_outgoing();
    assert_eq!(kinds(&out), [ST_STATE]);
    assert_eq!(Header(&out[0].data).ack_nr(), 501);
    assert_eq!(out[0].data[1], 1);
    assert_eq!(&out[0].data[20..], &[0, 4, 0b101, 0, 0, 0]);
    // the gaps close
    ctx.process_udp_at(at(1003), &packet_of(ST_DATA, 101, 502, ack, b"one"), PEER, false);
    assert_eq!(read_all(&mut ctx, id), b"onetwo");
    ctx.process_udp_at(at(1003), &packet_of(ST_DATA, 101, 504, ack, b"three"), PEER, false);
    assert_eq!(read_all(&mut ctx, id), b"threefour");
    // what was had before is acked again, and not delivered again
    ctx.issue_deferred_acks_at(at(1003));
    ctx.take_outgoing();
    ctx.process_udp_at(at(1004), &packet_of(ST_DATA, 101, 502, ack, b"one"), PEER, false);
    assert_eq!(read_all(&mut ctx, id), b"");
    ctx.issue_deferred_acks_at(at(1004));
    let out = ctx.take_outgoing();
    assert_eq!(Header(&out[0].data).ack_nr(), 505);
    // what is too far ahead is not taken
    ctx.process_udp_at(at(1005), &packet_of(ST_DATA, 101, 505 + 1025, ack, b"far"), PEER, false);
    ctx.issue_deferred_acks_at(at(1005));
    assert!(ctx.take_outgoing().is_empty());
}

#[test]
fn any_order_and_any_extensions_give_the_same_data() {
    let mut ctx = context();
    let (_key, id, seq_nr) = accepted(&mut ctx);
    let ack = seq_nr.wrapping_sub(1);
    let texts = ["", "one", "two", "three", "four", "five"];
    let mut got = Vec::new();
    for (k, i) in [3usize, 5, 3, 1, 5, 2, 1, 4, 2, 4].into_iter().enumerate() {
        let plain = packet_of(ST_DATA, 101, 501 + i as u16, ack, texts[i].as_bytes());
        // plain ones, ones with a selective ack, ones with extension bits
        let buf = match k % 3 {
            0 => plain,
            1 => with_mask(plain, &[0, 0, 0, 0]),
            _ => {
                let mut b = with_mask(plain, &[9, 8, 7, 6, 5, 4, 3, 2]);
                packet::set_ext(&mut b, 2);
                b
            }
        };
        ctx.process_udp_at(at(1002), &buf, PEER, false);
        got.extend(read_all(&mut ctx, id));
        let n = ctx.sockets[0].recv.ack_nr - 501;
        assert_eq!(got, texts[..=n as usize].concat().as_bytes());
    }
    assert_eq!(got, b"onetwothreefourfive");
    // broken headers carry nothing
    let mut broken = packet_of(ST_DATA, 101, 507, ack, b"ab");
    packet::set_ext(&mut broken, 2);
    ctx.process_udp_at(at(1003), &broken, PEER, false);
    assert_eq!(read_all(&mut ctx, id), b"");
    assert_eq!(ctx.sockets[0].recv.ack_nr, 506);
}

#[test]
fn fin_ends_the_stream() {
    let mut ctx = context();
    let (_key, id, seq_nr) = accepted(&mut ctx);
    let ack = seq_nr.wrapping_sub(1);
    ctx.process_udp_at(at(1002), &packet_of(ST_FIN, 101, 503, ack, b""), PEER, false);
    assert!(!ctx.conn(id).unwrap().cell.got_eof);
    ctx.process_udp_at(at(1003), &packet_of(ST_DATA, 101, 502, ack, b"last"), PEER, false);
    assert_eq!(read_all(&mut ctx, id), b"last");
    assert!(ctx.conn(id).unwrap().cell.got_eof);
    // the FIN is acked at once
    let out = ctx.take_outgoing();
    assert_eq!(kinds(&out), [ST_STATE]);
    assert_eq!(Header(&out[0].data).ack_nr(), 503);
    // stragglers change nothing
    ctx.process_udp_at(at(1004), &packet_of(ST_DATA, 101, 502, ack, b"last"), PEER, false);
    assert!(ctx.conn(id).unwrap().cell.got_eof);
    assert_eq!(read_all(&mut ctx, id), b"");
}

#[test]
fn packets_are_kept_until_acked() {
    let mut ctx = context();
    let (key, _id, seq_nr) = accepted(&mut ctx);
    let text = b"hello over utp";
    assert_eq!(ctx.write_at(at(1010), key, text), Some(text.len()));
    let out = ctx.take_outgoing();
    assert_eq!(kinds(&out), [ST_DATA]);
    assert_eq!(Header(&out[0].data).seq_nr(), seq_nr);
    assert_eq!(&out[0].data[20..], text);
    assert_eq!(ctx.sockets[0].send.cur_window, text.len());
    // the timer runs out: the same packet again
    ctx.check_timeouts_at(at(3000));
    ctx.check_timeouts_at(at(5000));
    let again = ctx.take_outgoing();
    assert!(again.iter().any(|d| Header(&d.data).packet_type() == ST_DATA));
    for d in &again {
        assert_eq!(d.addr, PEER);
        if Header(&d.data).packet_type() == ST_DATA {
            assert_eq!(Header(&d.data).seq_nr(), seq_nr);
            assert_eq!(&d.data[20..], text);
        }
    }
    // the ack takes it out
    assert_eq!(ctx.sockets[0].send.cur_window_packets, 1);
    ctx.process_udp_at(at(5001), &packet_of(ST_STATE, 101, 502, seq_nr, b""), PEER, false);
    assert_eq!(ctx.sockets[0].send.cur_window_packets, 0);
    assert_eq!(ctx.sockets[0].send.cur_window, 0);
    ctx.check_timeouts_at(at(20_000));
    assert!(kinds(&ctx.take_outgoing()).iter().all(|k| *k != ST_DATA));
    // an ack of what was never sent is ignored
    let bad = packet_of(ST_STATE, 101, 502, seq_nr.wrapping_add(1), b"");
    ctx.process_udp_at(at(20_001), &bad, PEER, false);
    assert_eq!(ctx.sockets[0].seen.last_got_packet, 5001);
    // unknown keys
    let none = Key { addr: PEER, recv_id: 7 };
    assert_eq!(ctx.write_at(at(20_002), none, text), None);
}

#[test]
fn a_delay_estimate_is_no_more_than_the_round_trip() {
    let mut ctx = context();
    let (key, _id, seq_nr) = accepted(&mut ctx);
    // an ack that tells of no delay: a round trip, but nothing to hold it to
    assert_eq!(ctx.write_at(at(1010), key, b"a"), Some(1));
    let mut ack = packet_of(ST_STATE, 101, 502, seq_nr, b"");
    ctx.process_udp_at(at(1030), &ack, PEER, false);
    assert_eq!(ctx.sockets[0].send.cur_window_packets, 0);
    assert_eq!(ctx.sockets[0].our_hist.delay_base, 0);
    assert!(!ctx.sockets[0].our_hist.delay_base_initialized);
    // delays of 1 ms and then, three times, 50 ms over that: cut to 20 ms
    for (i, micros) in [1_000u32, 51_000, 51_000, 51_000].into_iter().enumerate() {
        let seq = seq_nr.wrapping_add(1 + i as u16);
        let t = 2_000 + 100 * i as u64;
        assert_eq!(ctx.write_at(at(t), key, b"b"), Some(1));
        packet::set_ack_nr(&mut ack, seq);
        packet::set_reply_micro(&mut ack, micros);
        ctx.process_udp_at(at(t + 20), &ack, PEER, false);
    }
    assert_eq!(ctx.sockets[0].our_hist.get_value(), 50_000);
    assert_eq!(ctx.sockets[0].our_hist.delay_base, 31_000);
}

#[test]
fn selective_acks_resend_the_gap() {
    let mut ctx = context();
    let (key, _id, seq_nr) = accepted(&mut ctx);
    // let the window open up far enough for six packets
    ctx.sockets[0].cwnd.max_window = 100_000;
    let data = vec![7u8; 6 * 1382];
    assert_eq!(ctx.write_at(at(1010), key, &data), Some(data.len()));
    let out = ctx.take_outgoing();
    let sent: Vec<u16> = out.iter().map(|d| Header(&d.data).seq_nr()).collect();
    let expected: Vec<u16> = (0..6).map(|i| seq_nr.wrapping_add(i)).collect();
    assert_eq!(sent, expected);
    // all but the first arrived: bits 0..=4 stand for the second to the sixth
    let b = packet_of(ST_STATE, 101, 502, seq_nr.wrapping_sub(1), b"");
    ctx.process_udp_at(at(1050), &with_mask(b, &[0b1_1111, 0, 0, 0]), PEER, false);
    let again = ctx.take_outgoing();
    assert_eq!(kinds(&again), [ST_DATA]);
    assert_eq!(Header(&again[0].data).seq_nr(), seq_nr);
    assert_eq!(ctx.sockets[0].send.cur_window, 1382);
    // the ack of the first acks them all
    let b = packet_of(ST_STATE, 101, 502, seq_nr.wrapping_add(5), b"");
    ctx.process_udp_at(at(1060), &b, PEER, false);
    assert_eq!(ctx.sockets[0].send.cur_window_packets, 0);
}

#[test]
fn broken_extensions_are_dropped() {
    let mut ctx = context();
    let (_key, id, seq_nr) = accepted(&mut ctx);
    let ack = seq_nr.wrapping_sub(1);
    // a mask that is longer than the packet
    let mut b = packet_of(ST_DATA, 101, 502, ack, b"");
    packet::set_ext(&mut b, 1);
    b.extend_from_slice(&[0, 200, 1, 2]);
    ctx.process_udp_at(at(1002), &b, PEER, false);
    assert_eq!(read_all(&mut ctx, id), b"");
    // extension bits have eight bytes
    let mut b = packet_of(ST_DATA, 101, 502, ack, b"");
    packet::set_ext(&mut b, 2);
    b.extend_from_slice(&[0, 4, 1, 2, 3, 4]);
    ctx.process_udp_at(at(1002), &b, PEER, false);
    assert_eq!(read_all(&mut ctx, id), b"");
    let mut b = packet_of(ST_DATA, 101, 502, ack, b"");
    packet::set_ext(&mut b, 2);
    b.extend_from_slice(&[0, 8, 1, 2, 3, 4, 5, 6, 7, 8]);
    b.extend_from_slice(b"payload");
    ctx.process_udp_at(at(1002), &b, PEER, false);
    assert_eq!(read_all(&mut ctx, id), b"payload");
    assert_eq!(ctx.sockets[0].extensions, [1, 2, 3, 4, 5, 6, 7, 8]);
}

#[test]
fn unknown_streams_get_one_reset() {
    let mut ctx = context();
    let b = packet_of(ST_DATA, 9, 77, 0, b"who is this");
    assert!(matches!(
        ctx.process_udp_at(at(1000), &b, PEER, false),
        ProcessUdp::Handled
    ));
    let out = ctx.take_outgoing();
    assert_eq!(kinds(&out), [ST_RESET]);
    assert_eq!(out[0].addr, PEER);
    assert_eq!(out[0].conn, None);
    let h = Header(&out[0].data);
    assert_eq!((h.conn_id(), h.ack_nr(), h.window_size()), (9, 77, 0));
    // the same again is ignored
    ctx.process_udp_at(at(1500), &b, PEER, false);
    assert!(ctx.take_outgoing().is_empty());
    // another stream is not
    ctx.process_udp_at(at(1500), &packet_of(ST_DATA, 10, 77, 0, b""), PEER, false);
    assert_eq!(kinds(&ctx.take_outgoing()), [ST_RESET]);
    // after ten seconds it is forgotten
    ctx.check_timeouts_at(at(11_400));
    assert_eq!(ctx.rst_info.len(), 2);
    ctx.check_timeouts_at(at(11_900));
    assert_eq!(ctx.rst_info.len(), 0);
    ctx.process_udp_at(at(12_000), &b, PEER, false);
    assert_eq!(kinds(&ctx.take_outgoing()), [ST_RESET]);
}

#[test]
fn resets_find_their_connection() {
    // under our receive id
    let mut ctx = context();
    let (_key, id, _seq_nr) = accepted(&mut ctx);
    ctx.process_udp_at(at(1100), &packet_of(ST_RESET, 101, 1, 1, b""), PEER, false);
    assert_eq!(ctx.conn(id).unwrap().cell.error, Some(ErrorKind::ConnectionReset));
    assert_eq!(ctx.sockets[0].state, ConnState::Reset);
    // under our send id
    let mut ctx = context();
    let (_key, id, _seq_nr) = accepted(&mut ctx);
    ctx.process_udp_at(at(1100), &packet_of(ST_RESET, 100, 1, 1, b""), PEER, false);
    assert_eq!(ctx.conn(id).unwrap().cell.error, Some(ErrorKind::ConnectionReset));
    // a connection that its user has closed is not kept
    let mut ctx = context();
    let (key, _id, _seq_nr) = accepted(&mut ctx);
    ctx.close_at(at(1050), key);
    ctx.process_udp_at(at(1100), &packet_of(ST_RESET, 101, 1, 1, b""), PEER, false);
    assert_eq!(ctx.sockets[0].state, ConnState::Destroy);
    // others are left alone
    let mut ctx = context();
    let (_key, id, _seq_nr) = accepted(&mut ctx);
    ctx.process_udp_at(at(1100), &packet_of(ST_RESET, 300, 1, 1, b""), PEER, false);
    assert_eq!(ctx.conn(id).unwrap().cell.error, None);
    assert!(ctx.take_outgoing().is_empty());
}

#[test]
fn requests_are_accepted_once() {
    let mut ctx = context();
    accepted(&mut ctx);
    let syn = packet_of(ST_SYN, 100, 500, 0, b"");
    assert!(!ctx.is_incoming(&syn, PEER));
    assert!(matches!(
        ctx.process_udp_at(at(1100), &syn, PEER, false),
        ProcessUdp::Handled
    ));
    assert_eq!(ctx.sockets.len(), 1);
    assert!(ctx.take_outgoing().is_empty());
    // one that is to be ignored leaves no trace
    let other = packet_of(ST_SYN, 200, 1, 0, b"");
    assert!(ctx.is_incoming(&other, PEER));
    assert!(matches!(
        ctx.process_udp_at(at(1100), &other, PEER, true),
        ProcessUdp::Handled
    ));
    assert_eq!(ctx.sockets.len(), 1);
    assert!(ctx.take_outgoing().is_empty());
}

#[test]
fn timers_are_looked_at_twice_a_second() {
    let mut ctx = context();
    ctx.check_timeouts_at(at(10_000));
    let (key, _id, _seq_nr) = accepted(&mut ctx);
    ctx.write_at(at(10_001), key, b"x");
    ctx.take_outgoing();
    ctx.sockets[0].send.rto_timeout = 10_002;
    ctx.check_timeouts_at(at(10_499));
    assert!(ctx.take_outgoing().is_empty());
    ctx.check_timeouts_at(at(10_500));
    assert_eq!(kinds(&ctx.take_outgoing()), [ST_DATA]);
}

#[test]
fn idle_connections_are_kept_alive() {
    let mut ctx = context();
    accepted(&mut ctx);
    ctx.check_timeouts_at(at(29_000));
    assert!(ctx.take_outgoing().is_empty());
    ctx.check_timeouts_at(at(30_001));
    let out = ctx.take_outgoing();
    assert_eq!(kinds(&out), [ST_STATE]);
    // one less than what was received
    assert_eq!(Header(&out[0].data).ack_nr(), 500);
    assert_eq!(ctx.sockets[0].recv.ack_nr, 501);
}

#[test]
fn a_closed_window_is_probed() {
    let mut ctx = context();
    let (key, _id, seq_nr) = accepted(&mut ctx);
    let mut b = packet_of(ST_STATE, 101, 502, seq_nr.wrapping_sub(1), b"");
    packet::set_window_size(&mut b, 0);
    ctx.process_udp_at(at(2_000), &b, PEER, false);
    assert_eq!(ctx.sockets[0].send.max_window_user, 0);
    assert_eq!(ctx.write_at(at(2_001), key, b"data"), Some(0));
    assert_eq!(ctx.sockets[0].state, ConnState::ConnectedFull);
    ctx.check_timeouts_at(at(16_999));
    assert_eq!(ctx.sockets[0].send.max_window_user, 0);
    ctx.check_timeouts_at(at(17_500));
    assert_eq!(ctx.sockets[0].send.max_window_user, 1435);
    assert_eq!(ctx.sockets[0].state, ConnState::Connected);
    assert_eq!(ctx.write_at(at(17_501), key, b"data"), Some(4));
}

#[test]
fn reading_reopens_the_window() {
    let mut ctx = context();
    ctx.options.opt_rcvbuf = 8;
    let (key, id, seq_nr) = accepted(&mut ctx);
    let ack = seq_nr.wrapping_sub(1);
    ctx.process_udp_at(at(1002), &packet_of(ST_DATA, 101, 502, ack, b"12345678"), PEER, false);
    ctx.issue_deferred_acks_at(at(1002));
    let out = ctx.take_outgoing();
    assert_eq!(Header(&out[0].data).window_size(), 0);
    assert_eq!(read_all(&mut ctx, id), b"12345678");
    ctx.read_drained_at(at(1003), key);
    let out = ctx.take_outgoing();
    assert_eq!(kinds(&out), [ST_STATE]);
    assert_eq!(Header(&out[0].data).window_size(), 8);
}

#[test]
fn send_errors_reach_the_user() {
    let mut ctx = context();
    let (_key, id, _seq_nr) = accepted(&mut ctx);
    // what is transient is ignored
    ctx.on_send_error(id, ErrorKind::Other, true);
    assert_eq!(ctx.conn(id).unwrap().cell.error, None);
    ctx.on_send_error(id, ErrorKind::AddrNotAvailable, true);
    assert_eq!(ctx.conn(id).unwrap().cell.error, Some(ErrorKind::AddrNotAvailable));
    // the first error stays
    ctx.on_send_error(id, ErrorKind::InvalidInput, true);
    assert_eq!(ctx.conn(id).unwrap().cell.error, Some(ErrorKind::AddrNotAvailable));
    assert!(ctx.conn(99).is_none());
    ctx.on_send_error(99, ErrorKind::InvalidInput, true);
}

#[test]
fn changes_are_announced_once() {
    let mut ctx = context();
    let (_key, id, seq_nr) = accepted(&mut ctx);
    assert_eq!(ctx.take_notified(), [id]);
    assert!(ctx.take_notified().is_empty());
    let b = packet_of(ST_DATA, 101, 502, seq_nr.wrapping_sub(1), b"news");
    ctx.process_udp_at(at(1100), &b, PEER, false);
    assert_eq!(ctx.take_notified(), [id]);
    ctx.destroy_all();
    assert_eq!(ctx.take_notified(), [id]);
    assert!(ctx.conn(id).unwrap().cell.destroyed);
    ctx.release(id);
    assert!(ctx.conn(id).is_none());
}

#[test]
fn dialling_sends_a_syn() {
    let mut ctx = context();
    assert!(ctx.can_dial(PEER));
    let (key, id) = ctx.connect_at(at(1000), PEER);
    let out = ctx.take_outgoing();
    assert_eq!(kinds(&out), [ST_SYN]);
    let h = Header(&out[0].data);
    assert_eq!(h.conn_id() as u32, key.recv_id);
    assert_eq!(out[0].data.len(), 20);
    assert_eq!(ctx.sockets[0].state, ConnState::SynSent);
    assert_eq!(ctx.sockets[0].peer.conn_id_send, key.recv_id + 1);
    // two connections to one peer have two keys
    let (other, _) = ctx.connect_at(at(1000), PEER);
    assert_ne!(key, other);
    // the answer completes it, and an empty packet says so
    let answer = packet_of(ST_STATE, key.recv_id as u16, 900, h.seq_nr(), b"");
    ctx.take_outgoing();
    ctx.process_udp_at(at(1010), &answer, PEER, false);
    assert!(ctx.conn(id).unwrap().cell.got_connect);
    let out = ctx.take_outgoing();
    assert_eq!(kinds(&out), [ST_DATA]);
    assert_eq!(out[0].data.len(), 20);
    assert_eq!(Header(&out[0].data).ack_nr(), 899);
}

#[test]
fn round_trips() {
    let mut r = Rtt { rtt: 0, rtt_var: 800, rto: 3000 };
    r.add_sample(100);
    assert_eq!(r, Rtt { rtt: 100, rtt_var: 50, rto: 1000 });
    r.add_sample(900);
    // 50 + (800 - 50) / 4, 100 - 100 / 8 + 900 / 8
    assert_eq!(r, Rtt { rtt: 200, rtt_var: 237, rto: 1148 });
    r.add_sample(200);
    // 237 + (0 - 237) / 4, rounded towards zero
    assert_eq!(r, Rtt { rtt: 200, rtt_var: 178, rto: 1000 });
}

#[test]
fn path_size_search() {
    let mut m = Mtu { discover_time: 0, ceiling: 0, floor: 0, last: 0, probe_seq: 0, probe_size: 0 };
    m.reset(1402, 1000);
    assert_eq!((m.floor, m.ceiling, m.discover_time), (576, 1402, 1_801_000));
    m.last = m.ceiling;
    m.probe_seq = 5;
    m.probe_size = 1402;
    // too large: search below it
    m.on_probe_lost(2000);
    assert_eq!((m.floor, m.ceiling, m.last, m.probe_seq), (576, 1401, 988, 0));
    m.probe_seq = 6;
    m.probe_size = 988;
    m.on_probe_acked(3000);
    assert_eq!((m.floor, m.ceiling, m.last), (988, 1401, 1194));
    // close enough: the floor it is
    m.floor = 1390;
    m.search_update(4000);
    assert_eq!((m.floor, m.ceiling, m.last), (1390, 1390, 1390));
    assert_eq!(m.discover_time, 1_804_000);
    // a small interface is followed down
    m.reset(500, 0);
    assert_eq!((m.floor, m.ceiling), (500, 500));
}

#[test]
fn clock_drift() {
    let mut d = Drift {
        average_delay: 0,
        current_delay_sum: 0,
        current_delay_samples: 0,
        average_delay_base: 0,
        average_sample_time: 5_000,
        clock_drift: 0,
        clock_drift_raw: 0,
    };
    d.add_sample(1_000, 100);
    assert_eq!((d.average_delay_base, d.current_delay_samples), (1_000, 1));
    // the slot ends: the average is (0 + 700) / 2, the drift an eighth of it
    d.add_sample(1_700, 6_000);
    assert_eq!(d.clock_drift_raw, 350);
    assert_eq!(d.clock_drift, 43);
    assert_eq!(d.current_delay_samples, 0);
    assert_eq!(d.average_sample_time, 10_000);
}

#[test]
fn delays_without_samples() {
    let mut h = DelayHist::new(0);
    assert_eq!(h.get_value(), u32::MAX);
    h.add_sample(500, 0);
    assert_eq!(h.get_value(), 0);
    h.shift(100);
    assert_eq!(h.delay_base, 600);
    assert_eq!(h.get_value(), 0);
    // the same samples on a clock that is off by an offset
    let mut a = DelayHist::new(0);
    let mut b = DelayHist::new(0);
    let offset = 0xffff_f000u32;
    for (i, s) in [70u32, 50, 900, 120, 65, 40, 300].iter().enumerate() {
        a.add_sample(*s, 30_000 * i as u64);
        b.add_sample(s.wrapping_add(offset), 30_000 * i as u64);
        assert_eq!(a.get_value(), b.get_value());
        assert_eq!(a.delay_base.wrapping_add(offset), b.delay_base);
    }
}

#[test]
fn clock_readings() {
    let c = Clock::new();
    let a = c.now();
    let b = c.now();
    assert!(a.ms >= 1_000 && a.us >= 1_000_000);
    assert!(a.ms < 61_000 && a.us < 61_000_000);
    assert!(b.us >= a.us && b.ms >= a.ms);
    assert!(c.micros() >= b.us && c.millis() >= b.ms);
    // both readings are cut, not rounded, and start a second in
    assert_eq!(Now::elapsed(0), Now { ms: 1_000, us: 1_000_000 });
    assert_eq!(Now::elapsed(2_999_999), Now { ms: 1_002, us: 1_002_999 });
    // later readings are not smaller, and the two go together
    let steps = [0u128, 1, 999, 1_000, 999_999, 1_000_000, 1_000_001, 5_432_100_000];
    for w in steps.windows(2) {
        let (a, b) = (Now::elapsed(w[0]), Now::elapsed(w[1]));
        assert!(a.us <= b.us && a.ms <= b.ms);
        assert!(a.us / 1_000 <= b.ms && a.ms * 1_000 <= b.us);
    }
}

#[test]
fn entry_points_read_the_clock() {
    let mut counter = 0;
    let mut ctx = Context::new(&mut counter);
    assert_eq!(counter, 0x9e37_79b9_7f4a_7c15);
    let (key, id) = ctx.connect(PEER);
    assert_eq!(kinds(&ctx.take_outgoing()), [ST_SYN]);
    assert_eq!(ctx.write(key, b"early"), Some(0));
    ctx.check_timeouts();
    ctx.issue_deferred_acks();
    ctx.read_drained(key);
    assert!(matches!(
        ctx.process_udp(b"nonsense", PEER, false),
        ProcessUdp::NotUtp
    ));
    ctx.close(key);
    assert_eq!(ctx.sockets[0].state, ConnState::Destroy);
    assert!(ctx.conn(id).is_some());
}

#[test]
fn generator_values() {
    let mut r = Rng::seeded(0, 0);
    let mut again = Rng::seeded(0, 0);
    let first = r.next_u64();
    assert_eq!(first, again.next_u64());
    // one step of the generator, written out
    let mut z = 0x2545_f491_4f6c_dd1du64.wrapping_add(0x9e37_79b9_7f4a_7c15);
    z = (z ^ (z >> 30)).wrapping_mul(0xbf58_476d_1ce4_e5b9);
    z = (z ^ (z >> 27)).wrapping_mul(0x94d0_49bb_1331_11eb);
    assert_eq!(first, z ^ (z >> 31));
    let mut other = Rng::seeded(0, 1);
    assert_ne!(first, other.next_u64());
    // the time of day is in the seed
    let mut counter = 0;
    assert_ne!(first, Rng::new(&mut counter).next_u64());
    // and so is the counter, which moves on
    assert_eq!(counter, 0x9e37_79b9_7f4a_7c15);
    let second = Rng::seeded(0, counter).next_u64();
    assert_ne!(first, second);
    Rng::new(&mut counter);
    assert_eq!(counter, 0x3c6e_f372_fe94_f82a);
    assert_ne!(second, Rng::seeded(0, counter).next_u64());
}
