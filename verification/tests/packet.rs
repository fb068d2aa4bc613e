use utp::packet::{
    set_ack_nr, set_conn_id, set_ext, set_reply_micro, set_seq_nr, set_tv_usec, set_version_type,
    set_window_size, Header, HEADER_SIZE, ST_DATA, ST_SYN,
};

#[test]
fn roundtrip() {
    let mut b = [0u8; HEADER_SIZE];
    set_version_type(&mut b, 1, ST_SYN);
    set_ext(&mut b, 2);
    set_conn_id(&mut b, 0xabcd);
    set_tv_usec(&mut b, 0xdead_beef);
    set_reply_micro(&mut b, 0x0102_0304);
    set_window_size(&mut b, 1 << 20);
    set_seq_nr(&mut b, 0x1234);
    set_ack_nr(&mut b, 0x4321);
    let h = Header(&b);
    assert_eq!(h.version(), 1);
    assert_eq!(h.packet_type(), ST_SYN);
    assert_eq!(h.ext(), 2);
    assert_eq!(h.conn_id(), 0xabcd);
    assert_eq!(h.tv_usec(), 0xdead_beef);
    assert_eq!(h.reply_micro(), 0x0102_0304);
    assert_eq!(h.window_size(), 1 << 20);
    assert_eq!(h.seq_nr(), 0x1234);
    assert_eq!(h.ack_nr(), 0x4321);
    assert_eq!(h.wire_version(), 1);
}

#[test]
fn wire_version_rejects_garbage() {
    let mut b = [0u8; HEADER_SIZE];
    set_version_type(&mut b, 1, 9);
    assert_eq!(Header(&b).wire_version(), 0);
    set_version_type(&mut b, 1, ST_DATA);
    set_ext(&mut b, 3);
    assert_eq!(Header(&b).wire_version(), 0);
}
