//! uTP version 1 wire format.
//!
//! ```text
//! 0       4       8               16              24              32
//! +-------+-------+---------------+---------------+---------------+
//! | type  | ver   | extension     | connection_id                 |
//! +-------+-------+---------------+---------------+---------------+
//! | timestamp_microseconds                                        |
//! +---------------+---------------+---------------+---------------+
//! | timestamp_difference_microseconds                             |
//! +---------------+---------------+---------------+---------------+
//! | wnd_size                                                      |
//! +---------------+---------------+---------------+---------------+
//! | seq_nr                        | ack_nr                        |
//! +---------------+---------------+---------------+---------------+
//! ```

use vstd::prelude::*;

verus! {

pub const HEADER_SIZE: usize = 20;

/// Data packet.
pub const ST_DATA: u8 = 0;
/// Finalize the connection. This is the last packet.
pub const ST_FIN: u8 = 1;
/// State packet. Used to transmit an ACK with no data.
pub const ST_STATE: u8 = 2;
/// Terminate connection forcefully.
pub const ST_RESET: u8 = 3;
/// Connect SYN
pub const ST_SYN: u8 = 4;
/// used for bounds checking
pub const ST_NUM_STATES: u8 = 5;

/// The 16-bit big-endian number at offset `at` of `b`.
pub open spec fn be16(b: Seq<u8>, at: int) -> int {
    b[at] * 256 + b[at + 1]
}

/// The 32-bit big-endian number at offset `at` of `b`.
pub open spec fn be32(b: Seq<u8>, at: int) -> int {
    b[at] * 0x100_0000 + b[at + 1] * 0x1_0000 + b[at + 2] * 256 + b[at + 3]
}

/// `b` with the 16-bit number `v` stored big-endian at offset `at`.
pub open spec fn put_be16(b: Seq<u8>, at: int, v: int) -> Seq<u8> {
    b.update(at, (v / 256) as u8).update(at + 1, (v % 256) as u8)
}

/// `b` with the 32-bit number `v` stored big-endian at offset `at`.
pub open spec fn put_be32(b: Seq<u8>, at: int, v: int) -> Seq<u8> {
    b.update(at, (v / 0x100_0000) as u8).update(at + 1, (v / 0x1_0000 % 256) as u8).update(
        at + 2,
        (v / 256 % 256) as u8,
    ).update(at + 3, (v % 256) as u8)
}

/// What the first byte of a header holds: the type in the high half, the
/// version in the low half, each cut to four bits.
pub open spec fn version_type_byte(version: u8, packet_type: u8) -> u8 {
    ((packet_type % 16) * 16 + version % 16) as u8
}

/// Accessors over a raw uTP v1 header. All multi-byte fields are big-endian.
#[derive(Clone, Copy)]
pub struct Header<'a>(pub &'a [u8]);

fn read_be16(b: &[u8], at: usize) -> (v: u16)
    requires
        at + 2 <= b@.len(),
    ensures
        v == be16(b@, at as int),
{
    (b[at] as u16) * 256 + b[at + 1] as u16
}

fn read_be32(b: &[u8], at: usize) -> (v: u32)
    requires
        at + 4 <= b@.len(),
    ensures
        v == be32(b@, at as int),
{
    (b[at] as u32) * 0x100_0000 + (b[at + 1] as u32) * 0x1_0000 + (b[at + 2] as u32) * 256 + b[at
        + 3] as u32
}

impl<'a> Header<'a> {
    pub fn version(&self) -> (v: u8)
        requires
            self.0@.len() >= 1,
        ensures
            v == self.0@[0] % 16,
    {
        let x: u8 = self.0[0];
        assert(x & 0xf == x % 16) by (bit_vector);
        x & 0xf
    }

    pub fn packet_type(&self) -> (v: u8)
        requires
            self.0@.len() >= 1,
        ensures
            v == self.0@[0] / 16,
    {
        let x: u8 = self.0[0];
        assert(x >> 4 == x / 16) by (bit_vector);
        x >> 4
    }

    pub fn ext(&self) -> (v: u8)
        requires
            self.0@.len() >= 2,
        ensures
            v == self.0@[1],
    {
        self.0[1]
    }

    pub fn conn_id(&self) -> (v: u16)
        requires
            self.0@.len() >= 4,
        ensures
            v == be16(self.0@, 2),
    {
        read_be16(self.0, 2)
    }

    pub fn tv_usec(&self) -> (v: u32)
        requires
            self.0@.len() >= 8,
        ensures
            v == be32(self.0@, 4),
    {
        read_be32(self.0, 4)
    }

    pub fn reply_micro(&self) -> (v: u32)
        requires
            self.0@.len() >= 12,
        ensures
            v == be32(self.0@, 8),
    {
        read_be32(self.0, 8)
    }

    pub fn window_size(&self) -> (v: u32)
        requires
            self.0@.len() >= 16,
        ensures
            v == be32(self.0@, 12),
    {
        read_be32(self.0, 12)
    }

    pub fn seq_nr(&self) -> (v: u16)
        requires
            self.0@.len() >= 18,
        ensures
            v == be16(self.0@, 16),
    {
        read_be16(self.0, 16)
    }

    pub fn ack_nr(&self) -> (v: u16)
        requires
            self.0@.len() >= HEADER_SIZE,
        ensures
            v == be16(self.0@, 18),
    {
        read_be16(self.0, 18)
    }

    /// Sanity checks that make a buffer look like a v1 packet at all: the
    /// version if the type and the first extension are known ones, else 0.
    pub fn wire_version(&self) -> (v: u8)
        requires
            self.0@.len() >= 2,
        ensures
            v == wire_version_of(self.0@),
    {
        if self.packet_type() < ST_NUM_STATES && self.ext() < 3 {
            self.version()
        } else {
            0
        }
    }
}

/// The version of a buffer that passes for a packet, 0 for any other.
pub open spec fn wire_version_of(b: Seq<u8>) -> u8 {
    if b[0] / 16 < ST_NUM_STATES && b[1] < 3 {
        b[0] % 16
    } else {
        0
    }
}

fn write_be16(b: &mut [u8], at: usize, v: u16)
    requires
        at + 2 <= old(b)@.len(),
    ensures
        final(b)@ == put_be16(old(b)@, at as int, v as int),
{
    b[at] = (v / 256) as u8;
    b[at + 1] = (v % 256) as u8;
}

fn write_be32(b: &mut [u8], at: usize, v: u32)
    requires
        at + 4 <= old(b)@.len(),
    ensures
        final(b)@ == put_be32(old(b)@, at as int, v as int),
{
    b[at] = (v / 0x100_0000) as u8;
    b[at + 1] = (v / 0x1_0000 % 256) as u8;
    b[at + 2] = (v / 256 % 256) as u8;
    b[at + 3] = (v % 256) as u8;
}

/// In-place setters for building outgoing packets whose header lives at the
/// front of a byte buffer.
pub fn set_version_type(b: &mut [u8], version: u8, packet_type: u8)
    requires
        old(b)@.len() >= 1,
    ensures
        final(b)@ == old(b)@.update(0, version_type_byte(version, packet_type)),
{
    assert(((packet_type << 4) | (version & 0xf)) == (packet_type % 16) * 16 + version % 16)
        by (bit_vector);
    b[0] = (packet_type << 4) | (version & 0xf);
}

pub fn set_ext(b: &mut [u8], ext: u8)
    requires
        old(b)@.len() >= 2,
    ensures
        final(b)@ == old(b)@.update(1, ext),
{
    b[1] = ext;
}

pub fn set_conn_id(b: &mut [u8], id: u16)
    requires
        old(b)@.len() >= 4,
    ensures
        final(b)@ == put_be16(old(b)@, 2, id as int),
{
    write_be16(b, 2, id);
}

pub fn set_tv_usec(b: &mut [u8], v: u32)
    requires
        old(b)@.len() >= 8,
    ensures
        final(b)@ == put_be32(old(b)@, 4, v as int),
{
    write_be32(b, 4, v);
}

pub fn set_reply_micro(b: &mut [u8], v: u32)
    requires
        old(b)@.len() >= 12,
    ensures
        final(b)@ == put_be32(old(b)@, 8, v as int),
{
    write_be32(b, 8, v);
}

pub fn set_window_size(b: &mut [u8], v: u32)
    requires
        old(b)@.len() >= 16,
    ensures
        final(b)@ == put_be32(old(b)@, 12, v as int),
{
    write_be32(b, 12, v);
}

pub fn set_seq_nr(b: &mut [u8], v: u16)
    requires
        old(b)@.len() >= 18,
    ensures
        final(b)@ == put_be16(old(b)@, 16, v as int),
{
    write_be16(b, 16, v);
}

pub fn set_ack_nr(b: &mut [u8], v: u16)
    requires
        old(b)@.len() >= HEADER_SIZE,
    ensures
        final(b)@ == put_be16(old(b)@, 18, v as int),
{
    write_be16(b, 18, v);
}

/// A 16-bit field reads back as it was written, and writing it leaves every
/// byte outside the field alone.
pub proof fn lemma_be16_round_trip(b: Seq<u8>, at: int, v: u16)
    requires
        0 <= at,
        at + 2 <= b.len(),
    ensures
        be16(put_be16(b, at, v as int), at) == v,
        put_be16(b, at, v as int).len() == b.len(),
        forall|i: int|
            0 <= i < b.len() && !(at <= i < at + 2) ==> #[trigger] put_be16(b, at, v as int)[i]
                == b[i],
{
}

/// A 32-bit field reads back as it was written, and writing it leaves every
/// byte outside the field alone.
pub proof fn lemma_be32_round_trip(b: Seq<u8>, at: int, v: u32)
    requires
        0 <= at,
        at + 4 <= b.len(),
    ensures
        be32(put_be32(b, at, v as int), at) == v,
        put_be32(b, at, v as int).len() == b.len(),
        forall|i: int|
            0 <= i < b.len() && !(at <= i < at + 4) ==> #[trigger] put_be32(b, at, v as int)[i]
                == b[i],
{
}

/// The type and the version of a header read back as they were written, as
/// long as each fits its four bits; a version 1 header with a known type and
/// a known extension is recognized on the wire.
pub proof fn lemma_version_type_round_trip(b: Seq<u8>, version: u8, packet_type: u8)
    requires
        b.len() >= 2,
        version < 16,
        packet_type < 16,
    ensures
        b.update(0, version_type_byte(version, packet_type))[0] / 16 == packet_type,
        b.update(0, version_type_byte(version, packet_type))[0] % 16 == version,
        wire_version_of(b.update(0, version_type_byte(version, packet_type))) == (if packet_type
            < ST_NUM_STATES && b[1] < 3 {
            version
        } else {
            0
        }),
{
}

} // verus!
