//! The extension headers of a packet.

use crate::engine::eack::MAX_MASK;
use crate::packet::HEADER_SIZE;
use vstd::prelude::*;

verus! {

/// Selective acks
pub const EXT_SELACK: u8 = 1;

/// Extension bits
pub const EXT_BITS: u8 = 2;

/// What the extension headers of a packet come to.
pub struct Exts {
    /// where the payload starts; `None` if the headers are broken
    pub end: Option<int>,
    /// the mask of the last selective ack
    pub selack: Option<Seq<u8>>,
    /// the last extension bits
    pub bits: Seq<u8>,
}

/// The extension headers from offset `at` on, the first of which is of type
/// `ext` (0 if there is none), after headers that said `selack` and `bits`.
/// Each header gives the type of the next one and its own length, and then its
/// contents.
pub open spec fn exts_from(
    buf: Seq<u8>,
    at: int,
    ext: u8,
    selack: Option<Seq<u8>>,
    bits: Seq<u8>,
) -> Exts
    decreases buf.len() - at,
{
    let start = at + 2;
    if ext == 0 {
        Exts { end: Some(at), selack, bits }
    } else if start > buf.len() || buf.len() - start < buf[start - 1] {
        Exts { end: None, selack, bits }
    } else {
        let len = buf[start - 1] as int;
        let body = buf.subrange(start, start + len);
        if ext == EXT_BITS && len != 8 {
            Exts { end: None, selack, bits }
        } else {
            exts_from(
                buf,
                start + len,
                buf[start - 2],
                if ext == EXT_SELACK {
                    Some(body)
                } else {
                    selack
                },
                if ext == EXT_BITS {
                    body
                } else {
                    bits
                },
            )
        }
    }
}

/// The extension headers of the packet `buf`, for a socket whose peer has told
/// of the extension bits `bits` before.
pub open spec fn exts_of(buf: Seq<u8>, bits: Seq<u8>) -> Exts {
    exts_from(buf, HEADER_SIZE as int, buf[1], None, bits)
}

pub proof fn lemma_exts_from(
    buf: Seq<u8>,
    at: int,
    ext: u8,
    selack: Option<Seq<u8>>,
    bits: Seq<u8>,
)
    requires
        0 <= at <= buf.len(),
        bits.len() == 8,
        selack is Some ==> selack->0.len() <= MAX_MASK,
    ensures
        ({
            let e = exts_from(buf, at, ext, selack, bits);
            &&& e.end is Some ==> at <= e.end->0 <= buf.len()
            &&& e.bits.len() == 8
            &&& e.selack is Some ==> e.selack->0.len() <= MAX_MASK
        }),
    decreases buf.len() - at,
{
    let start = at + 2;
    if ext == 0 || start > buf.len() || buf.len() - start < buf[start - 1] {
    } else {
        let len = buf[start - 1] as int;
        let body = buf.subrange(start, start + len);
        if !(ext == EXT_BITS && len != 8) {
            lemma_exts_from(
                buf,
                start + len,
                buf[start - 2],
                if ext == EXT_SELACK {
                    Some(body)
                } else {
                    selack
                },
                if ext == EXT_BITS {
                    body
                } else {
                    bits
                },
            );
        }
    }
}

/// What the packet `buf` carries behind its headers; nothing at all if these
/// are broken.
pub open spec fn payload_of(buf: Seq<u8>) -> Option<Seq<u8>> {
    match exts_of(buf, Seq::empty()).end {
        Some(start) => Some(buf.skip(start)),
        None => None,
    }
}

/// Where the extension headers end does not depend on what was told before.
pub proof fn lemma_end_fixed(
    buf: Seq<u8>,
    at: int,
    ext: u8,
    a: Option<Seq<u8>>,
    b: Option<Seq<u8>>,
    c: Seq<u8>,
    d: Seq<u8>,
)
    ensures
        exts_from(buf, at, ext, a, c).end == exts_from(buf, at, ext, b, d).end,
    decreases buf.len() - at,
{
    let start = at + 2;
    if ext == 0 || start > buf.len() || buf.len() - start < buf[start - 1] {
    } else {
        let len = buf[start - 1] as int;
        let body = buf.subrange(start, start + len);
        let (a, b) = if ext == EXT_SELACK {
            (Some(body), Some(body))
        } else {
            (a, b)
        };
        let (c, d) = if ext == EXT_BITS {
            (body, body)
        } else {
            (c, d)
        };
        lemma_end_fixed(buf, start + len, buf[start - 2], a, b, c, d);
    }
}

fn copy_8(buf: &[u8], at: usize) -> (r: [u8; 8])
    requires
        at + 8 <= buf@.len(),
    ensures
        r@ == buf@.subrange(at as int, at + 8),
{
    let r: [u8; 8] = [
        buf[at],
        buf[at + 1],
        buf[at + 2],
        buf[at + 3],
        buf[at + 4],
        buf[at + 5],
        buf[at + 6],
        buf[at + 7],
    ];
    assert(r@ =~= buf@.subrange(at as int, at + 8));
    r
}

/// Walks over the extension headers of the packet `buf`, and takes note of
/// extension bits. Returns where the payload starts, unless the headers are
/// broken, and where the mask of the last selective ack is.
pub fn parse_extensions(buf: &[u8], bits: &mut [u8; 8]) -> (r: Option<(
    usize,
    Option<(usize, usize)>,
)>)
    requires
        buf@.len() >= HEADER_SIZE,
    ensures
        ({
            let e = exts_of(buf@, old(bits)@);
            &&& final(bits)@ == e.bits
            &&& match r {
                None => e.end is None,
                Some((end, selack)) => {
                    &&& e.end == Some(end as int)
                    &&& HEADER_SIZE <= end <= buf@.len()
                    &&& match selack {
                        None => e.selack is None,
                        Some((off, len)) => {
                            &&& off + len <= buf@.len()
                            &&& len <= MAX_MASK
                            &&& e.selack == Some(buf@.subrange(off as int, off + len))
                        },
                    }
                },
            }
        }),
{
    let ghost whole = exts_of(buf@, bits@);
    let mut selack: Option<(usize, usize)> = None;
    let ghost mut mask: Option<Seq<u8>> = None;
    let mut at: usize = HEADER_SIZE;
    let mut ext: u8 = buf[1];
    while ext != 0
        invariant
            HEADER_SIZE <= at <= buf@.len(),
            whole == exts_of(buf@, old(bits)@),
            whole == exts_from(buf@, at as int, ext, mask, bits@),
            match selack {
                None => mask is None,
                Some((off, len)) => {
                    &&& off + len <= buf@.len()
                    &&& len <= MAX_MASK
                    &&& mask == Some(buf@.subrange(off as int, off + len))
                },
            },
        decreases buf@.len() - at,
    {
        // Verify that the packet is valid.
        if buf.len() - at < 2 {
            return None;
        }
        let start: usize = at + 2;
        let len: usize = buf[start - 1] as usize;
        if buf.len() - start < len {
            return None;
        }
        if ext == EXT_SELACK {
            // Selective Acknowledgment
            selack = Some((start, len));
            proof {
                mask = Some(buf@.subrange(start as int, start + len));
            }
        } else if ext == EXT_BITS {
            // extension bits
            if len != 8 {
                return None;
            }
            *bits = copy_8(buf, start);
        }
        ext = buf[start - 2];
        at = start + len;
    }
    Some((at, selack))
}

} // verus!
