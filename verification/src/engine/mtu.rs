//! MTU discovery: a binary search for the largest packet that gets through.

use vstd::prelude::*;

verus! {

/// The smallest MTU we will search down to. Less would not pass TCP
pub const MTU_FLOOR_MIN: u32 = 576;

/// What fits a UDP datagram on an IPv4 path (Ethernet less the headers of
/// IPv4, UDP, GRE, PPPoE, MPPE and some slack).
pub const UDP_IPV4_MTU: u32 = 1402;

/// What fits a UDP datagram on a Teredo path.
pub const UDP_TEREDO_MTU: u32 = 1232;

pub const UDP_IPV4_OVERHEAD: usize = 28;

pub const UDP_TEREDO_OVERHEAD: usize = 76;

/// The search is repeated after this many milliseconds.
pub const MTU_SEARCH_INTERVAL: u64 = 1_800_000;

#[derive(Clone, Copy, PartialEq, Eq, Structural, Debug)]
pub struct Mtu {
    /// when to search anew
    pub discover_time: u64,
    pub ceiling: u32,
    pub floor: u32,
    /// the size in use; 0 before the first search
    pub last: u32,
    /// the sequence number of the probe under way; 0 if there is none
    pub probe_seq: u32,
    pub probe_size: u32,
}

impl Mtu {
    pub open spec fn wf(self) -> bool {
        &&& MTU_FLOOR_MIN <= self.floor <= self.ceiling <= UDP_IPV4_MTU
        &&& MTU_FLOOR_MIN <= self.last <= UDP_IPV4_MTU
        &&& self.probe_seq != 0 ==> MTU_FLOOR_MIN < self.probe_size <= UDP_IPV4_MTU
    }

    pub open spec fn unset() -> Mtu {
        Mtu { discover_time: 0, ceiling: 0, floor: 0, last: 0, probe_seq: 0, probe_size: 0 }
    }

    /// The whole range up to `udp_mtu` is open again.
    pub open spec fn spec_reset(self, udp_mtu: u32, current_ms: u64) -> Mtu {
        Mtu {
            ceiling: udp_mtu,
            floor: if udp_mtu < MTU_FLOOR_MIN {
                udp_mtu
            } else {
                MTU_FLOOR_MIN
            },
            discover_time: current_ms.wrapping_add(MTU_SEARCH_INTERVAL),
            ..self
        }
    }

    /// The range with a floor that came out above the ceiling repaired: the
    /// floor is the new ceiling, and the search starts again half way down.
    pub open spec fn repaired(self) -> Mtu {
        if self.floor > self.ceiling {
            Mtu {
                ceiling: self.floor,
                floor: if self.floor > MTU_FLOOR_MIN {
                    ((MTU_FLOOR_MIN + self.floor) / 2) as u32
                } else {
                    self.floor
                },
                ..self
            }
        } else {
            self
        }
    }

    /// The next step of the search over a range that is in order.
    pub open spec fn stepped(self, now_ms: u64) -> Mtu {
        if self.ceiling - self.floor <= 16 {
            Mtu {
                last: self.floor,
                ceiling: self.floor,
                probe_seq: 0,
                probe_size: 0,
                discover_time: now_ms.wrapping_add(MTU_SEARCH_INTERVAL),
                ..self
            }
        } else {
            Mtu {
                last: ((self.floor + self.ceiling) / 2) as u32,
                probe_seq: 0,
                probe_size: 0,
                ..self
            }
        }
    }

    pub open spec fn spec_search_update(self, now_ms: u64) -> Mtu {
        self.repaired().stepped(now_ms)
    }

    /// The probe was too large.
    pub open spec fn probe_lost(self, now_ms: u64) -> Mtu {
        (Mtu { ceiling: (self.probe_size - 1) as u32, ..self }).spec_search_update(now_ms)
    }

    /// The probe got through.
    pub open spec fn probe_acked(self, now_ms: u64) -> Mtu {
        (Mtu { floor: self.probe_size, ..self }).spec_search_update(now_ms)
    }

    pub open spec fn no_probe(self) -> Mtu {
        Mtu { probe_seq: 0, probe_size: 0, ..self }
    }

    /// Whether a packet of `len` bytes that goes out as number `seq` can serve
    /// as a probe: it lies within the range, and no probe is under way. (A
    /// probe numbered 0 would look like none.)
    pub open spec fn can_probe(self, len: int, seq: u16) -> bool {
        &&& self.floor < self.ceiling
        &&& self.floor < len <= self.ceiling
        &&& self.probe_seq == 0
        &&& seq != 0
    }

    pub fn reset(&mut self, udp_mtu: u32, current_ms: u64)
        ensures
            *final(self) == old(self).spec_reset(udp_mtu, current_ms),
    {
        self.ceiling = udp_mtu;
        self.floor = MTU_FLOOR_MIN;
        // an interface can report an MTU below the smallest size we would
        // otherwise search down to. Follow it down rather than inverting the
        // range.
        if self.floor > self.ceiling {
            self.floor = self.ceiling;
        }
        self.discover_time = current_ms.wrapping_add(MTU_SEARCH_INTERVAL);
    }

    /// this should be called every time we change floor or ceiling
    pub fn search_update(&mut self, now_ms: u64)
        requires
            old(self).floor <= UDP_IPV4_MTU,
            old(self).ceiling <= UDP_IPV4_MTU,
        ensures
            *final(self) == old(self).spec_search_update(now_ms),
    {
        // the floor can end up above the ceiling; repair the range and search
        // again from half way down rather than from the bottom
        if self.floor > self.ceiling {
            self.ceiling = self.floor;
            self.floor = if self.ceiling > MTU_FLOOR_MIN {
                (MTU_FLOOR_MIN + self.ceiling) / 2
            } else {
                self.ceiling
            };
        }
        // binary search

        self.last = (self.floor + self.ceiling) / 2;

        // enable a new probe to be sent
        self.probe_seq = 0;
        self.probe_size = 0;

        // if the floor and ceiling are close enough, the search is done. We
        // use the floor since that's the only size we know can go through.
        if self.ceiling - self.floor <= 16 {
            self.last = self.floor;
            self.ceiling = self.floor;
            // Do another search in 30 minutes
            self.discover_time = now_ms.wrapping_add(MTU_SEARCH_INTERVAL);
        }
    }

    pub fn on_probe_lost(&mut self, now_ms: u64)
        requires
            old(self).wf(),
            old(self).probe_seq != 0,
        ensures
            *final(self) == old(self).probe_lost(now_ms),
            final(self).wf(),
    {
        self.ceiling = self.probe_size - 1;
        self.search_update(now_ms);
    }

    pub fn on_probe_acked(&mut self, now_ms: u64)
        requires
            old(self).wf(),
            old(self).probe_seq != 0,
        ensures
            *final(self) == old(self).probe_acked(now_ms),
            final(self).wf(),
    {
        self.floor = self.probe_size;
        self.search_update(now_ms);
    }

    pub fn drop_probe(&mut self)
        ensures
            *final(self) == old(self).no_probe(),
    {
        self.probe_seq = 0;
        self.probe_size = 0;
    }
}

/// Whatever becomes of a probe, the search stays within its bounds: the floor
/// below the ceiling, the size in use between the two.
pub proof fn lemma_search_keeps_order(m: Mtu, now_ms: u64)
    requires
        m.wf(),
        m.probe_seq != 0,
    ensures
        m.probe_lost(now_ms).wf(),
        m.probe_acked(now_ms).wf(),
        m.probe_lost(now_ms).floor <= m.probe_lost(now_ms).last <= m.probe_lost(now_ms).ceiling,
        m.probe_acked(now_ms).floor <= m.probe_acked(now_ms).last <= m.probe_acked(
            now_ms,
        ).ceiling,
{
}

/// The search ends: a probe of a size within the range, lost or not, leaves a
/// range that is strictly smaller.
pub proof fn lemma_search_converges(m: Mtu, now_ms: u64)
    requires
        m.wf(),
        m.probe_seq != 0,
        m.floor < m.probe_size <= m.ceiling,
    ensures
        m.probe_lost(now_ms).ceiling - m.probe_lost(now_ms).floor < m.ceiling - m.floor,
        m.probe_acked(now_ms).ceiling - m.probe_acked(now_ms).floor < m.ceiling - m.floor,
        m.probe_lost(now_ms).floor == m.floor,
        m.probe_acked(now_ms).floor == m.probe_size,
{
}

/// A probe that is lost although its size was known to get through shows that
/// the path has become narrower: the search goes on below that size, from half
/// way down.
pub proof fn lemma_crossed_range_is_repaired(m: Mtu, now_ms: u64)
    requires
        m.wf(),
        m.probe_seq != 0,
        m.probe_size <= m.floor,
    ensures
        ({
            let after = m.probe_lost(now_ms);
            let half = (576 + m.floor) / 2;
            &&& after.floor == half
            &&& after.probe_seq == 0
            &&& m.floor - half > 16 ==> after.ceiling == m.floor && after.last == (half + m.floor)
                / 2
            &&& m.floor - half <= 16 ==> after.ceiling == half && after.last == half
        }),
{
}

} // verus!
