//! Addresses of peers, as plain values.

use vstd::prelude::*;

verus! {

/// An IP address with a port.
#[derive(Clone, Copy, PartialEq, Eq, Structural, Hash, Debug)]
#[allow(inconsistent_fields)]
pub enum SocketAddr {
    V4 { ip: u32, port: u16 },
    V6 { ip: u128, port: u16, flowinfo: u32, scope_id: u32 },
}

impl SocketAddr {
    pub open spec fn spec_port(self) -> u16 {
        match self {
            SocketAddr::V4 { ip, port } => port,
            SocketAddr::V6 { ip, port, flowinfo, scope_id } => port,
        }
    }

    pub fn port(&self) -> (r: u16)
        ensures
            r == self.spec_port(),
    {
        match self {
            SocketAddr::V4 { ip: _, port } => *port,
            SocketAddr::V6 { ip: _, port, flowinfo: _, scope_id: _ } => *port,
        }
    }

    pub fn is_ipv6(&self) -> (r: bool)
        ensures
            r == (*self is V6),
    {
        match self {
            SocketAddr::V4 { .. } => false,
            SocketAddr::V6 { .. } => true,
        }
    }
}

} // verus!
