//! Socket addresses as plain values.
use vstd::prelude::*;

verus! {

/// The address of a UDP endpoint. The IP address is the number that its octets make, the first
/// octet being the most significant.
#[allow(inconsistent_fields)]
#[derive(Clone, Copy, Debug, PartialEq, Eq, Structural)]
pub enum PeerAddr {
    V4 { ip: u32, port: u16 },
    V6 { ip: u128, port: u16, flowinfo: u32, scope_id: u32 },
}

/// An IP address without a port.
#[allow(inconsistent_fields)]
#[derive(Clone, Copy, Debug, PartialEq, Eq, Structural)]
pub enum PeerIp {
    V4 { ip: u32 },
    V6 { ip: u128 },
}

impl PeerAddr {
    pub open spec fn spec_port(self) -> u16 {
        match self {
            PeerAddr::V4 { port, .. } => port,
            PeerAddr::V6 { port, .. } => port,
        }
    }

    pub open spec fn spec_is_unspecified(self) -> bool {
        match self {
            PeerAddr::V4 { ip, .. } => ip == 0,
            PeerAddr::V6 { ip, .. } => ip == 0,
        }
    }

    /// The port.
    pub fn port(&self) -> (port: u16)
        ensures
            port == self.spec_port(),
    {
        match self {
            PeerAddr::V4 { port, .. } => *port,
            PeerAddr::V6 { port, .. } => *port,
        }
    }

    /// Whether the IP address is the wildcard address, `0.0.0.0` or `::`.
    pub fn is_unspecified(&self) -> (b: bool)
        ensures
            b == self.spec_is_unspecified(),
    {
        match self {
            PeerAddr::V4 { ip, .. } => *ip == 0,
            PeerAddr::V6 { ip, .. } => *ip == 0,
        }
    }

    pub open spec fn spec_new(ip: PeerIp, port: u16) -> PeerAddr {
        match ip {
            PeerIp::V4 { ip } => PeerAddr::V4 { ip, port },
            PeerIp::V6 { ip } => PeerAddr::V6 { ip, port, flowinfo: 0, scope_id: 0 },
        }
    }

    /// The endpoint at a port of an IP address; an IPv6 endpoint has flow info and scope id zero.
    pub fn new(ip: PeerIp, port: u16) -> (addr: PeerAddr)
        ensures
            addr == PeerAddr::spec_new(ip, port),
    {
        match ip {
            PeerIp::V4 { ip } => PeerAddr::V4 { ip, port },
            PeerIp::V6 { ip } => PeerAddr::V6 { ip, port, flowinfo: 0, scope_id: 0 },
        }
    }
}

/// The address that a node bound to `local` tells others, where `routable` is the IP address from
/// which it reaches them, if that is known: the bound address, unless that is the wildcard.
pub open spec fn spec_reachable_addr(local: PeerAddr, routable: Option<PeerIp>) -> Option<PeerAddr> {
    if local.spec_is_unspecified() {
        match routable {
            Some(ip) => Some(PeerAddr::spec_new(ip, local.spec_port())),
            None => None,
        }
    } else {
        Some(local)
    }
}

/// The address that a node bound to `local` tells others. A socket bound to the wildcard address
/// is reached at the routable IP address, and has none to tell where that is not known.
pub fn reachable_addr(local: PeerAddr, routable: Option<PeerIp>) -> (addr: Option<PeerAddr>)
    ensures
        addr == spec_reachable_addr(local, routable),
{
    if local.is_unspecified() {
        match routable {
            Some(ip) => Some(PeerAddr::new(ip, local.port())),
            None => None,
        }
    } else {
        Some(local)
    }
}

/// A node bound to an address of its own tells that one; one bound to the wildcard tells the port
/// that it is bound to at the routable IP address, and nothing if that is not known.
pub proof fn law_told_address_is_reachable(
    own: u32,
    own6: u128,
    port: u16,
    flowinfo: u32,
    scope_id: u32,
    ip: u32,
    ip6: u128,
    routable: Option<PeerIp>,
)
    ensures
        ({
            let local = PeerAddr::V4 { ip: own, port };
            let local6 = PeerAddr::V6 { ip: own6, port, flowinfo, scope_id };
            let v4 = Some(PeerIp::V4 { ip });
            let v6 = Some(PeerIp::V6 { ip: ip6 });
            let there = Some(PeerAddr::V4 { ip, port });
            let there6 = Some(PeerAddr::V6 { ip: ip6, port, flowinfo: 0, scope_id: 0 });
            &&& own != 0 ==> spec_reachable_addr(local, routable) == Some(local)
            &&& own6 != 0 ==> spec_reachable_addr(local6, routable) == Some(local6)
            &&& own == 0 ==> spec_reachable_addr(local, None) is None && spec_reachable_addr(
                local,
                v4,
            ) == there && spec_reachable_addr(local, v6) == there6
            &&& own6 == 0 ==> spec_reachable_addr(local6, None) is None && spec_reachable_addr(
                local6,
                v4,
            ) == there && spec_reachable_addr(local6, v6) == there6
        }),
{
}

/// The IP address of an endpoint.
pub open spec fn spec_ip(addr: PeerAddr) -> PeerIp {
    match addr {
        PeerAddr::V4 { ip, .. } => PeerIp::V4 { ip },
        PeerAddr::V6 { ip, .. } => PeerIp::V6 { ip },
    }
}

/// The local endpoint to which a port mapping of the gateway is to lead: the address that others in
/// the local network reach us at, as far as it is known.
pub fn mapping_addr(local: PeerAddr, routable: Option<PeerIp>) -> (addr: PeerAddr)
    ensures
        addr == match spec_reachable_addr(local, routable) {
            Some(addr) => addr,
            None => PeerAddr::spec_new(spec_ip(local), local.spec_port()),
        },
{
    match reachable_addr(local, routable) {
        Some(addr) => addr,
        None => {
            let ip = match local {
                PeerAddr::V4 { ip, .. } => PeerIp::V4 { ip },
                PeerAddr::V6 { ip, .. } => PeerIp::V6 { ip },
            };
            PeerAddr::new(ip, local.port())
        },
    }
}

} // verus!
