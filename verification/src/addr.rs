//! Plain-value model of an IPv4 address: four octets. The logic of this
//! crate only ever reads the octets (loopback filtering, equality), so the
//! address is held as data rather than as an operating-system address type.

use vstd::prelude::*;

verus! {

/// An IPv4 address as its four dotted-quad octets.
#[derive(Clone, Copy, PartialEq, Eq, Structural, Debug, Hash)]
pub struct Ipv4 {
    pub a: u8,
    pub b: u8,
    pub c: u8,
    pub d: u8,
}

impl Ipv4 {
    pub fn new(a: u8, b: u8, c: u8, d: u8) -> (r: Ipv4)
        ensures
            r == (Ipv4 { a, b, c, d }),
    {
        Ipv4 { a, b, c, d }
    }

    /// A loopback address (`127.0.0.0/8`) never reaches a gateway, so the
    /// interface enumeration filters these out.
    pub open spec fn is_loopback(self) -> bool {
        self.a == 127
    }

    pub fn loopback(&self) -> (r: bool)
        ensures
            r == self.is_loopback(),
    {
        self.a == 127
    }
}

/// The address a located gateway answers on: its IPv4 address and port.
#[derive(Clone, Copy, PartialEq, Eq, Structural, Debug)]
pub struct GatewayAddr {
    pub ip: Ipv4,
    pub port: u16,
}

impl GatewayAddr {
    pub fn new(ip: Ipv4, port: u16) -> (r: GatewayAddr)
        ensures
            r == (GatewayAddr { ip, port }),
    {
        GatewayAddr { ip, port }
    }
}

} // verus!
