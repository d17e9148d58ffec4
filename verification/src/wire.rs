//! Wire formats: byte-exact views and parsed representations.

pub mod ipv6ext_header;

use vstd::prelude::*;

verus! {

/// Opaque wire-format failure: a buffer too short, or a length field
/// inconsistent with the buffer size.
#[derive(Debug, Clone, Copy, PartialEq, Eq, Structural)]
pub struct Error;

/// The protocol carried after an IP (or extension) header, as in the IANA
/// protocol number registry.
#[derive(Debug, Clone, Copy, PartialEq, Eq, Structural)]
pub enum IpProtocol {
    HopByHop,
    Icmp,
    Igmp,
    Tcp,
    Udp,
    Ipv6Route,
    Ipv6Frag,
    Icmpv6,
    Ipv6NoNxt,
    Ipv6Opts,
    Unknown(u8),
}

/// The protocol a wire byte denotes.
pub open spec fn protocol_of(b: u8) -> IpProtocol {
    if b == 0 {
        IpProtocol::HopByHop
    } else if b == 1 {
        IpProtocol::Icmp
    } else if b == 2 {
        IpProtocol::Igmp
    } else if b == 6 {
        IpProtocol::Tcp
    } else if b == 17 {
        IpProtocol::Udp
    } else if b == 43 {
        IpProtocol::Ipv6Route
    } else if b == 44 {
        IpProtocol::Ipv6Frag
    } else if b == 58 {
        IpProtocol::Icmpv6
    } else if b == 59 {
        IpProtocol::Ipv6NoNxt
    } else if b == 60 {
        IpProtocol::Ipv6Opts
    } else {
        IpProtocol::Unknown(b)
    }
}

/// The wire byte that denotes a protocol.
pub open spec fn byte_of(p: IpProtocol) -> u8 {
    match p {
        IpProtocol::HopByHop => 0,
        IpProtocol::Icmp => 1,
        IpProtocol::Igmp => 2,
        IpProtocol::Tcp => 6,
        IpProtocol::Udp => 17,
        IpProtocol::Ipv6Route => 43,
        IpProtocol::Ipv6Frag => 44,
        IpProtocol::Icmpv6 => 58,
        IpProtocol::Ipv6NoNxt => 59,
        IpProtocol::Ipv6Opts => 60,
        IpProtocol::Unknown(b) => b,
    }
}

impl IpProtocol {
    /// Decode a wire byte.
    pub fn from_byte(b: u8) -> (r: IpProtocol)
        ensures
            r == protocol_of(b),
    {
        if b == 0 {
            IpProtocol::HopByHop
        } else if b == 1 {
            IpProtocol::Icmp
        } else if b == 2 {
            IpProtocol::Igmp
        } else if b == 6 {
            IpProtocol::Tcp
        } else if b == 17 {
            IpProtocol::Udp
        } else if b == 43 {
            IpProtocol::Ipv6Route
        } else if b == 44 {
            IpProtocol::Ipv6Frag
        } else if b == 58 {
            IpProtocol::Icmpv6
        } else if b == 59 {
            IpProtocol::Ipv6NoNxt
        } else if b == 60 {
            IpProtocol::Ipv6Opts
        } else {
            IpProtocol::Unknown(b)
        }
    }

    /// Encode to the wire byte.
    pub fn to_byte(self) -> (r: u8)
        ensures
            r == byte_of(self),
    {
        match self {
            IpProtocol::HopByHop => 0,
            IpProtocol::Icmp => 1,
            IpProtocol::Igmp => 2,
            IpProtocol::Tcp => 6,
            IpProtocol::Udp => 17,
            IpProtocol::Ipv6Route => 43,
            IpProtocol::Ipv6Frag => 44,
            IpProtocol::Icmpv6 => 58,
            IpProtocol::Ipv6NoNxt => 59,
            IpProtocol::Ipv6Opts => 60,
            IpProtocol::Unknown(b) => b,
        }
    }
}

/// Decoding the byte a protocol encodes to yields that protocol again,
/// as long as the protocol is in canonical form: an `Unknown` value never
/// holds a byte that has a name of its own.
pub proof fn lemma_protocol_byte_round_trip(p: IpProtocol)
    requires
        p matches IpProtocol::Unknown(b) ==> protocol_of(b) == p,
    ensures
        protocol_of(byte_of(p)) == p,
{
}

} // verus!
