//! The packet device contract: link description and capability tokens.

pub mod loopback;

use vstd::prelude::*;

verus! {

/// The link-layer family a device speaks, which controls framing.
#[derive(Debug, Clone, Copy, PartialEq, Eq, Structural)]
pub enum Medium {
    Ethernet,
    Ip,
    Ieee802154,
}

/// The immutable per-device description: its medium and the byte cap on a
/// single frame.
#[derive(Debug, Clone, Copy)]
pub struct DeviceCapabilities {
    pub medium: Medium,
    pub max_transmission_unit: usize,
}

} // verus!
