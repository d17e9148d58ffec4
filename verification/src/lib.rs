//! Core data-plane pieces of a small userspace network stack: a bounded
//! ring buffer over caller-provided storage, a token-based packet device
//! contract with a loopback reference device, and an IPv6 extension-header
//! wire codec.

pub mod phy;
pub mod storage;
pub mod time;
pub mod wire;
