//! In-stack buffering: the ring buffer and its error types.

pub mod ring_buffer;

use vstd::prelude::*;

verus! {

/// Error returned when a single-element dequeue finds the buffer empty.
#[derive(Debug, Clone, Copy, PartialEq, Eq, Structural)]
pub struct Empty;

/// Error returned when a single-element enqueue finds the buffer full.
#[derive(Debug, Clone, Copy, PartialEq, Eq, Structural)]
pub struct Full;

/// An element type that can be returned to a domain-defined zero state.
pub trait Resettable {
    /// Whether this value is in its zero state.
    spec fn is_reset(&self) -> bool;

    /// Return this value to its zero state.
    fn reset(&mut self)
        ensures
            final(self).is_reset(),
    ;
}

} // verus!
