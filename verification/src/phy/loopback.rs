//! A loopback device: every transmitted frame is received back in FIFO
//! order, through single-use capability tokens.

use std::collections::VecDeque;

use vstd::prelude::*;

use crate::phy::{DeviceCapabilities, Medium};
use crate::time::Instant;

verus! {

/// A sequence of `n` zero bytes: the blank frame a transmit token hands to
/// its filler.
pub open spec fn zero_frame(n: nat) -> Seq<u8> {
    Seq::new(n, |i: int| 0u8)
}

/// A loopback device.
#[derive(Debug)]
pub struct Loopback {
    queue: VecDeque<Vec<u8>>,
    medium: Medium,
}

/// A single-use capability to read one received frame.
pub struct RxToken {
    buffer: Vec<u8>,
}

/// A single-use capability to compose and commit one frame onto the link.
/// It borrows the device queue for its lifetime; the borrow is exposed so
/// that the contracts of `receive` and `transmit` can tie the device's
/// final frame sequence to what the token commits.
#[derive(Debug)]
pub struct TxToken<'a> {
    pub queue: &'a mut VecDeque<Vec<u8>>,
}

impl Loopback {
    /// The frames in flight, oldest first.
    pub closed spec fn frames(self) -> Seq<Seq<u8>> {
        Seq::new(self.queue@.len(), |i: int| self.queue@[i]@)
    }

    /// The link-layer family this device reports.
    pub closed spec fn spec_medium(self) -> Medium {
        self.medium
    }

    /// Creates a loopback device.
    ///
    /// Every packet transmitted through this device will be received through it
    /// in FIFO order.
    pub fn new(medium: Medium) -> (r: Loopback)
        ensures
            r.frames() == Seq::<Seq<u8>>::empty(),
            r.spec_medium() == medium,
    {
        let r = Loopback { queue: VecDeque::new(), medium };
        proof {
            assert(r.frames() =~= Seq::<Seq<u8>>::empty());
        }
        r
    }

    /// The device description: its medium, and a maximum transmission unit
    /// of 65535 bytes.
    pub fn capabilities(&self) -> (r: DeviceCapabilities)
        ensures
            r.medium == self.spec_medium(),
            r.max_transmission_unit == 65535,
    {
        DeviceCapabilities { medium: self.medium, max_transmission_unit: 65535 }
    }

    /// If a frame is in flight, yield a receive token holding it together
    /// with a paired transmit token, so a reply needs no second poll; else
    /// yield nothing.
    pub fn receive(&mut self, timestamp: Instant) -> (r: Option<(RxToken, TxToken<'_>)>)
        ensures
            old(self).frames().len() == 0 ==> r is None && final(self).frames() == old(
                self,
            ).frames() && final(self).spec_medium() == old(self).spec_medium(),
            old(self).frames().len() > 0 ==> r is Some,
            r matches Some(pair) ==> {
                &&& old(self).frames().len() > 0
                &&& pair.0.frame() == old(self).frames()[0]
                &&& pair.1.queue_at_grant() == old(self).frames().skip(1)
                &&& final(self).frames() == Seq::new(
                    (*final (pair.1.queue))@.len(),
                    |i: int| (*final (pair.1.queue))@[i]@,
                )
                &&& final(self).spec_medium() == old(self).spec_medium()
            },
    {
        let ghost pre = *self;
        match self.queue.pop_front() {
            None => {
                proof {
                    assert(self.frames() =~= pre.frames());
                }
                None
            },
            Some(buffer) => {
                proof {
                    assert(Seq::new(self.queue@.len(), |i: int| self.queue@[i]@)
                        =~= pre.frames().skip(1));
                }
                let rx = RxToken { buffer };
                let tx = TxToken { queue: &mut self.queue };
                Some((rx, tx))
            },
        }
    }

    /// Yield a token for one transmission; the loopback link is never
    /// backpressured.
    pub fn transmit(&mut self, timestamp: Instant) -> (r: Option<TxToken<'_>>)
        ensures
            r is Some,
            r matches Some(t) ==> {
                &&& t.queue_at_grant() == old(self).frames()
                &&& final(self).frames() == Seq::new(
                    (*final (t.queue))@.len(),
                    |i: int| (*final (t.queue))@[i]@,
                )
                &&& final(self).spec_medium() == old(self).spec_medium()
            },
    {
        Some(TxToken { queue: &mut self.queue })
    }
}

impl RxToken {
    /// The received frame this token holds.
    pub closed spec fn frame(self) -> Seq<u8> {
        self.buffer@
    }

    /// Invoke `f` once on a mutable view of the received bytes and forward
    /// its result. Consuming the token uses it up.
    pub fn consume<R, F: FnOnce(&mut [u8]) -> R>(self, f: F) -> (r: R)
        requires
            forall|s: &mut [u8]| (*s)@ == self.frame() ==> call_requires(f, (s,)),
        ensures
            exists|s: &mut [u8]| (*s)@ == self.frame() && #[trigger] call_ensures(f, (s,), r),
    {
        let RxToken { mut buffer } = self;
        let sl = buffer.as_mut_slice();
        f(sl)
    }
}

impl<'a> TxToken<'a> {
    /// The frames in flight when this token was granted. This is open over
    /// the exposed queue borrow, so that a caller who drops the token
    /// unconsumed (a no-op on the link) can still conclude what the device
    /// holds once the borrow resolves.
    pub open spec fn queue_at_grant(self) -> Seq<Seq<u8>> {
        Seq::new((*self.queue)@.len(), |i: int| (*self.queue)@[i]@)
    }

    /// Reserve a `len`-byte zeroed buffer, invoke `f` on it once for
    /// in-place framing, commit the buffer to the link, and forward `f`'s
    /// result. The length must stay within the device's maximum
    /// transmission unit; more is a programmer error, which the contract
    /// excludes. `f` must leave the frame length alone.
    pub fn consume<R, F: FnOnce(&mut [u8]) -> R>(self, len: usize, f: F) -> (r: R)
        requires
            len <= 65535,
            forall|s: &mut [u8]| (*s)@ == zero_frame(len as nat) ==> call_requires(f, (s,)),
            forall|s: &mut [u8], out: R|
                ((*s)@ == zero_frame(len as nat) && call_ensures(f, (s,), out))
                    ==> (*final(s))@.len() == len,
        ensures
            exists|s: &mut [u8]|
                {
                    &&& (*s)@ == zero_frame(len as nat)
                    &&& #[trigger] call_ensures(f, (s,), r)
                    &&& Seq::new(
                        (*final (self.queue))@.len(),
                        |i: int| (*final (self.queue))@[i]@,
                    ) == self.queue_at_grant().push((*final(s))@)
                },
    {
        let TxToken { queue } = self;
        let mut buffer: Vec<u8> = Vec::new();
        let mut i: usize = 0;
        while i < len
            invariant
                i <= len,
                buffer@ == zero_frame(i as nat),
            decreases len - i,
        {
            buffer.push(0);
            proof {
                assert(buffer@ =~= zero_frame((i + 1) as nat));
            }
            i += 1;
        }
        let ghost grant = (*queue)@;
        let sl = buffer.as_mut_slice();
        let r = f(sl);
        proof {
            assert(buffer@ == (*final (sl))@);
        }
        let ghost pushed = buffer@;
        queue.push_back(buffer);
        proof {
            assert((*final (queue))@ == grant.push(buffer));
            assert(Seq::new((*final (queue))@.len(), |i: int| (*final (queue))@[i]@) =~= Seq::new(
                grant.len(),
                |i: int| grant[i]@,
            ).push(pushed));
        }
        r
    }
}

} // verus!
