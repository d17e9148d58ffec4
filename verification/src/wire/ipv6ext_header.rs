//! The IPv6 extension-header codec: an unchecked view over a byte buffer
//! with an explicit length check, and a parsed representation with
//! `parse`/`emit` symmetry.

use vstd::prelude::*;

use crate::wire::{byte_of, protocol_of, Error, IpProtocol};

verus! {

/// The smallest buffer any extension header fits in.
pub const MIN_HEADER_SIZE: usize = 8;

/// Offset of the next-header field.
pub const NXT_HDR: usize = 0;

/// Offset of the header-length field.
pub const LENGTH: usize = 1;

/// Whether a buffer is long enough for every accessor: at least the fixed
/// eight octets, and at least what its own length field announces.
pub open spec fn spec_len_ok(b: Seq<u8>) -> bool {
    &&& b.len() >= 8
    &&& b.len() >= 8 * (b[1] as int) + 8
}

/// The payload the length field delimits: everything between the two fixed
/// option bytes and the announced end.
pub open spec fn spec_payload(b: Seq<u8>) -> Seq<u8> {
    b.subrange(2, 8 * (b[1] as int) + 8)
}

/// The option area delimited by a length field value: byte 2 up to the
/// announced end of the header.
#[allow(non_snake_case)]
pub fn PAYLOAD(length_field: u8) -> (r: (usize, usize))
    ensures
        r.0 == 2,
        r.1 == 8 * (length_field as int) + 8,
{
    let bytes = length_field as usize * 8 + 8;
    (2, bytes)
}

/// A read/write wrapper around an IPv6 Extension Header buffer.
#[derive(Debug)]
pub struct Header {
    buffer: Vec<u8>,
}

impl Header {
    /// The bytes behind the view.
    pub closed spec fn buf(self) -> Seq<u8> {
        self.buffer@
    }

    /// Whether every accessor of this view is in bounds.
    pub open spec fn len_ok(self) -> bool {
        spec_len_ok(self.buf())
    }

    /// Create a raw octet buffer with an IPv6 Extension Header structure.
    pub fn new_unchecked(buffer: Vec<u8>) -> (r: Self)
        ensures
            r.buf() == buffer@,
    {
        Header { buffer }
    }

    /// Shorthand for a combination of [new_unchecked] and [check_len].
    ///
    /// [new_unchecked]: #method.new_unchecked
    /// [check_len]: #method.check_len
    pub fn new_checked(buffer: Vec<u8>) -> (r: Result<Self, Error>)
        ensures
            r is Ok <==> spec_len_ok(buffer@),
            r matches Ok(h) ==> h.buf() == buffer@,
    {
        let header = Self::new_unchecked(buffer);
        match header.check_len() {
            Ok(()) => Ok(header),
            Err(e) => Err(e),
        }
    }

    /// Ensure that no accessor method will panic if called.
    /// Returns `Err(Error)` exactly when the buffer is shorter than the
    /// fixed eight octets or shorter than its length field announces.
    ///
    /// The result of this check is invalidated by calling [set_header_len].
    ///
    /// [set_header_len]: #method.set_header_len
    pub fn check_len(&self) -> (r: Result<(), Error>)
        ensures
            r is Ok <==> self.len_ok(),
    {
        let len = self.buffer.len();
        if len < MIN_HEADER_SIZE {
            return Err(Error);
        }
        let length_field = self.buffer[LENGTH];
        let end = length_field as usize * 8 + 8;
        if len < end {
            return Err(Error);
        }
        Ok(())
    }

    /// Consume the header, returning the underlying buffer.
    pub fn into_inner(self) -> (r: Vec<u8>)
        ensures
            r@ == self.buf(),
    {
        self.buffer
    }

    /// Return the next header field.
    pub fn next_header(&self) -> (r: IpProtocol)
        requires
            self.buf().len() >= 1,
        ensures
            r == protocol_of(self.buf()[0]),
    {
        IpProtocol::from_byte(self.buffer[NXT_HDR])
    }

    /// Return the header length field: the length in 8-octet units, not
    /// counting the first 8 octets.
    pub fn header_len(&self) -> (r: u8)
        requires
            self.buf().len() >= 2,
        ensures
            r == self.buf()[1],
    {
        self.buffer[LENGTH]
    }

    /// Return the payload of the IPv6 extension header.
    pub fn payload(&self) -> (r: &[u8])
        requires
            self.len_ok(),
        ensures
            r@ == spec_payload(self.buf()),
    {
        let length_field = self.buffer[LENGTH];
        let end = length_field as usize * 8 + 8;
        vstd::slice::slice_subrange(self.buffer.as_slice(), 2, end)
    }

    /// Set the next header field.
    pub fn set_next_header(&mut self, value: IpProtocol)
        requires
            old(self).buf().len() >= 1,
        ensures
            final(self).buf() == old(self).buf().update(0, byte_of(value)),
    {
        let b = value.to_byte();
        let e = &mut self.buffer[NXT_HDR];
        *e = b;
    }

    /// Set the extension header data length. The length of the header is
    /// in 8-octet units, not including the first 8 octets.
    pub fn set_header_len(&mut self, value: u8)
        requires
            old(self).buf().len() >= 2,
        ensures
            final(self).buf() == old(self).buf().update(1, value),
    {
        let e = &mut self.buffer[LENGTH];
        *e = value;
    }

    /// Return a mutable pointer to the payload data.
    pub fn payload_mut(&mut self) -> (r: &mut [u8])
        requires
            old(self).len_ok(),
        ensures
            (*r)@ == spec_payload(old(self).buf()),
            final(self).buf() == old(self).buf().subrange(0, 2) + (*final(r))@ + old(
                self,
            ).buf().subrange(8 * (old(self).buf()[1] as int) + 8, old(self).buf().len() as int),
    {
        let length_field = self.buffer[LENGTH];
        let end = length_field as usize * 8 + 8;
        crate::storage::ring_buffer::subslice_mut(&mut self.buffer, 2, end)
    }
}

/// A high-level representation of an IPv6 extension header.
#[derive(Debug, Clone, Copy)]
pub struct Repr<'a> {
    pub next_header: IpProtocol,
    pub length: u8,
    pub data: &'a [u8],
}

impl<'a> Repr<'a> {
    /// Parse an IPv6 Extension Header and return a high-level
    /// representation.
    pub fn parse(header: &'a Header) -> (r: Result<Self, Error>)
        requires
            header.len_ok(),
        ensures
            r is Ok,
            r matches Ok(repr) ==> repr.next_header == protocol_of(header.buf()[0])
                && repr.length == header.buf()[1] && repr.data@ == spec_payload(header.buf()),
    {
        Ok(
            Self {
                next_header: header.next_header(),
                length: header.header_len(),
                data: header.payload(),
            },
        )
    }

    /// Return the length, in bytes, of the fixed prefix a header emitted
    /// from this high-level representation starts with.
    pub fn header_len(&self) -> (r: usize)
        ensures
            r == 2,
    {
        2
    }

    /// Emit a high-level representation into an IPv6 Extension Header.
    ///
    /// Only the two fixed bytes are written; the payload bytes are the
    /// caller's responsibility, because they typically come from option
    /// encoders layered above.
    pub fn emit(&self, header: &mut Header)
        requires
            old(header).buf().len() >= 2,
        ensures
            final(header).buf() == old(header).buf().update(0, byte_of(self.next_header)).update(
                1,
                self.length,
            ),
    {
        header.set_next_header(self.next_header);
        header.set_header_len(self.length);
    }
}

/// Emit then parse recovers the representation, modulo the payload, which
/// parse reborrows from the buffer: writing a representation's two fixed
/// bytes into a buffer long enough for its announced payload makes the
/// buffer check out, and parsing it back yields the same next-header and
/// length, and a payload of exactly `8 * length + 6` bytes. The next-header
/// value must be in canonical form: an `Unknown` that mirrors a named
/// protocol code decodes to the named protocol instead.
pub proof fn lemma_emit_parse_round_trip(nh: IpProtocol, length: u8, b0: Seq<u8>, b1: Seq<u8>)
    requires
        b0.len() >= 8 * (length as int) + 8,
        b1 == b0.update(0, byte_of(nh)).update(1, length),
        nh matches IpProtocol::Unknown(x) ==> protocol_of(x) == nh,
    ensures
        spec_len_ok(b1),
        protocol_of(b1[0]) == nh,
        b1[1] == length,
        spec_payload(b1).len() == 8 * (length as int) + 6,
{
    crate::wire::lemma_protocol_byte_round_trip(nh);
}

} // verus!
