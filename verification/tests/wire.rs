use smolstack::wire::ipv6ext_header::{Header, Repr};
use smolstack::wire::{Error, IpProtocol};

// A Hop-by-Hop Option header with a PadN option of option data length 4.
static REPR_PACKET_PAD4: [u8; 8] = [0x6, 0x0, 0x1, 0x4, 0x0, 0x0, 0x0, 0x0];

// A Hop-by-Hop Option header with a PadN option of option data length 12.
static REPR_PACKET_PAD12: [u8; 16] = [
    0x06, 0x1, 0x1, 0x0C, 0x0, 0x0, 0x0, 0x0, 0x0, 0x0, 0x0, 0x0, 0x0, 0x0, 0x0, 0x0,
];

#[test]
fn test_check_len() {
    // zero byte buffer
    assert_eq!(
        Err(Error),
        Header::new_unchecked(REPR_PACKET_PAD4[..0].to_vec()).check_len()
    );
    // no length field
    assert_eq!(
        Err(Error),
        Header::new_unchecked(REPR_PACKET_PAD4[..1].to_vec()).check_len()
    );
    // less than 8 bytes
    assert_eq!(
        Err(Error),
        Header::new_unchecked(REPR_PACKET_PAD4[..7].to_vec()).check_len()
    );
    // valid
    assert_eq!(
        Ok(()),
        Header::new_unchecked(REPR_PACKET_PAD4.to_vec()).check_len()
    );
    // valid
    assert_eq!(
        Ok(()),
        Header::new_unchecked(REPR_PACKET_PAD12.to_vec()).check_len()
    );
    // length field value greater than number of bytes
    let header: [u8; 8] = [0x06, 0x2, 0x0, 0x0, 0x0, 0x0, 0x0, 0x0];
    assert_eq!(Err(Error), Header::new_unchecked(header.to_vec()).check_len());
}

#[test]
fn test_header_deconstruct() {
    let header = Header::new_unchecked(REPR_PACKET_PAD4.to_vec());
    assert_eq!(header.next_header(), IpProtocol::Tcp);
    assert_eq!(header.header_len(), 0);
    assert_eq!(header.payload(), &REPR_PACKET_PAD4[2..]);

    let header = Header::new_unchecked(REPR_PACKET_PAD12.to_vec());
    assert_eq!(header.next_header(), IpProtocol::Tcp);
    assert_eq!(header.header_len(), 1);
    assert_eq!(header.payload(), &REPR_PACKET_PAD12[2..]);
}

#[test]
fn test_overlong() {
    let mut bytes = vec![];
    bytes.extend(&REPR_PACKET_PAD4[..]);
    bytes.push(0);

    assert_eq!(
        Header::new_unchecked(bytes.clone()).payload().len(),
        REPR_PACKET_PAD4[2..].len()
    );
    assert_eq!(
        Header::new_unchecked(bytes).payload_mut().len(),
        REPR_PACKET_PAD4[2..].len()
    );

    let mut bytes = vec![];
    bytes.extend(&REPR_PACKET_PAD12[..]);
    bytes.push(0);

    assert_eq!(
        Header::new_unchecked(bytes.clone()).payload().len(),
        REPR_PACKET_PAD12[2..].len()
    );
    assert_eq!(
        Header::new_unchecked(bytes).payload_mut().len(),
        REPR_PACKET_PAD12[2..].len()
    );
}

#[test]
fn test_header_len_overflow() {
    let mut bytes = vec![];
    bytes.extend(REPR_PACKET_PAD4);
    let len = bytes.len() as u8;
    let mut header = Header::new_unchecked(bytes);
    header.set_header_len(len + 1);
    let bytes = header.into_inner();

    assert_eq!(Header::new_checked(bytes).unwrap_err(), Error);

    let mut bytes = vec![];
    bytes.extend(REPR_PACKET_PAD12);
    let len = bytes.len() as u8;
    let mut header = Header::new_unchecked(bytes);
    header.set_header_len(len + 1);
    let bytes = header.into_inner();

    assert_eq!(Header::new_checked(bytes).unwrap_err(), Error);
}

#[test]
fn test_repr_parse_valid() {
    let header = Header::new_unchecked(REPR_PACKET_PAD4.to_vec());
    let repr = Repr::parse(&header).unwrap();
    assert_eq!(repr.next_header, IpProtocol::Tcp);
    assert_eq!(repr.length, 0);
    assert_eq!(repr.data, &REPR_PACKET_PAD4[2..]);

    let header = Header::new_unchecked(REPR_PACKET_PAD12.to_vec());
    let repr = Repr::parse(&header).unwrap();
    assert_eq!(repr.next_header, IpProtocol::Tcp);
    assert_eq!(repr.length, 1);
    assert_eq!(repr.data, &REPR_PACKET_PAD12[2..]);
}

#[test]
fn test_repr_emit() {
    let repr = Repr {
        next_header: IpProtocol::Tcp,
        length: 0,
        data: &REPR_PACKET_PAD4[2..],
    };
    let mut header = Header::new_unchecked(vec![0u8; 2]);
    repr.emit(&mut header);
    assert_eq!(header.into_inner().as_slice(), &REPR_PACKET_PAD4[..2]);

    let repr = Repr {
        next_header: IpProtocol::Tcp,
        length: 1,
        data: &REPR_PACKET_PAD12[2..],
    };
    let mut header = Header::new_unchecked(vec![0u8; 2]);
    repr.emit(&mut header);
    assert_eq!(header.into_inner().as_slice(), &REPR_PACKET_PAD12[..2]);
}

#[test]
fn test_parse_scenario() {
    let header = Header::new_unchecked(vec![0x06, 0x00, 0x01, 0x04, 0, 0, 0, 0]);
    assert_eq!(header.check_len(), Ok(()));
    assert_eq!(header.next_header(), IpProtocol::Tcp);
    assert_eq!(header.header_len(), 0);
    assert_eq!(header.payload().len(), 6);
}

#[test]
fn test_emit_parse_round_trip() {
    // A representation whose payload length matches its length field:
    // emit the fixed bytes, append the payload, and parse it back.
    let payload = [0xAAu8; 14];
    let repr = Repr {
        next_header: IpProtocol::Udp,
        length: 1,
        data: &payload,
    };
    let mut header = Header::new_unchecked(vec![0u8; 2]);
    repr.emit(&mut header);
    let mut bytes = header.into_inner();
    bytes.extend_from_slice(&payload);
    let parsed_header = Header::new_checked(bytes).unwrap();
    let parsed = Repr::parse(&parsed_header).unwrap();
    assert_eq!(parsed.next_header, IpProtocol::Udp);
    assert_eq!(parsed.length, 1);
    assert_eq!(parsed.data, &payload);
}

#[test]
fn test_protocol_byte_codec() {
    assert_eq!(IpProtocol::from_byte(6), IpProtocol::Tcp);
    assert_eq!(IpProtocol::from_byte(17), IpProtocol::Udp);
    assert_eq!(IpProtocol::from_byte(0), IpProtocol::HopByHop);
    assert_eq!(IpProtocol::from_byte(99), IpProtocol::Unknown(99));
    assert_eq!(IpProtocol::Tcp.to_byte(), 6);
    assert_eq!(IpProtocol::Unknown(99).to_byte(), 99);
    assert_eq!(IpProtocol::Icmpv6.to_byte(), 58);
}
