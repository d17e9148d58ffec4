use smolstack::phy::loopback::Loopback;
use smolstack::phy::Medium;
use smolstack::time::Instant;

fn send(device: &mut Loopback, frame: &[u8]) {
    let token = device.transmit(Instant::from_micros(0)).unwrap();
    token.consume(frame.len(), |buf| {
        buf.copy_from_slice(frame);
    });
}

fn recv(device: &mut Loopback) -> Option<Vec<u8>> {
    device
        .receive(Instant::from_micros(0))
        .map(|(rx, _tx)| rx.consume(|buf| buf.to_vec()))
}

#[test]
fn test_loopback_fifo() {
    let mut device = Loopback::new(Medium::Ethernet);
    send(&mut device, b"A");
    send(&mut device, b"B");
    send(&mut device, b"C");
    assert_eq!(recv(&mut device).as_deref(), Some(&b"A"[..]));
    assert_eq!(recv(&mut device).as_deref(), Some(&b"B"[..]));
    assert_eq!(recv(&mut device).as_deref(), Some(&b"C"[..]));
    assert!(recv(&mut device).is_none());
}

#[test]
fn test_loopback_capabilities() {
    let device = Loopback::new(Medium::Ip);
    let caps = device.capabilities();
    assert_eq!(caps.medium, Medium::Ip);
    assert_eq!(caps.max_transmission_unit, 65535);
}

#[test]
fn test_loopback_reply_with_paired_token() {
    let mut device = Loopback::new(Medium::Ethernet);
    send(&mut device, b"ping");
    {
        let (rx, tx) = device.receive(Instant::from_micros(0)).unwrap();
        let got = rx.consume(|buf| buf.to_vec());
        assert_eq!(got, b"ping");
        tx.consume(4, |buf| {
            buf.copy_from_slice(b"pong");
        });
    }
    assert_eq!(recv(&mut device).as_deref(), Some(&b"pong"[..]));
    assert!(recv(&mut device).is_none());
}

#[test]
fn test_loopback_zeroed_frame() {
    let mut device = Loopback::new(Medium::Ethernet);
    {
        let token = device.transmit(Instant::from_micros(7)).unwrap();
        token.consume(3, |buf| {
            assert_eq!(buf, &[0u8, 0, 0]);
            buf[1] = 9;
        });
    }
    assert_eq!(recv(&mut device).as_deref(), Some(&[0u8, 9, 0][..]));
}

#[test]
fn test_instant_micros() {
    let t = Instant::from_micros(1234);
    assert_eq!(t.total_micros(), 1234);
}
