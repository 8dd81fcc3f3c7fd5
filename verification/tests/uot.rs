use anytls::ip::{IpAddr, SocketAddr};
use anytls::socks_addr::SocksAddr;
use anytls::uot::{encode_packet, read_packet, request_destination, resolved_udp_addr, Request, MAGIC_ADDRESS, VERSION};
use anytls::wire::Progress;

fn packet(bytes: &[u8], connected: Option<&SocksAddr>) -> (Vec<u8>, SocksAddr, usize) {
    match read_packet(bytes, connected).unwrap() {
        Progress::Done { value: (payload, destination), consumed } => (payload, destination, consumed),
        Progress::Need { total } => panic!("{total} bytes are needed"),
    }
}

#[test]
fn request_encodes_bool_and_socksaddr() {
    let request = Request {
        is_connect: true,
        destination: request_destination(),
    };

    assert_eq!(
        request.encode().unwrap(),
        b"\x01\x03\x17sp.v2.udp-over-tcp.arpa\x00\x00".to_vec()
    );
}

#[test]
fn packet_round_trips_connected_mode() {
    let encoded = encode_packet(None, b"hello").unwrap();
    let destination = SocksAddr::domain("example.com", 443);

    let (payload, returned_destination, consumed) = packet(&encoded, Some(&destination));

    assert_eq!(payload, b"hello");
    assert_eq!(returned_destination, destination);
    assert_eq!(consumed, encoded.len());
}

#[test]
fn packet_round_trips_unconnected_mode() {
    let destination = SocksAddr::domain("example.com", 443);
    let encoded = encode_packet(Some(&destination), b"hello").unwrap();

    let (payload, returned_destination, consumed) = packet(&encoded, None);

    assert_eq!(payload, b"hello");
    assert_eq!(returned_destination, destination);
    assert_eq!(consumed, encoded.len());
}

#[test]
fn packets_have_their_own_address_bytes() {
    let v4 = SocksAddr::Ip(SocketAddr::new(IpAddr::V4(0x0102_0304), 53));
    assert_eq!(encode_packet(Some(&v4), b"x").unwrap(), vec![0, 1, 2, 3, 4, 0, 53, 0, 1, b'x']);
    assert_eq!(encode_packet(Some(&SocksAddr::domain("a", 1)), b"").unwrap(), vec![2, 1, b'a', 0, 1, 0, 0]);
    let err = read_packet(&[3], None).err().unwrap();
    assert_eq!(err.message(), "protocol error: unknown UoT address family: 3");
    assert!(encode_packet(Some(&SocksAddr::domain(&"x".repeat(300), 1)), b"").is_err());
}

#[test]
fn parts_of_packets_wait() {
    let destination = SocksAddr::domain("example.com", 443);
    let encoded = encode_packet(Some(&destination), b"hello").unwrap();
    for n in 0..encoded.len() {
        match read_packet(&encoded[..n], None).unwrap() {
            Progress::Need { total } => assert!(n < total && total <= encoded.len()),
            Progress::Done { .. } => panic!("read after {n} bytes"),
        }
    }
}

#[test]
fn requests_read_back() {
    for is_connect in [false, true] {
        let request = Request { is_connect, destination: SocksAddr::domain("dns.example", 53) };
        let mut bytes = request.encode().unwrap();
        let len = bytes.len();
        for n in 0..len {
            match Request::read_from(&bytes[..n]).unwrap() {
                Progress::Need { total } => assert!(n < total && total <= len),
                Progress::Done { .. } => panic!("read after {n} bytes"),
            }
        }
        bytes.extend_from_slice(b"more");
        match Request::read_from(&bytes).unwrap() {
            Progress::Done { value, consumed } => {
                assert_eq!(value, request.clone());
                assert_eq!(consumed, len);
            }
            Progress::Need { .. } => panic!("nothing is missing"),
        }
        assert_eq!(request.connected_destination().is_some(), is_connect);
    }
    assert!(matches!(Request::read_from(&[]), Ok(Progress::Need { total: 1 })));
    assert!(matches!(Request::read_from(&[2, 9]), Err(_)));
}

#[test]
fn replies_name_their_source_unless_there_is_one_destination() {
    let source = SocketAddr::new(IpAddr::V4(0x0a00_0001), 9);
    let open = Request { is_connect: false, destination: request_destination() };
    assert_eq!(open.encode_reply(source, b"hi").unwrap(), vec![0, 10, 0, 0, 1, 0, 9, 0, 2, b'h', b'i']);
    let connected = Request { is_connect: true, destination: request_destination() };
    assert_eq!(connected.encode_reply(source, b"hi").unwrap(), vec![0, 2, b'h', b'i']);
}

#[test]
fn names_need_an_address() {
    let first = SocketAddr::new(IpAddr::V6(1), 53);
    let domain = SocksAddr::domain("dns.example", 53);
    assert_eq!(resolved_udp_addr(&domain, Some(first)).unwrap(), first);
    assert_eq!(
        resolved_udp_addr(&domain, None).unwrap_err().message(),
        "protocol error: failed to resolve udp address: dns.example:53"
    );
    assert_eq!(resolved_udp_addr(&SocksAddr::Ip(first), None).unwrap(), first);
    assert_eq!(VERSION, 2);
    assert_eq!(request_destination().host(), MAGIC_ADDRESS);
}
