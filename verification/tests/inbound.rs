use anytls::error::AnyTlsError;
use anytls::inbound::{
    decode_socks5_udp_packet, encode_socks5_udp_packet, forward_request, inbound_kind, read_greeting, read_http_header,
    read_http_request, read_socks4_request, read_socks5_request, udp_associate_reply, HttpRequest, InboundKind,
    Socks5Request, MAX_FIELD_LEN, MAX_HEADER_LEN,
};
use anytls::ip::{IpAddr, SocketAddr};
use anytls::socks_addr::SocksAddr;
use anytls::uri::UrlParts;
use anytls::wire::Progress;

fn total<T>(progress: Result<Progress<T>, AnyTlsError>) -> usize {
    match progress.map_err(|err| err.message()).unwrap() {
        Progress::Need { total } => total,
        Progress::Done { consumed, .. } => panic!("{consumed} bytes were enough"),
    }
}

fn done<T>(progress: Result<Progress<T>, AnyTlsError>) -> (T, usize) {
    match progress.map_err(|err| err.message()).unwrap() {
        Progress::Done { value, consumed } => (value, consumed),
        Progress::Need { total } => panic!("{total} bytes are needed"),
    }
}

fn failure<T>(result: Result<T, AnyTlsError>) -> String {
    match result {
        Ok(_) => panic!("a failure is expected"),
        Err(err) => err.message(),
    }
}

#[test]
fn protocols_are_told_apart() {
    assert_eq!(inbound_kind(4), InboundKind::Socks4);
    assert_eq!(inbound_kind(5), InboundKind::Socks5);
    assert_eq!(inbound_kind(b'C'), InboundKind::Http);
}

#[test]
fn greetings_list_their_methods() {
    assert_eq!(total(read_greeting(&[])), 1);
    assert_eq!(total(read_greeting(&[5])), 2);
    assert_eq!(total(read_greeting(&[5, 2, 0])), 4);
    assert_eq!(done(read_greeting(&[5, 2, 0, 1, 5])), ((), 4));
    assert_eq!(done(read_greeting(&[5, 0])), ((), 2));
    assert_eq!(failure(read_greeting(&[6])), "protocol error: invalid SOCKS5 version");
}

#[test]
fn socks5_requests_are_read() {
    assert_eq!(total(read_socks5_request(&[9, 9])), 3);
    assert_eq!(failure(read_socks5_request(&[4, 1, 0])), "protocol error: invalid SOCKS5 request version");
    let bytes = [5, 1, 0, 1, 10, 0, 0, 1, 0, 80, 99];
    assert_eq!(total(read_socks5_request(&bytes[..9])), 10);
    match done(read_socks5_request(&bytes)) {
        (Socks5Request::Connect(addr), 10) => assert_eq!(addr.to_text(), "10.0.0.1:80"),
        _ => panic!("a connection is asked for"),
    }
    match done(read_socks5_request(b"\x05\x03\x00\x03\x01h\x00\x35")) {
        (Socks5Request::UdpAssociate(addr), 8) => assert_eq!(addr, SocksAddr::domain("h", 53)),
        _ => panic!("packets are asked for"),
    }
    assert_eq!(
        failure(read_socks5_request(&[5, 2, 0, 1, 10, 0, 0, 1, 0, 80])),
        "protocol error: only SOCKS5 CONNECT and UDP ASSOCIATE are supported"
    );
    assert_eq!(failure(read_socks5_request(&[5, 1, 0, 2])), "protocol error: unknown SOCKS address type");
    assert_eq!(
        failure(read_socks5_request(b"\x05\x01\x00\x03\x01\xff\x00\x35")),
        "protocol error: SOCKS domain is not UTF-8"
    );
}

#[test]
fn bound_addresses_are_told() {
    let v4 = SocketAddr::new(IpAddr::V4(0x7f00_0001), 0x1234);
    assert_eq!(udp_associate_reply(v4), vec![5, 0, 0, 1, 127, 0, 0, 1, 0x12, 0x34]);
    let v6 = udp_associate_reply(SocketAddr::new(IpAddr::V6(1), 2));
    assert_eq!((v6.len(), v6[3], v6[19], v6[21]), (22, 4, 1, 2));
}

#[test]
fn udp_packets_read_back() {
    for addr in [
        SocksAddr::domain("dns.example", 53),
        SocksAddr::Ip(SocketAddr::new(IpAddr::V4(7), 8)),
        SocksAddr::Ip(SocketAddr::new(IpAddr::V6(7 << 100), 8)),
    ] {
        let packet = encode_socks5_udp_packet(&addr, b"query").unwrap();
        assert_eq!(decode_socks5_udp_packet(&packet).unwrap(), (b"query".to_vec(), addr));
    }
    assert_eq!(failure(decode_socks5_udp_packet(&[0, 0, 0])), "protocol error: SOCKS5 UDP packet is too short");
    assert_eq!(failure(decode_socks5_udp_packet(&[0, 1, 0, 1])), "protocol error: SOCKS5 UDP packet has invalid RSV");
    assert_eq!(
        failure(decode_socks5_udp_packet(&[0, 0, 1, 1])),
        "protocol error: SOCKS5 UDP fragmentation is not supported"
    );
    assert_eq!(failure(decode_socks5_udp_packet(&[0, 0, 0, 9])), "protocol error: unknown SOCKS UDP address type");
    assert_eq!(
        failure(decode_socks5_udp_packet(b"\x00\x00\x00\x03\x01\xff\x00\x00")),
        "protocol error: SOCKS UDP domain is not UTF-8"
    );
    assert_eq!(failure(decode_socks5_udp_packet(&[0, 0, 0, 1, 1])), "io error: failed to fill whole buffer");
    assert_eq!(
        failure(encode_socks5_udp_packet(&SocksAddr::domain(&"x".repeat(256), 1), b"")),
        "protocol error: domain name is too long"
    );
}

#[test]
fn socks4_requests_are_read() {
    assert_eq!(total(read_socks4_request(&[4])), 2);
    assert_eq!(failure(read_socks4_request(&[4, 2])), "protocol error: only SOCKS4 CONNECT is supported");
    assert_eq!(total(read_socks4_request(&[4, 1, 0])), 8);
    let request = b"\x04\x01\x01\xbb\x0a\x00\x00\x01user\x00rest";
    assert_eq!(total(read_socks4_request(&request[..12])), 13);
    let (addr, consumed) = done(read_socks4_request(request));
    assert_eq!((addr.to_text().as_str(), consumed), ("10.0.0.1:443", 13));
    let request = b"\x04\x01\x01\xbb\x00\x00\x00\x01\x00example.com\x00";
    let (addr, consumed) = done(read_socks4_request(request));
    assert_eq!((addr, consumed), (SocksAddr::domain("example.com", 443), request.len()));
    assert_eq!(total(read_socks4_request(&request[..15])), 16);
    let (addr, _) = done(read_socks4_request(b"\x04\x01\x01\xbb\x00\x00\x00\x00\x00"));
    assert_eq!(addr.to_text(), "0.0.0.0:443");
    assert_eq!(
        failure(read_socks4_request(b"\x04\x01\x01\xbb\x00\x00\x00\x01\x00\xff\x00")),
        "protocol error: SOCKS4a domain is not UTF-8"
    );
    let mut long = b"\x04\x01\x01\xbb\x0a\x00\x00\x01".to_vec();
    long.resize(8 + MAX_FIELD_LEN, b'x');
    assert_eq!(total(read_socks4_request(&long)), 9 + MAX_FIELD_LEN);
    long.push(b'x');
    assert_eq!(failure(read_socks4_request(&long)), "protocol error: NUL-terminated field is too long");
}

#[test]
fn http_headers_end_at_a_blank_line() {
    assert_eq!(total(read_http_header(b"GET / HTTP/1.1\r\n")), 17);
    assert_eq!(done(read_http_header(b"GET /\r\n\r\nbody\r\n\r\n")), ((), 9));
    assert_eq!(done(read_http_header(b"\r\n\r\n")), ((), 4));
    let mut long = vec![b'x'; MAX_HEADER_LEN - 5];
    assert_eq!(total(read_http_header(&long)), MAX_HEADER_LEN - 4);
    long.extend_from_slice(b"\r\n\r\n");
    assert_eq!(done(read_http_header(&long)), ((), MAX_HEADER_LEN - 1));
    long.insert(0, b'x');
    assert_eq!(done(read_http_header(&long)), ((), MAX_HEADER_LEN));
    long.insert(0, b'x');
    assert_eq!(failure(read_http_header(&long)), "protocol error: HTTP header is too large");
}

#[test]
fn http_requests_are_read() {
    match read_http_request(b"connect example.com:443 HTTP/1.1\r\nHost: x\r\n\r\n").unwrap() {
        HttpRequest::Connect(addr) => assert_eq!(addr, SocksAddr::domain("example.com", 443)),
        _ => panic!("a connection is asked for"),
    }
    let forward = |header: &[u8]| match read_http_request(header) {
        Ok(HttpRequest::Forward(addr, text)) => Ok((addr.to_text(), text)),
        Ok(_) => panic!("a request is to be passed on"),
        Err(err) => Err(err.message()),
    };
    assert_eq!(
        forward(b"GET http://example.com/a%20b?c=d#e HTTP/1.0\r\nHost: x\r\n\r\n").unwrap(),
        ("example.com:80".to_string(), "GET /a%20b?c=d HTTP/1.0\r\nHost: x\r\n\r\n".to_string())
    );
    assert_eq!(
        forward(b"POST  https://example.com:8443\r\n\r\n").unwrap(),
        ("example.com:8443".to_string(), "POST / HTTP/1.1\r\n\r\n".to_string())
    );
    assert_eq!(forward(b"GET / HTTP/1.1\r\n\r\n").unwrap_err(), "url parse error: relative URL without a base");
    assert_eq!(forward(b"GET mailto:x HTTP/1.1\r\n\r\n").unwrap_err(), "protocol error: HTTP absolute URI is missing host");
    assert_eq!(forward(b"GET x://h/ HTTP/1.1\r\n\r\n").unwrap_err(), "protocol error: HTTP absolute URI is missing port");
    assert_eq!(forward(b"GET\r\n\r\n").unwrap_err(), "protocol error: missing HTTP URI");
    assert_eq!(forward(b" \r\n\r\n").unwrap_err(), "protocol error: missing HTTP method");
    assert_eq!(forward(b"GET http://x\n\n").unwrap_err(), "protocol error: invalid HTTP request");
    assert_eq!(forward(b"GET \xff\r\n\r\n").unwrap_err(), "protocol error: HTTP header is not UTF-8");
    assert_eq!(forward(b"CONNECT host HTTP/1.1\r\n\r\n").unwrap_err(), "protocol error: missing port in address: host");
}

#[test]
fn requests_without_a_path_ask_for_the_root() {
    let url = UrlParts {
        scheme: "x".to_string(),
        host: Some("h".to_string()),
        port: None,
        known_port: Some(9),
        username: String::new(),
        path: String::new(),
        query: Some("q".to_string()),
        pairs: Vec::new(),
    };
    match forward_request(&['G'], &['V'], &['r'], &url).unwrap() {
        HttpRequest::Forward(addr, text) => assert_eq!((addr, text.as_str()), (SocksAddr::domain("h", 9), "G /?q V\r\nr")),
        _ => panic!("a request is to be passed on"),
    }
}
