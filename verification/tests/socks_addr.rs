use anytls::ip::{IpAddr, SocketAddr};
use anytls::socks_addr::{AddrFormat, SocksAddr};
use anytls::wire::Progress;

fn chars(text: &str) -> Vec<char> {
    text.chars().collect()
}

fn read(bytes: &[u8]) -> Result<(SocksAddr, usize), String> {
    match SocksAddr::read_from(bytes) {
        Ok(Progress::Done { value, consumed }) => Ok((value, consumed)),
        Ok(Progress::Need { total }) => Err(format!("{total} needed")),
        Err(err) => Err(err.message()),
    }
}

#[test]
fn domain_socks_addr_uses_rfc1928_encoding() {
    let addr = SocksAddr::domain("example.com", 443);

    assert_eq!(
        addr.to_bytes().unwrap(),
        b"\x03\x0bexample.com\x01\xbb".to_vec()
    );
}

#[test]
fn parses_host_port_as_domain_when_not_socket_addr() {
    let addr = SocksAddr::parse_host_port("example.com:443").unwrap();

    assert_eq!(addr, SocksAddr::domain("example.com", 443));
    assert_eq!(addr.to_text(), "example.com:443");
}

#[test]
fn addresses_are_written_with_their_octets() {
    let v4 = SocksAddr::Ip(SocketAddr::new(IpAddr::V4(0x7f00_0001), 80));
    assert_eq!(v4.to_bytes().unwrap(), vec![1, 127, 0, 0, 1, 0, 80]);
    assert_eq!(v4.to_format(AddrFormat::Uot).unwrap()[0], 0);
    let v6 = SocksAddr::Ip(SocketAddr::new(IpAddr::V6(1), 0x1234));
    let bytes = v6.to_bytes().unwrap();
    assert_eq!(bytes.len(), 19);
    assert_eq!(bytes[0], 4);
    assert_eq!(&bytes[15..], &[0, 1, 0x12, 0x34]);
    assert_eq!(v6.to_format(AddrFormat::Uot).unwrap()[0], 1);
    assert_eq!((v4.port(), v6.port()), (80, 0x1234));
    assert_eq!((v4.host(), v6.host()), ("127.0.0.1".to_string(), "::1".to_string()));
}

#[test]
fn destinations_read_back() {
    for addr in [
        SocksAddr::Ip(SocketAddr::new(IpAddr::V4(0x0102_0304), 5)),
        SocksAddr::Ip(SocketAddr::new(IpAddr::V6(u128::MAX - 7), 65535)),
        SocksAddr::domain("münchen.example", 1),
        SocksAddr::domain("", 0),
    ] {
        let mut bytes = addr.to_bytes().unwrap();
        let len = bytes.len();
        for n in 0..len {
            match SocksAddr::read_from(&bytes[..n]).unwrap() {
                Progress::Need { total } => assert!(n < total && total <= len),
                Progress::Done { .. } => panic!("read after {n} bytes"),
            }
        }
        bytes.push(9);
        assert_eq!(read(&bytes).unwrap(), (addr.clone(), len));
    }
}

#[test]
fn bad_destinations_are_refused() {
    assert_eq!(read(&[9]).unwrap_err(), "protocol error: unknown SOCKS address type: 9");
    assert_eq!(read(&[3, 1, 0xff, 0, 0]).unwrap_err(), "protocol error: domain name is not UTF-8");
    let long = SocksAddr::domain(&"x".repeat(256), 1);
    assert_eq!(long.to_bytes().unwrap_err().message(), "protocol error: domain name is too long");
    assert!(SocksAddr::domain(&"x".repeat(255), 1).to_bytes().is_ok());
    assert_eq!(
        SocksAddr::read_format(&[7], AddrFormat::SocksUdp).err().unwrap().message(),
        "protocol error: unknown SOCKS UDP address type"
    );
}

#[test]
fn texts_name_addresses_or_hosts() {
    let parse = |text: &str| SocksAddr::parse_host_port(text).map(|addr| addr.to_text()).map_err(|err| err.message());
    assert_eq!(parse("1.2.3.4:80").unwrap(), "1.2.3.4:80");
    assert_eq!(parse("[2001:DB8::1]:80").unwrap(), "[2001:db8::1]:80");
    assert_eq!(parse("[fe80::1%3]:80").unwrap(), "[fe80::1%3]:80");
    assert_eq!(parse("::1:80").unwrap(), "[::1]:80");
    assert_eq!(parse("host").unwrap_err(), "protocol error: missing port in address: host");
    assert_eq!(parse("host:99999").unwrap_err(), "protocol error: invalid port in address: host:99999");
    assert_eq!(parse("host:").unwrap_err(), "protocol error: invalid port in address: host:");
}

#[test]
fn ip_texts_follow_the_usual_forms() {
    let v6 = |text: &str| IpAddr::parse(&chars(text)).map(|ip| ip.to_text());
    assert_eq!(v6("::").unwrap(), "::");
    assert_eq!(v6("0:0:0:0:0:0:0:1").unwrap(), "::1");
    assert_eq!(v6("1:0:0:2:0:0:0:3").unwrap(), "1:0:0:2::3");
    assert_eq!(v6("1:0:2:3:4:5:6:7").unwrap(), "1:0:2:3:4:5:6:7");
    assert_eq!(v6("::ffff:1.2.3.4").unwrap(), "::ffff:1.2.3.4");
    assert_eq!(v6("::ffff:0102:0304").unwrap(), "::ffff:1.2.3.4");
    assert_eq!(v6("1:2:3:4:5:6:7::").unwrap(), "1:2:3:4:5:6:7:0");
    assert_eq!(v6("64:ff9b::1.2.3.4").unwrap(), "64:ff9b::102:304");
    assert_eq!(v6("255.255.255.255").unwrap(), "255.255.255.255");
    for bad in [
        "", ":", ":::", "1::2::3", "12345::", "1:2:3:4:5:6:7:8:9", "1.2.3.4::", "::1.2.3", "1.2.3", "1.2.3.4.5",
        "256.1.1.1", "01.2.3.4", "1:2:3:4:5:6:7", "g::", "1:2:3:4:5:6:7:1.2.3.4", "::1 ",
    ] {
        assert_eq!(v6(bad), None, "{bad}");
    }
}

#[test]
fn ip_texts_read_back() {
    let mut seed: u64 = 1;
    for _ in 0..3000 {
        let mut value: u128 = 0;
        for _ in 0..8 {
            seed = seed.wrapping_mul(6364136223846793005).wrapping_add(1442695040888963407);
            let word = if (seed >> 33) % 3 == 0 { (seed >> 40) as u16 } else { 0 };
            value = (value << 16) | word as u128;
        }
        let v6 = IpAddr::V6(value);
        assert_eq!(IpAddr::parse(&chars(&v6.to_text())), Some(v6));
        let v4 = IpAddr::V4(value as u32);
        assert_eq!(IpAddr::parse(&chars(&v4.to_text())), Some(v4));
    }
}

#[test]
fn socket_texts_follow_the_usual_forms() {
    let parse = |text: &str| SocketAddr::parse(&chars(text)).map(|addr| addr.to_text());
    assert_eq!(parse("1.2.3.4:0").unwrap(), "1.2.3.4:0");
    assert_eq!(parse("1.2.3.4:65535").unwrap(), "1.2.3.4:65535");
    assert_eq!(parse("1.2.3.4:065535").unwrap(), "1.2.3.4:65535");
    assert_eq!(parse("[::1]:1").unwrap(), "[::1]:1");
    assert_eq!(parse("[::1%7]:1").unwrap(), "[::1%7]:1");
    assert_eq!(parse("[::1%0]:1").unwrap(), "[::1]:1");
    assert_eq!(parse("[::ffff:1.2.3.4]:9").unwrap(), "[::ffff:1.2.3.4]:9");
    for bad in [
        "1.2.3.4:65536", "1.2.3.4:+1", "1.2.3.4", "[::1]", "[::1]:", "::1:1", "[1.2.3.4]:1", "[::1%]:1",
        "[::1%4294967296]:1", " 1.2.3.4:1", "[::1]:1x", "1.2.3.4:1:2",
    ] {
        assert_eq!(parse(bad), None, "{bad}");
    }
}
