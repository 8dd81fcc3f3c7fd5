use anytls::dialer::{ConnectAttempts, GaiConfig, IpPrefix};
use anytls::error::{IoError, IoErrorKind};
use anytls::ip::{IpAddr, SocketAddr};
use anytls::socks_addr::SocksAddr;

fn socket(text: &str) -> SocketAddr {
    SocketAddr::parse(&text.chars().collect::<Vec<_>>()).unwrap()
}

fn prefix(text: &str) -> Option<IpPrefix> {
    IpPrefix::parse(&text.chars().collect::<Vec<_>>())
}

fn is_ipv4(addr: &SocketAddr) -> bool {
    matches!(addr.ip, IpAddr::V4(_))
}

#[test]
fn gai_precedence_prefers_ipv4_mapped_addresses_when_configured() {
    let config = GaiConfig::parse("precedence ::/0 40\nprecedence ::ffff:0:0/96 100\n");
    let addrs = vec![
        socket("[2606:4700:7::da]:443"),
        socket("162.159.140.220:443"),
    ];

    let addrs = config.sort_socket_addrs(addrs);

    assert!(is_ipv4(&addrs[0]));
}

#[test]
fn gai_precedence_uses_longest_matching_prefix() {
    let config = GaiConfig::parse("precedence ::/0 100\nprecedence ::ffff:0:0/96 10\n");
    let addrs = vec![
        socket("162.159.140.220:443"),
        socket("[2606:4700:7::da]:443"),
    ];

    let addrs = config.sort_socket_addrs(addrs);

    assert!(!is_ipv4(&addrs[0]));
}

#[test]
fn empty_gai_config_preserves_resolver_order() {
    let config = GaiConfig::parse("# no active rules\n");
    let addrs = vec![
        socket("[2606:4700:7::da]:443"),
        socket("162.159.140.220:443"),
    ];

    let sorted = config.sort_socket_addrs(addrs.clone());

    assert_eq!(sorted, addrs);
}

#[test]
fn addresses_that_are_preferred_alike_keep_their_order() {
    let config = GaiConfig::parse("precedence 10.0.0.0/8 7\r\nprecedence ::1 9 # local\r\n");
    let addrs: Vec<_> = ["9.9.9.9:1", "10.0.0.2:2", "[::1]:3", "8.8.8.8:4", "10.0.0.1:5"].iter().map(|t| socket(t)).collect();
    let ports: Vec<_> = config.sort_socket_addrs(addrs).iter().map(|addr| addr.port).collect();
    assert_eq!(ports, vec![3, 2, 5, 1, 4]);
    assert_eq!(config.precedence_value(socket("10.1.1.1:1").ip), 7);
    assert_eq!(config.precedence_value(socket("11.1.1.1:1").ip), 0);
}

#[test]
fn lines_that_state_nothing_are_passed_over() {
    let config = GaiConfig::parse(
        "label ::/0 1\nprecedence\nprecedence ::/0\nprecedence ::/129 5\nprecedence 1.2.3.4/33 5\nprecedence x 5\n\
         precedence ::/0 99999999999\n  precedence   ::/0   -3   extra\n#precedence ::/0 8\nprecedence 1.2.3.4 5",
    );
    assert_eq!(config.precedence_value(IpAddr::V6(1)), -3);
    assert_eq!(config.precedence_value(IpAddr::V4(0x0102_0304)), -3);
}

#[test]
fn of_equal_prefixes_the_first_counts() {
    let config = GaiConfig::parse("precedence ::/0 1\nprecedence ::/0 2");
    assert_eq!(config.precedence_value(IpAddr::V6(5)), 1);
}

#[test]
fn prefixes_compare_their_first_bits() {
    let p = prefix("2001:db8::/32").unwrap();
    assert!(p.matches(socket("[2001:db8:ffff::1]:1").ip));
    assert!(!p.matches(socket("[2001:db9::1]:1").ip));
    assert!(prefix("0.0.0.0/0").unwrap().matches(IpAddr::V4(77)));
    assert!(!prefix("0.0.0.0/0").unwrap().matches(IpAddr::V6(77)));
    assert!(prefix("1::/128").unwrap().matches(socket("[1::]:1").ip));
    assert_eq!(prefix("10.0.0.0/8").unwrap().len, 104);
    assert!(prefix("::/+8").is_some());
    assert!(prefix("::/-1").is_none());
}

#[test]
fn destinations_give_their_addresses_to_try() {
    let config = GaiConfig::default();
    let domain = SocksAddr::domain("none.example", 443);
    let err = config.addrs_to_try(&domain, vec![]).unwrap_err();
    assert_eq!(err.kind, IoErrorKind::NotFound);
    assert_eq!(err.message, "no addresses resolved for none.example:443");
    assert_eq!(config.addrs_to_try(&domain, vec![socket("1.1.1.1:443")]).unwrap(), vec![socket("1.1.1.1:443")]);
    let ip = SocksAddr::Ip(socket("2.2.2.2:2"));
    assert_eq!(config.addrs_to_try(&ip, vec![]).unwrap(), vec![socket("2.2.2.2:2")]);
}

#[test]
fn the_last_failure_is_reported() {
    let destination = SocksAddr::domain("example.com", 443);
    let mut attempts = ConnectAttempts::new(vec![socket("1.1.1.1:443"), socket("[::1]:443")]);
    assert_eq!(attempts.next(), Some(socket("1.1.1.1:443")));
    attempts.failed(IoError { kind: IoErrorKind::Other, message: "refused".to_string() });
    assert_eq!(attempts.next(), Some(socket("[::1]:443")));
    attempts.timed_out(socket("[::1]:443"));
    assert_eq!(attempts.next(), None);
    let err = attempts.give_up(&destination);
    assert_eq!(err.kind, IoErrorKind::TimedOut);
    assert_eq!(err.message, "outbound tcp connect to [::1]:443 timed out");

    let err = ConnectAttempts::new(vec![]).give_up(&destination);
    assert_eq!(err.message, "no addresses resolved for example.com:443");
}
