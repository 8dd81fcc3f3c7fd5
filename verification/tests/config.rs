use anytls::config::{
    default_server_listen, default_server_security, default_tcp_brutal_cwnd_gain, mbps_to_bytes_per_second,
    ServerTcpBrutalConfig,
};
use anytls::tcp_brutal::{brutal_params_bytes, brutal_params_for, brutal_params_in_order, TcpBrutalConfig};

#[test]
fn tcp_brutal_server_rate_uses_down_mbps() {
    let config = ServerTcpBrutalConfig::enabled(500, 50, 15);
    let brutal = config.to_server_tcp_brutal().unwrap().unwrap();
    assert_eq!(brutal.rate, 6_250_000);
    assert_eq!(brutal.cwnd_gain, 15);
}

#[test]
fn mbps_conversion_matches_decimal_network_units() {
    assert_eq!(mbps_to_bytes_per_second(1).unwrap(), 125_000);
}

#[test]
fn brutal_params_match_expected_layout() {
    let config = TcpBrutalConfig {
        rate: 0x0102_0304_0506_0708,
        cwnd_gain: 0x1112_1314,
    };
    let bytes = brutal_params_bytes(config);
    assert_eq!(&bytes[..8], &config.rate.to_ne_bytes());
    assert_eq!(&bytes[8..], &config.cwnd_gain.to_ne_bytes());
}

#[test]
fn config_rejects_zero_rate() {
    assert!(TcpBrutalConfig::new(0, 15).is_err());
}

#[test]
fn config_rejects_zero_cwnd_gain() {
    assert!(TcpBrutalConfig::new(1, 0).is_err());
}

#[test]
fn params_come_in_either_order() {
    let config = TcpBrutalConfig { rate: 1, cwnd_gain: 2 };
    assert_eq!(brutal_params_in_order(config, true), [1, 0, 0, 0, 0, 0, 0, 0, 2, 0, 0, 0]);
    assert_eq!(brutal_params_in_order(config, false), [0, 0, 0, 0, 0, 0, 0, 1, 0, 0, 0, 2]);
}

#[test]
fn params_come_in_the_order_of_the_machine() {
    let config = TcpBrutalConfig { rate: 0x0102_0304_0506_0708, cwnd_gain: 0x1112_1314 };
    let little = [8, 7, 6, 5, 4, 3, 2, 1, 0x14, 0x13, 0x12, 0x11];
    let big = [1, 2, 3, 4, 5, 6, 7, 8, 0x11, 0x12, 0x13, 0x14];
    assert_eq!(brutal_params_for(config, 1u16.to_le_bytes()), little);
    assert_eq!(brutal_params_for(config, 1u16.to_be_bytes()), big);
    assert_eq!(brutal_params_bytes(config), brutal_params_for(config, 1u16.to_ne_bytes()));
}

#[test]
fn rates_have_to_fit() {
    assert_eq!(
        mbps_to_bytes_per_second(0).unwrap_err().message(),
        "protocol error: tcp brutal mbps must be greater than 0"
    );
    assert_eq!(
        mbps_to_bytes_per_second(u64::MAX).unwrap_err().message(),
        "protocol error: tcp brutal rate overflowed while converting Mbps to bytes/s"
    );
    assert_eq!(mbps_to_bytes_per_second(u64::MAX / 125_000).unwrap(), u64::MAX / 125_000 * 125_000);
}

#[test]
fn disabled_rates_are_none() {
    let mut config = ServerTcpBrutalConfig::default();
    assert!(config.to_server_tcp_brutal().unwrap().is_none());
    config.enabled = true;
    assert_eq!(
        config.to_server_tcp_brutal().unwrap_err().message(),
        "protocol error: tcp_brutal.enabled requires tcp_brutal.down_mbps in server yaml config"
    );
    config.down_mbps = Some(3);
    config.cwnd_gain = 0;
    assert_eq!(
        config.to_server_tcp_brutal().unwrap_err().message(),
        "protocol error: tcp brutal cwnd gain must be greater than 0"
    );
    assert_eq!(
        TcpBrutalConfig::new(0, 0).unwrap_err().message(),
        "protocol error: tcp brutal rate must be greater than 0"
    );
}

#[test]
fn defaults_are_as_documented() {
    assert_eq!(default_server_listen(), "0.0.0.0:8443");
    assert_eq!(default_server_security(), "tls");
    assert_eq!(default_tcp_brutal_cwnd_gain(), 15);
}
