//! The settings of a server.

use vstd::prelude::*;

use crate::error::{AnyTlsError, ErrorView, Result};
use crate::reality::RealityConfig;
use crate::tcp_brutal::{brutal_of, TcpBrutalConfig};

verus! {

pub const DEFAULT_SERVER_LISTEN: &'static str = "0.0.0.0:8443";

pub const DEFAULT_SERVER_SECURITY: &'static str = "tls";

pub const DEFAULT_TCP_BRUTAL_CWND_GAIN: u32 = 15;

/// What a server's settings file holds.
#[derive(Clone, Debug)]
pub struct ServerFileConfig {
    pub listen: String,
    pub password: String,
    pub padding_scheme: Option<String>,
    pub security: String,
    pub tls: Option<TlsConfig>,
    pub reality: Option<RealityConfig>,
    pub tcp_brutal: ServerTcpBrutalConfig,
}

/// Where a server's certificate is found.
#[derive(Clone, Debug, PartialEq, Eq)]
pub struct TlsConfig {
    pub server_name: String,
    pub certificate_path: String,
    pub key_path: String,
}

/// The rates at which a server sends, as a client sees them.
#[derive(Clone, Debug)]
pub struct ServerTcpBrutalConfig {
    pub enabled: bool,
    pub up_mbps: Option<u64>,
    pub down_mbps: Option<u64>,
    pub cwnd_gain: u32,
}

impl Default for ServerTcpBrutalConfig {
    fn default() -> (config: Self)
        ensures
            !config.enabled,
            config.up_mbps is None,
            config.down_mbps is None,
            config.cwnd_gain == DEFAULT_TCP_BRUTAL_CWND_GAIN,
    {
        ServerTcpBrutalConfig {
            enabled: false,
            up_mbps: None,
            down_mbps: None,
            cwnd_gain: DEFAULT_TCP_BRUTAL_CWND_GAIN,
        }
    }
}

/// A rate in megabits per second as bytes per second.
pub open spec fn bytes_per_second(mbps: u64) -> core::result::Result<int, ErrorView> {
    if mbps == 0 {
        Err(ErrorView::Protocol("tcp brutal mbps must be greater than 0"@))
    } else if mbps * 125_000 > u64::MAX {
        Err(ErrorView::Protocol("tcp brutal rate overflowed while converting Mbps to bytes/s"@))
    } else {
        Ok(mbps * 125_000)
    }
}

/// What a server has to send at, or nothing where it sends as it likes. A server sends what its
/// clients load down.
pub open spec fn server_brutal(config: ServerTcpBrutalConfig) -> core::result::Result<
    Option<TcpBrutalConfig>,
    ErrorView,
> {
    if !config.enabled {
        Ok(None)
    } else {
        match config.down_mbps {
            None => Err(
                ErrorView::Protocol("tcp_brutal.enabled requires tcp_brutal.down_mbps in server yaml config"@),
            ),
            Some(mbps) => match bytes_per_second(mbps) {
                Err(err) => Err(err),
                Ok(rate) => match brutal_of(rate as u64, config.cwnd_gain) {
                    Ok(brutal) => Ok(Some(brutal)),
                    Err(err) => Err(err),
                },
            },
        }
    }
}

impl ServerTcpBrutalConfig {
    /// Both rates, in force.
    pub fn enabled(up_mbps: u64, down_mbps: u64, cwnd_gain: u32) -> (config: Self)
        ensures
            config.enabled,
            config.up_mbps == Some(up_mbps),
            config.down_mbps == Some(down_mbps),
            config.cwnd_gain == cwnd_gain,
    {
        ServerTcpBrutalConfig { enabled: true, up_mbps: Some(up_mbps), down_mbps: Some(down_mbps), cwnd_gain }
    }

    /// What a server has to send at.
    pub fn to_server_tcp_brutal(&self) -> (brutal: Result<Option<TcpBrutalConfig>>)
        ensures
            match brutal {
                Ok(brutal) => server_brutal(*self) == Ok::<Option<TcpBrutalConfig>, ErrorView>(brutal),
                Err(err) => server_brutal(*self) == Err::<Option<TcpBrutalConfig>, ErrorView>(err@),
            },
    {
        if !self.enabled {
            return Ok(None);
        }
        let down_mbps: u64 = match self.down_mbps {
            Some(mbps) => mbps,
            None => {
                return Err(
                    AnyTlsError::protocol(
                        "tcp_brutal.enabled requires tcp_brutal.down_mbps in server yaml config",
                    ),
                );
            },
        };
        let rate: u64 = match mbps_to_bytes_per_second(down_mbps) {
            Ok(rate) => rate,
            Err(err) => {
                return Err(err);
            },
        };
        match TcpBrutalConfig::new(rate, self.cwnd_gain) {
            Ok(brutal) => Ok(Some(brutal)),
            Err(err) => Err(err),
        }
    }
}

/// A rate in megabits per second as bytes per second.
pub fn mbps_to_bytes_per_second(mbps: u64) -> (rate: Result<u64>)
    ensures
        match rate {
            Ok(rate) => bytes_per_second(mbps) == Ok::<int, ErrorView>(rate as int),
            Err(err) => bytes_per_second(mbps) == Err::<int, ErrorView>(err@),
        },
{
    if mbps == 0 {
        return Err(AnyTlsError::protocol("tcp brutal mbps must be greater than 0"));
    }
    match mbps.checked_mul(125_000) {
        Some(rate) => Ok(rate),
        None => Err(AnyTlsError::protocol("tcp brutal rate overflowed while converting Mbps to bytes/s")),
    }
}

/// Where a server listens that is not told.
pub fn default_server_listen() -> (listen: String)
    ensures
        listen@ == DEFAULT_SERVER_LISTEN@,
{
    DEFAULT_SERVER_LISTEN.to_owned()
}

/// How a server that is not told secures its connections.
pub fn default_server_security() -> (security: String)
    ensures
        security@ == DEFAULT_SERVER_SECURITY@,
{
    DEFAULT_SERVER_SECURITY.to_owned()
}

/// The gain where none is given.
pub fn default_tcp_brutal_cwnd_gain() -> (gain: u32)
    ensures
        gain == DEFAULT_TCP_BRUTAL_CWND_GAIN,
{
    DEFAULT_TCP_BRUTAL_CWND_GAIN
}

/// A megabit is a million bits, and a byte has eight. A rate of zero, and one that is too large for
/// its bytes to be counted, is refused.
pub proof fn rates_are_counted_in_bytes(mbps: u64)
    ensures
        0 < mbps && mbps * 1_000_000 / 8 <= u64::MAX ==> bytes_per_second(mbps) == Ok::<int, ErrorView>(
            mbps * 1_000_000 / 8,
        ),
        mbps == 0 || mbps * 1_000_000 / 8 > u64::MAX ==> bytes_per_second(mbps) is Err,
{
}

/// A server sends at the rate at which its clients load down, with the gain that is set. The rate at
/// which they load up does not matter, and neither does anything while the settings are not enabled.
pub proof fn servers_send_what_clients_load_down(up: Option<u64>, down: u64, cwnd_gain: u32)
    ensures
        ({
            let config = ServerTcpBrutalConfig { enabled: true, up_mbps: up, down_mbps: Some(down), cwnd_gain };
            &&& 0 < down && down * 125_000 <= u64::MAX && cwnd_gain > 0 ==> server_brutal(config) == Ok::<
                Option<TcpBrutalConfig>,
                ErrorView,
            >(Some(TcpBrutalConfig { rate: (down * 125_000) as u64, cwnd_gain }))
            &&& down == 0 || cwnd_gain == 0 || down * 125_000 > u64::MAX ==> server_brutal(config) is Err
            &&& server_brutal(ServerTcpBrutalConfig { down_mbps: None, ..config }) is Err
            &&& server_brutal(ServerTcpBrutalConfig { enabled: false, ..config }) == Ok::<
                Option<TcpBrutalConfig>,
                ErrorView,
            >(None)
        }),
{
}

} // verus!
