//! AnyTLS: a proxy protocol that multiplexes streams over one TLS session and pads the first
//! records of that session.

pub mod auth;
pub mod buffer;
pub mod cli;
pub mod client;
pub mod config;
pub mod crypto;
pub mod dialer;
pub mod digits;
pub mod encoding;
pub mod error;
pub mod frame;
pub mod inbound;
pub mod ip;
pub mod order;
pub mod padding;
pub mod reality;
pub mod server;
pub mod session;
pub mod settings;
pub mod socks_addr;
pub mod stream;
pub mod tcp_brutal;
pub mod text;
pub mod tls;
pub mod uot;
pub mod uri;
pub mod wire;
pub mod writer;

pub use error::{AnyTlsError, Result};

use vstd::prelude::*;

verus! {

/// What this program calls itself in the settings frame.
pub const PROGRAM_VERSION_NAME: &'static str = "anytls-rust/0.1.0";

} // verus!
