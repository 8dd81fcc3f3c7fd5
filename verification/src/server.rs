//! The server: who is let in, and where streams lead.

use vstd::prelude::*;

use crate::auth::{decode_auth, read_and_verify_auth};
use crate::digits::dec;
use crate::error::{ErrorView, Result};
use crate::padding::PaddingFactory;
use crate::session::SharedPadding;
use crate::socks_addr::{addr_text, host_port_of, ip_text_round_trip, SocksAddr, SocksAddrView};
use crate::uot::MAGIC_ADDRESS;
use crate::wire::{decoded, Progress};

verus! {

/// What a server asks of its clients, and the padding scheme that it gives them.
pub struct Server {
    password_hash: [u8; 32],
    padding: SharedPadding,
}

/// Where a stream leads.
pub enum Route {
    /// The stream carries packets.
    UdpOverTcp,
    /// The stream is joined to a connection to this place.
    Connect(String),
}

/// The mathematical value of a [`Route`].
pub enum RouteView {
    UdpOverTcp,
    Connect(Seq<char>),
}

impl View for Route {
    type V = RouteView;

    open spec fn view(&self) -> RouteView {
        match self {
            Route::UdpOverTcp => RouteView::UdpOverTcp,
            Route::Connect(place) => RouteView::Connect(place@),
        }
    }
}

/// A stream to the name that stands for packets carries packets, whatever its port.
pub open spec fn route_of(destination: SocksAddrView) -> RouteView {
    if destination matches SocksAddrView::Domain(host, _) && host == MAGIC_ADDRESS@ {
        RouteView::UdpOverTcp
    } else {
        RouteView::Connect(addr_text(destination))
    }
}

/// Where a stream to this destination leads.
pub fn route(destination: &SocksAddr) -> (route: Route)
    ensures
        route@ == route_of(destination@),
{
    if let SocksAddr::Domain { host, .. } = destination {
        if *host == MAGIC_ADDRESS.to_owned() {
            return Route::UdpOverTcp;
        }
    }
    Route::Connect(destination.to_text())
}

impl Server {
    /// The hash of the password that clients have to know.
    pub closed spec fn expected_hash(self) -> Seq<u8> {
        self.password_hash@
    }

    /// The padding scheme that clients are given.
    pub closed spec fn scheme(self) -> Seq<u8> {
        self.padding@
    }

    pub fn new(password_hash: [u8; 32], padding: PaddingFactory) -> (server: Self)
        ensures
            server.expected_hash() == password_hash@,
            server.scheme() == padding@,
    {
        Server { password_hash, padding: SharedPadding::new(padding) }
    }

    /// A copy of the padding scheme that clients are given.
    pub fn padding(&self) -> (padding: PaddingFactory)
        ensures
            padding@ == self.scheme(),
    {
        self.padding.get()
    }

    /// Checks what a client has sent first.
    pub fn authenticate(&self, bytes: &[u8]) -> (result: Result<Progress<()>>)
        ensures
            decoded(result) == decode_auth(bytes@, self.expected_hash()),
    {
        read_and_verify_auth(bytes, &self.password_hash)
    }
}

/// A stream carries packets if and only if its destination is the name that stands for packets,
/// whatever its port. Every destination that is an address leads to a connection, to a place that
/// reads back as that address; so does every other name, to that name.
pub proof fn streams_lead_to_their_destinations(destination: SocksAddrView)
    ensures
        route_of(destination) is UdpOverTcp <==> (destination matches SocksAddrView::Domain(host, _) && host
            == "sp.v2.udp-over-tcp.arpa"@),
        destination matches SocksAddrView::Ip(addr) ==> (addr.ip is V4 ==> addr.scope_id == 0) ==> (route_of(
            destination,
        ) matches RouteView::Connect(place) && host_port_of(place) == Ok::<SocksAddrView, ErrorView>(destination)),
        destination matches SocksAddrView::Ip(_) ==> route_of(destination) is Connect,
        destination matches SocksAddrView::Domain(host, port) ==> host != "sp.v2.udp-over-tcp.arpa"@ && !host.contains(
            ':',
        ) ==> route_of(destination) == RouteView::Connect(host + ":"@ + dec(port as nat)),
        destination matches SocksAddrView::Domain(host, port) ==> host != "sp.v2.udp-over-tcp.arpa"@ && host.contains(
            ':',
        ) ==> route_of(destination) == RouteView::Connect("["@ + host + "]:"@ + dec(port as nat)),
{
    if let SocksAddrView::Ip(addr) = destination {
        if addr.ip is V4 ==> addr.scope_id == 0 {
            ip_text_round_trip(addr);
        }
    }
}

} // verus!
