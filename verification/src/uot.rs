//! UDP over TCP: packets with their destinations, on a stream.

use vstd::prelude::*;
use vstd::slice::{slice_subrange, slice_to_vec};

use crate::digits::{dec, dec_text};
use crate::error::{AnyTlsError, ErrorView, Result};
use crate::ip::SocketAddr;
use crate::socks_addr::{
    addr_bytes, addr_round_trip, decode_addr, partial_addr_waits, unscoped, writable, AddrFormat, SocksAddr,
    SocksAddrView,
};
use crate::wire::{
    be_bytes, be_value, decoded, lemma_be_bytes_len, lemma_be_round_trip, lemma_pow256_values, push_be, read_be,
    short_numbers_byte_by_byte, Decoded, Progress,
};

verus! {

/// The version of the format.
pub const VERSION: u8 = 2;

/// The name that a client asks for to carry packets over a stream.
pub const MAGIC_ADDRESS: &'static str = "sp.v2.udp-over-tcp.arpa";

/// What a client asks for first on such a stream.
#[derive(Debug, PartialEq, Eq)]
pub struct Request {
    /// All packets go to, and come from, one destination.
    pub is_connect: bool,
    pub destination: SocksAddr,
}

/// The mathematical value of a [`Request`].
#[verifier::ext_equal]
pub struct RequestView {
    pub is_connect: bool,
    pub destination: SocksAddrView,
}

impl View for Request {
    type V = RequestView;

    open spec fn view(&self) -> RequestView {
        RequestView { is_connect: self.is_connect, destination: self.destination@ }
    }
}

impl Clone for Request {
    fn clone(&self) -> (copy: Self)
        ensures
            copy@ == self@,
    {
        Request { is_connect: self.is_connect, destination: self.destination.clone() }
    }
}

/// A request as it is written.
pub open spec fn request_bytes(request: RequestView) -> Seq<u8> {
    seq![if request.is_connect { 1u8 } else { 0u8 }] + addr_bytes(request.destination, AddrFormat::Socks)
}

/// What the bytes at the start of a stream make: a request, or the need for more bytes, or an
/// error.
pub open spec fn decode_request(bytes: Seq<u8>) -> Decoded<RequestView> {
    if bytes.len() < 1 {
        Decoded::Need(1)
    } else {
        match decode_addr(bytes.skip(1), AddrFormat::Socks) {
            Decoded::Done(destination, n) => Decoded::Done(
                RequestView { is_connect: bytes[0] != 0, destination },
                n + 1,
            ),
            Decoded::Need(n) => Decoded::Need(n + 1),
            Decoded::Failed(err) => Decoded::Failed(err),
        }
    }
}

/// A packet as it is written. Its length field holds the low 16 bits of the length.
pub open spec fn packet_bytes(destination: Option<SocksAddrView>, payload: Seq<u8>) -> Seq<u8> {
    let before = match destination {
        Some(destination) => addr_bytes(destination, AddrFormat::Uot),
        None => Seq::empty(),
    };
    before + be_bytes((payload.len() % 0x1_0000) as nat, 2) + payload
}

/// The packet behind a destination that took `start` bytes.
pub open spec fn decode_payload(
    bytes: Seq<u8>,
    start: int,
    destination: SocksAddrView,
) -> Decoded<(Seq<u8>, SocksAddrView)> {
    if bytes.len() < start + 2 {
        Decoded::Need(start + 2)
    } else {
        let total = start + 2 + be_value(bytes.subrange(start, start + 2));
        if bytes.len() < total {
            Decoded::Need(total)
        } else {
            Decoded::Done((bytes.subrange(start + 2, total), destination), total)
        }
    }
}

/// What the bytes at the start of a buffer make: a packet, or the need for more bytes, or an
/// error. On a stream with one destination packets do not name it.
pub open spec fn decode_packet(
    bytes: Seq<u8>,
    connected: Option<SocksAddrView>,
) -> Decoded<(Seq<u8>, SocksAddrView)> {
    match connected {
        Some(destination) => decode_payload(bytes, 0, destination),
        None => match decode_addr(bytes, AddrFormat::Uot) {
            Decoded::Done(destination, start) => decode_payload(bytes, start, destination),
            Decoded::Need(n) => Decoded::Need(n),
            Decoded::Failed(err) => Decoded::Failed(err),
        },
    }
}

/// A request that was written is read back, whatever follows it.
pub proof fn request_round_trip(request: RequestView, rest: Seq<u8>)
    requires
        writable(request.destination),
    ensures
        decode_request(request_bytes(request) + rest) == Decoded::Done(
            RequestView { destination: unscoped(request.destination), ..request },
            request_bytes(request).len() as int,
        ),
{
    let bytes = request_bytes(request) + rest;
    addr_round_trip(request.destination, AddrFormat::Socks, rest);
    assert(bytes.skip(1) =~= addr_bytes(request.destination, AddrFormat::Socks) + rest);
}

/// A part of a request is never taken for one: more bytes are asked for, and never more than the
/// request has.
pub proof fn partial_request_waits(request: RequestView, n: int)
    requires
        writable(request.destination),
        0 <= n < request_bytes(request).len(),
    ensures
        decode_request(request_bytes(request).take(n)) matches Decoded::Need(total) && n < total <= request_bytes(
            request,
        ).len(),
{
    let part = request_bytes(request).take(n);
    if n > 0 {
        partial_addr_waits(request.destination, AddrFormat::Socks, n - 1);
        assert(part.skip(1) =~= addr_bytes(request.destination, AddrFormat::Socks).take(n - 1));
    }
}

/// A packet that was written is read back, whatever follows it, on either sort of stream.
#[verifier::rlimit(60)]
pub proof fn packet_round_trip(
    written: Option<SocksAddrView>,
    connected: Option<SocksAddrView>,
    payload: Seq<u8>,
    rest: Seq<u8>,
)
    requires
        (written is None) != (connected is None),
        written is Some ==> writable(written->0),
        payload.len() < 0x1_0000,
    ensures
        decode_packet(packet_bytes(written, payload) + rest, connected) == Decoded::Done(
            (
                payload,
                match connected {
                    Some(destination) => destination,
                    None => unscoped(written->0),
                },
            ),
            packet_bytes(written, payload).len() as int,
        ),
{
    let bytes = packet_bytes(written, payload) + rest;
    let length = be_bytes(payload.len(), 2);
    lemma_be_bytes_len(payload.len(), 2);
    lemma_pow256_values();
    lemma_be_round_trip(payload.len(), 2);
    let before = match written {
        Some(destination) => addr_bytes(destination, AddrFormat::Uot),
        None => Seq::empty(),
    };
    let start = before.len() as int;
    if written is Some {
        addr_round_trip(written->0, AddrFormat::Uot, length + payload + rest);
        assert(bytes =~= before + (length + payload + rest));
    }
    assert(bytes.subrange(start, start + 2) =~= length);
    assert(bytes.subrange(start + 2, start + 2 + payload.len()) =~= payload);
}

/// A part of a packet is never taken for one: more bytes are asked for, and never more than the
/// packet has.
#[verifier::rlimit(60)]
pub proof fn partial_packet_waits(
    written: Option<SocksAddrView>,
    connected: Option<SocksAddrView>,
    payload: Seq<u8>,
    n: int,
)
    requires
        (written is None) != (connected is None),
        written is Some ==> writable(written->0),
        payload.len() < 0x1_0000,
        0 <= n < packet_bytes(written, payload).len(),
    ensures
        decode_packet(packet_bytes(written, payload).take(n), connected) matches Decoded::Need(total) && n < total
            <= packet_bytes(written, payload).len(),
{
    let bytes = packet_bytes(written, payload);
    let part = bytes.take(n);
    let length = be_bytes(payload.len(), 2);
    lemma_be_bytes_len(payload.len(), 2);
    lemma_pow256_values();
    lemma_be_round_trip(payload.len(), 2);
    let before = match written {
        Some(destination) => addr_bytes(destination, AddrFormat::Uot),
        None => Seq::empty(),
    };
    let start = before.len() as int;
    if n < start {
        partial_addr_waits(written->0, AddrFormat::Uot, n);
        assert(part =~= before.take(n));
    } else {
        if written is Some {
            addr_round_trip(written->0, AddrFormat::Uot, (length + payload).take(n - start));
            assert(part =~= before + (length + payload).take(n - start));
        }
        if n >= start + 2 {
            assert(part.subrange(start, start + 2) =~= length);
        }
    }
}

impl Request {
    /// The request as it is written.
    pub fn encode(&self) -> (bytes: Result<Vec<u8>>)
        ensures
            match bytes {
                Ok(bytes) => writable(self@.destination) && bytes@ == request_bytes(self@),
                Err(err) => !writable(self@.destination) && err@ == ErrorView::Protocol(
                    "domain name is too long"@,
                ),
            },
    {
        let destination = match self.destination.to_bytes() {
            Ok(destination) => destination,
            Err(err) => {
                return Err(err);
            },
        };
        let mut out: Vec<u8> = Vec::new();
        out.push(if self.is_connect { 1 } else { 0 });
        out.extend_from_slice(destination.as_slice());
        assert(out@ =~= request_bytes(self@));
        Ok(out)
    }

    /// Reads the request at the start of what has come in. Until it is all there, the result says
    /// how many bytes are needed.
    pub fn read_from(bytes: &[u8]) -> (request: Result<Progress<Self>>)
        ensures
            decoded(request) == decode_request(bytes@),
    {
        if bytes.len() < 1 {
            return Ok(Progress::Need { total: 1 });
        }
        let rest = slice_subrange(bytes, 1, bytes.len());
        assert(rest@ =~= bytes@.skip(1));
        match SocksAddr::read_from(rest) {
            Ok(Progress::Done { value, consumed }) => Ok(
                Progress::Done {
                    value: Request { is_connect: bytes[0] != 0, destination: value },
                    consumed: consumed + 1,
                },
            ),
            Ok(Progress::Need { total }) => Ok(Progress::Need { total: total + 1 }),
            Err(err) => Err(err),
        }
    }

    /// The one destination of the stream, if it has one.
    pub fn connected_destination(&self) -> (destination: Option<&SocksAddr>)
        ensures
            match destination {
                Some(destination) => self.is_connect && *destination == self.destination,
                None => !self.is_connect,
            },
    {
        if self.is_connect {
            Some(&self.destination)
        } else {
            None
        }
    }

    /// What a packet that came from `source` goes out to the client as.
    pub fn encode_reply(&self, source: SocketAddr, payload: &[u8]) -> (bytes: Result<Vec<u8>>)
        ensures
            bytes is Ok,
            bytes->Ok_0@ == packet_bytes(
                if self.is_connect {
                    None
                } else {
                    Some(SocksAddrView::Ip(source))
                },
                payload@,
            ),
    {
        if self.is_connect {
            encode_packet(None, payload)
        } else {
            let source = SocksAddr::Ip(source);
            encode_packet(Some(&source), payload)
        }
    }
}

/// The destination that a client asks for to carry packets over a stream.
pub fn request_destination() -> (addr: SocksAddr)
    ensures
        addr@ == SocksAddrView::Domain(MAGIC_ADDRESS@, 0),
{
    SocksAddr::domain(MAGIC_ADDRESS, 0)
}

/// A packet as it is written.
pub fn encode_packet(destination: Option<&SocksAddr>, payload: &[u8]) -> (bytes: Result<Vec<u8>>)
    ensures
        match bytes {
            Ok(bytes) => (destination is Some ==> writable(destination->0@)) && bytes@ == packet_bytes(
                match destination {
                    Some(destination) => Some(destination@),
                    None => None,
                },
                payload@,
            ),
            Err(err) => destination is Some && !writable(destination->0@) && err@ == ErrorView::Protocol(
                "domain name is too long"@,
            ),
        },
{
    let mut out: Vec<u8> = Vec::new();
    if let Some(destination) = destination {
        match destination.to_format(AddrFormat::Uot) {
            Ok(bytes) => {
                out = bytes;
            },
            Err(err) => {
                return Err(err);
            },
        }
    }
    push_be(&mut out, (payload.len() % 0x1_0000) as u128, 2);
    out.extend_from_slice(payload);
    Ok(out)
}

fn read_payload(bytes: &[u8], start: usize, destination: SocksAddr) -> (packet: Result<
    Progress<(Vec<u8>, SocksAddr)>,
>)
    requires
        start <= 300,
    ensures
        decoded(packet) == decode_payload(bytes@, start as int, destination@),
{
    if bytes.len() < start + 2 {
        return Ok(Progress::Need { total: start + 2 });
    }
    proof {
        lemma_pow256_values();
    }
    let total: usize = start + 2 + read_be(bytes, start, start + 2) as usize;
    if bytes.len() < total {
        return Ok(Progress::Need { total });
    }
    let payload = slice_to_vec(slice_subrange(bytes, start + 2, total));
    Ok(Progress::Done { value: (payload, destination), consumed: total })
}

/// Reads the packet at the start of what has come in. Until it is all there, the result says how
/// many bytes are needed.
pub fn read_packet(bytes: &[u8], connected_destination: Option<&SocksAddr>) -> (packet: Result<
    Progress<(Vec<u8>, SocksAddr)>,
>)
    ensures
        decoded(packet) == decode_packet(
            bytes@,
            match connected_destination {
                Some(destination) => Some(destination@),
                None => None,
            },
        ),
{
    match connected_destination {
        Some(destination) => read_payload(bytes, 0, destination.clone()),
        None => match SocksAddr::read_format(bytes, AddrFormat::Uot) {
            Ok(Progress::Done { value, consumed }) => read_payload(bytes, consumed, value),
            Ok(Progress::Need { total }) => Ok(Progress::Need { total }),
            Err(err) => Err(err),
        },
    }
}

/// The address to which packets for a destination are sent, given the first address that its name
/// was resolved to.
pub fn resolved_udp_addr(destination: &SocksAddr, resolved: Option<SocketAddr>) -> (addr: Result<SocketAddr>)
    ensures
        match destination@ {
            SocksAddrView::Ip(ip) => addr matches Ok(addr) && addr == ip,
            SocksAddrView::Domain(host, port) => match resolved {
                Some(first) => addr matches Ok(addr) && addr == first,
                None => addr matches Err(err) && err@ == ErrorView::Protocol(
                    "failed to resolve udp address: "@ + host + ":"@ + dec(port as nat),
                ),
            },
        },
{
    match destination {
        SocksAddr::Ip(addr) => Ok(*addr),
        SocksAddr::Domain { host, port } => match resolved {
            Some(first) => Ok(first),
            None => {
                let text = String::from_str("failed to resolve udp address: ").concat(host.as_str()).concat(":").concat(
                    dec_text(*port as u64).as_str(),
                );
                Err(AnyTlsError::protocol(text.as_str()))
            },
        },
    }
}

/// A request says in its first byte whether its stream has one destination: zero stands for no, and
/// anything else for yes. The destination follows.
pub proof fn the_first_byte_tells_the_sort_of_stream(first: u8, destination: SocksAddrView, rest: Seq<u8>)
    requires
        writable(destination),
    ensures
        decode_request(seq![first] + addr_bytes(destination, AddrFormat::Socks) + rest) == Decoded::Done(
            RequestView { is_connect: first != 0, destination: unscoped(destination) },
            1 + addr_bytes(destination, AddrFormat::Socks).len() as int,
        ),
        request_bytes(RequestView { is_connect: true, destination }) == seq![1u8] + addr_bytes(
            destination,
            AddrFormat::Socks,
        ),
        request_bytes(RequestView { is_connect: false, destination }) == seq![0u8] + addr_bytes(
            destination,
            AddrFormat::Socks,
        ),
{
    let bytes = seq![first] + addr_bytes(destination, AddrFormat::Socks) + rest;
    addr_round_trip(destination, AddrFormat::Socks, rest);
    assert(bytes.skip(1) =~= addr_bytes(destination, AddrFormat::Socks) + rest);
}

/// A packet is laid out as its destination, where it names one, the length of its payload in two
/// bytes, the high one first, and its payload.
pub proof fn packets_have_this_layout(destination: SocksAddrView, payload: Seq<u8>)
    requires
        payload.len() <= 65535,
    ensures
        ({
            let framed = seq![(payload.len() / 256) as u8, (payload.len() % 256) as u8] + payload;
            &&& packet_bytes(None, payload) == framed
            &&& packet_bytes(Some(destination), payload) == addr_bytes(destination, AddrFormat::Uot) + framed
        }),
{
    let n = payload.len();
    let framed = seq![(n / 256) as u8, (n % 256) as u8] + payload;
    short_numbers_byte_by_byte((n % 0x1_0000) as nat);
    assert(packet_bytes(None, payload) =~= framed);
    assert(packet_bytes(Some(destination), payload) =~= addr_bytes(destination, AddrFormat::Uot) + framed);
}

/// A stream for packets is asked for by a name that leads to them on the server.
pub proof fn the_request_for_packets_is_understood(port: u16)
    ensures
        crate::server::route_of(SocksAddrView::Domain(MAGIC_ADDRESS@, port)) is UdpOverTcp,
{
}

} // verus!
