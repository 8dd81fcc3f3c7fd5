//! What local programs ask the client for: SOCKS4, SOCKS5 and HTTP proxy requests.

use vstd::prelude::*;
use vstd::slice::{slice_subrange, slice_to_vec};
use vstd::utf8::{decode_utf8, encode_utf8, encode_utf8_decode_utf8, encode_utf8_valid_utf8, valid_utf8};

use crate::error::{AnyTlsError, ErrorView, IoError, IoErrorKind, Result};
use crate::ip::{IpAddr, SocketAddr};
use crate::socks_addr::{
    addr_bytes, addr_round_trip, decode_addr, host_port_of, partial_addr_waits, unscoped, writable, AddrFormat,
    SocksAddr, SocksAddrView,
};
use crate::text::{
    ascii_lower_all, chars_of, is_word, same_ignoring_case, text_of, utf8_text, views, whitespace_parts_words, words,
    words_of,
};
use crate::uri::{parse_url, url_of, UrlParts, UrlView};
use crate::wire::{be_value, decoded, lemma_pow256_values, read_be, Decoded, Progress};

verus! {

/// The protocols that a local program may speak.
#[derive(Clone, Copy, Debug, PartialEq, Eq, Structural)]
pub enum InboundKind {
    Socks4,
    Socks5,
    Http,
}

/// The protocol that starts with this byte.
pub open spec fn kind_of(first: u8) -> InboundKind {
    if first == 4 {
        InboundKind::Socks4
    } else if first == 5 {
        InboundKind::Socks5
    } else {
        InboundKind::Http
    }
}

/// The protocol that starts with this byte.
pub fn inbound_kind(first: u8) -> (kind: InboundKind)
    ensures
        kind == kind_of(first),
{
    match first {
        4 => InboundKind::Socks4,
        5 => InboundKind::Socks5,
        _ => InboundKind::Http,
    }
}

// SOCKS5.

/// A SOCKS5 greeting: the version, and the methods that the program knows.
pub open spec fn decode_greeting(bytes: Seq<u8>) -> Decoded<()> {
    if bytes.len() < 1 {
        Decoded::Need(1)
    } else if bytes[0] != 5 {
        Decoded::Failed(ErrorView::Protocol("invalid SOCKS5 version"@))
    } else if bytes.len() < 2 {
        Decoded::Need(2)
    } else if bytes.len() < 2 + bytes[1] {
        Decoded::Need(2 + bytes[1])
    } else {
        Decoded::Done((), 2 + bytes[1])
    }
}

/// What a SOCKS5 program asks for.
pub enum Socks5Request {
    Connect(SocksAddr),
    UdpAssociate(SocksAddr),
}

/// The mathematical value of a [`Socks5Request`].
#[verifier::ext_equal]
pub enum Socks5View {
    Connect(SocksAddrView),
    UdpAssociate(SocksAddrView),
}

impl View for Socks5Request {
    type V = Socks5View;

    open spec fn view(&self) -> Socks5View {
        match self {
            Socks5Request::Connect(addr) => Socks5View::Connect(addr@),
            Socks5Request::UdpAssociate(addr) => Socks5View::UdpAssociate(addr@),
        }
    }
}

/// A SOCKS5 request: version, command, a byte without meaning, and a destination.
pub open spec fn decode_socks5(bytes: Seq<u8>) -> Decoded<Socks5View> {
    if bytes.len() < 3 {
        Decoded::Need(3)
    } else if bytes[0] != 5 {
        Decoded::Failed(ErrorView::Protocol("invalid SOCKS5 request version"@))
    } else {
        match decode_addr(bytes.skip(3), AddrFormat::SocksRequest) {
            Decoded::Need(n) => Decoded::Need(n + 3),
            Decoded::Failed(err) => Decoded::Failed(err),
            Decoded::Done(addr, n) => if bytes[1] == 3 {
                Decoded::Done(Socks5View::UdpAssociate(addr), n + 3)
            } else if bytes[1] == 1 {
                Decoded::Done(Socks5View::Connect(addr), n + 3)
            } else {
                Decoded::Failed(
                    ErrorView::Protocol("only SOCKS5 CONNECT and UDP ASSOCIATE are supported"@),
                )
            },
        }
    }
}

/// Reads a greeting at the start of what has come in.
pub fn read_greeting(bytes: &[u8]) -> (greeting: Result<Progress<()>>)
    ensures
        decoded(greeting) == decode_greeting(bytes@),
{
    if bytes.len() < 1 {
        return Ok(Progress::Need { total: 1 });
    }
    if bytes[0] != 5 {
        return Err(AnyTlsError::protocol("invalid SOCKS5 version"));
    }
    if bytes.len() < 2 {
        return Ok(Progress::Need { total: 2 });
    }
    let total: usize = 2 + bytes[1] as usize;
    if bytes.len() < total {
        return Ok(Progress::Need { total });
    }
    Ok(Progress::Done { value: (), consumed: total })
}

/// Reads a request at the start of what has come in.
pub fn read_socks5_request(bytes: &[u8]) -> (request: Result<Progress<Socks5Request>>)
    ensures
        decoded(request) == decode_socks5(bytes@),
{
    if bytes.len() < 3 {
        return Ok(Progress::Need { total: 3 });
    }
    if bytes[0] != 5 {
        return Err(AnyTlsError::protocol("invalid SOCKS5 request version"));
    }
    let rest = slice_subrange(bytes, 3, bytes.len());
    assert(rest@ =~= bytes@.skip(3));
    match SocksAddr::read_format(rest, AddrFormat::SocksRequest) {
        Ok(Progress::Done { value, consumed }) => {
            if bytes[1] == 3 {
                Ok(Progress::Done { value: Socks5Request::UdpAssociate(value), consumed: consumed + 3 })
            } else if bytes[1] == 1 {
                Ok(Progress::Done { value: Socks5Request::Connect(value), consumed: consumed + 3 })
            } else {
                Err(AnyTlsError::protocol("only SOCKS5 CONNECT and UDP ASSOCIATE are supported"))
            }
        },
        Ok(Progress::Need { total }) => Ok(Progress::Need { total: total + 3 }),
        Err(err) => Err(err),
    }
}

/// The answer to a SOCKS5 program that packets are taken at this address.
pub open spec fn bound_reply(addr: SocketAddr) -> Seq<u8> {
    seq![5u8, 0u8, 0u8] + addr_bytes(SocksAddrView::Ip(addr), AddrFormat::Socks)
}

/// The answer to a SOCKS5 program that packets are taken at this address.
pub fn udp_associate_reply(addr: SocketAddr) -> (reply: Vec<u8>)
    ensures
        reply@ == bound_reply(addr),
{
    let bytes = SocksAddr::Ip(addr).to_bytes().unwrap();
    let mut reply: Vec<u8> = vec![5u8, 0u8, 0u8];
    reply.extend_from_slice(bytes.as_slice());
    assert(reply@ =~= bound_reply(addr));
    reply
}

/// A SOCKS5 UDP packet: three zero bytes, a destination and the payload.
pub open spec fn udp_packet_bytes(addr: SocksAddrView, payload: Seq<u8>) -> Seq<u8> {
    seq![0u8, 0u8, 0u8] + addr_bytes(addr, AddrFormat::Socks) + payload
}

/// What a SOCKS5 UDP packet holds.
pub open spec fn udp_packet_of(packet: Seq<u8>) -> core::result::Result<(Seq<u8>, SocksAddrView), ErrorView> {
    if packet.len() < 4 {
        Err(ErrorView::Protocol("SOCKS5 UDP packet is too short"@))
    } else if packet[0] != 0 || packet[1] != 0 {
        Err(ErrorView::Protocol("SOCKS5 UDP packet has invalid RSV"@))
    } else if packet[2] != 0 {
        Err(ErrorView::Protocol("SOCKS5 UDP fragmentation is not supported"@))
    } else {
        match decode_addr(packet.skip(3), AddrFormat::SocksUdp) {
            Decoded::Done(addr, n) => Ok((packet.skip(3 + n), addr)),
            Decoded::Need(_) => Err(ErrorView::Io(IoErrorKind::UnexpectedEof, "failed to fill whole buffer"@)),
            Decoded::Failed(err) => Err(err),
        }
    }
}

/// A SOCKS5 UDP packet gives back what was put into it.
pub proof fn udp_packet_round_trip(addr: SocksAddrView, payload: Seq<u8>)
    requires
        writable(addr),
    ensures
        udp_packet_of(udp_packet_bytes(addr, payload)) == Ok::<(Seq<u8>, SocksAddrView), ErrorView>(
            (payload, unscoped(addr)),
        ),
{
    let packet = udp_packet_bytes(addr, payload);
    let written = addr_bytes(addr, AddrFormat::Socks);
    assert(written =~= addr_bytes(addr, AddrFormat::SocksUdp));
    addr_round_trip(addr, AddrFormat::SocksUdp, payload);
    assert(packet.skip(3) =~= written + payload);
    assert(packet.skip(3 + written.len() as int) =~= payload);
}

/// The mathematical value of a packet that was read.
pub open spec fn packet_view(packet: Result<(Vec<u8>, SocksAddr)>) -> core::result::Result<
    (Seq<u8>, SocksAddrView),
    ErrorView,
> {
    match packet {
        Ok((payload, addr)) => Ok((payload@, addr@)),
        Err(err) => Err(err@),
    }
}

/// Reads a SOCKS5 UDP packet.
pub fn decode_socks5_udp_packet(packet: &[u8]) -> (result: Result<(Vec<u8>, SocksAddr)>)
    ensures
        packet_view(result) == udp_packet_of(packet@),
{
    if packet.len() < 4 {
        return Err(AnyTlsError::protocol("SOCKS5 UDP packet is too short"));
    }
    if packet[0] != 0 || packet[1] != 0 {
        return Err(AnyTlsError::protocol("SOCKS5 UDP packet has invalid RSV"));
    }
    if packet[2] != 0 {
        return Err(AnyTlsError::protocol("SOCKS5 UDP fragmentation is not supported"));
    }
    let rest = slice_subrange(packet, 3, packet.len());
    assert(rest@ =~= packet@.skip(3));
    match SocksAddr::read_format(rest, AddrFormat::SocksUdp) {
        Ok(Progress::Done { value, consumed }) => {
            let payload = slice_to_vec(slice_subrange(rest, consumed, rest.len()));
            assert(payload@ =~= packet@.skip(3 + consumed));
            Ok((payload, value))
        },
        Ok(Progress::Need { .. }) => Err(
            AnyTlsError::Io(
                IoError {
                    kind: IoErrorKind::UnexpectedEof,
                    message: String::from_str("failed to fill whole buffer"),
                },
            ),
        ),
        Err(err) => Err(err),
    }
}

/// Writes a SOCKS5 UDP packet.
pub fn encode_socks5_udp_packet(source: &SocksAddr, payload: &[u8]) -> (packet: Result<Vec<u8>>)
    ensures
        match packet {
            Ok(packet) => writable(source@) && packet@ == udp_packet_bytes(source@, payload@),
            Err(err) => !writable(source@) && err@ == ErrorView::Protocol("domain name is too long"@),
        },
{
    let addr = match source.to_bytes() {
        Ok(addr) => addr,
        Err(err) => {
            return Err(err);
        },
    };
    let mut packet: Vec<u8> = vec![0u8, 0u8, 0u8];
    packet.extend_from_slice(addr.as_slice());
    packet.extend_from_slice(payload);
    assert(packet@ =~= udp_packet_bytes(source@, payload@));
    Ok(packet)
}

// SOCKS4.

/// The longest text that may stand before a zero byte.
pub const MAX_FIELD_LEN: usize = 4096;

/// Where the first zero byte at or behind `from` stands, or the length.
pub open spec fn nul_index(bytes: Seq<u8>, from: int) -> int
    decreases bytes.len() - from,
{
    if from < 0 || from >= bytes.len() {
        bytes.len() as int
    } else if bytes[from] == 0 {
        from
    } else {
        nul_index(bytes, from + 1)
    }
}

/// A field from `from` up to the next zero byte: where it ends.
pub open spec fn decode_field(bytes: Seq<u8>, from: int) -> Decoded<()> {
    let end = nul_index(bytes, from);
    if end - from > MAX_FIELD_LEN {
        Decoded::Failed(ErrorView::Protocol("NUL-terminated field is too long"@))
    } else if end < bytes.len() {
        Decoded::Done((), end)
    } else {
        Decoded::Need(bytes.len() as int + 1)
    }
}

/// An address that stands for a name behind it.
pub open spec fn names_host(ip: nat) -> bool {
    0 < ip < 256
}

/// A SOCKS4 request: version, command, port, address, a user's name and, where the address stands
/// for one, the name of a host.
pub open spec fn decode_socks4(bytes: Seq<u8>) -> Decoded<SocksAddrView> {
    if bytes.len() < 2 {
        Decoded::Need(2)
    } else if bytes[0] != 4 || bytes[1] != 1 {
        Decoded::Failed(ErrorView::Protocol("only SOCKS4 CONNECT is supported"@))
    } else if bytes.len() < 8 {
        Decoded::Need(8)
    } else {
        let port = be_value(bytes.subrange(2, 4)) as u16;
        let ip = be_value(bytes.subrange(4, 8));
        match decode_field(bytes, 8) {
            Decoded::Need(n) => Decoded::Need(n),
            Decoded::Failed(err) => Decoded::Failed(err),
            Decoded::Done(_, user_end) => if names_host(ip) {
                match decode_field(bytes, user_end + 1) {
                    Decoded::Need(n) => Decoded::Need(n),
                    Decoded::Failed(err) => Decoded::Failed(err),
                    Decoded::Done(_, end) => {
                        let host = bytes.subrange(user_end + 1, end);
                        if valid_utf8(host) {
                            Decoded::Done(SocksAddrView::Domain(decode_utf8(host), port), end + 1)
                        } else {
                            Decoded::Failed(ErrorView::Protocol("SOCKS4a domain is not UTF-8"@))
                        }
                    },
                }
            } else {
                Decoded::Done(
                    SocksAddrView::Ip(SocketAddr { ip: IpAddr::V4(ip as u32), port, scope_id: 0 }),
                    user_end + 1,
                )
            },
        }
    }
}

proof fn lemma_nul_index(bytes: Seq<u8>, from: int, at: int)
    requires
        0 <= from <= at <= bytes.len(),
        forall|j: int| from <= j < at ==> bytes[j] != 0,
        at < bytes.len() ==> bytes[at] == 0,
    ensures
        nul_index(bytes, from) == at,
    decreases at - from,
{
    if from < at {
        lemma_nul_index(bytes, from + 1, at);
    }
}

/// Reads a field from `from` up to the next zero byte.
fn read_field(bytes: &[u8], from: usize) -> (end: Result<Progress<()>>)
    requires
        from <= bytes@.len(),
        from <= 8 + MAX_FIELD_LEN + 1,
    ensures
        decoded(end) == decode_field(bytes@, from as int),
        end matches Ok(Progress::Done { consumed, .. }) ==> from <= consumed < bytes@.len() && consumed - from
            <= MAX_FIELD_LEN,
{
    let mut at: usize = from;
    while at < bytes.len() && bytes[at] != 0
        invariant
            from <= at <= bytes@.len(),
            forall|j: int| from <= j < at ==> bytes@[j] != 0,
        decreases bytes@.len() - at,
    {
        at = at + 1;
    }
    proof {
        lemma_nul_index(bytes@, from as int, at as int);
    }
    if at - from > MAX_FIELD_LEN {
        return Err(AnyTlsError::protocol("NUL-terminated field is too long"));
    }
    if at < bytes.len() {
        Ok(Progress::Done { value: (), consumed: at })
    } else {
        Ok(Progress::Need { total: at + 1 })
    }
}

/// Reads a SOCKS4 request at the start of what has come in.
pub fn read_socks4_request(bytes: &[u8]) -> (request: Result<Progress<SocksAddr>>)
    ensures
        decoded(request) == decode_socks4(bytes@),
{
    if bytes.len() < 2 {
        return Ok(Progress::Need { total: 2 });
    }
    if bytes[0] != 4 || bytes[1] != 1 {
        return Err(AnyTlsError::protocol("only SOCKS4 CONNECT is supported"));
    }
    if bytes.len() < 8 {
        return Ok(Progress::Need { total: 8 });
    }
    proof {
        lemma_pow256_values();
    }
    let port: u16 = read_be(bytes, 2, 4) as u16;
    let ip: u32 = read_be(bytes, 4, 8) as u32;
    let user_end: usize = match read_field(bytes, 8) {
        Ok(Progress::Done { consumed, .. }) => consumed,
        Ok(Progress::Need { total }) => {
            return Ok(Progress::Need { total });
        },
        Err(err) => {
            return Err(err);
        },
    };
    if !(0 < ip && ip < 256) {
        return Ok(
            Progress::Done {
                value: SocksAddr::Ip(SocketAddr::new(IpAddr::V4(ip), port)),
                consumed: user_end + 1,
            },
        );
    }
    let end: usize = match read_field(bytes, user_end + 1) {
        Ok(Progress::Done { consumed, .. }) => consumed,
        Ok(Progress::Need { total }) => {
            return Ok(Progress::Need { total });
        },
        Err(err) => {
            return Err(err);
        },
    };
    match utf8_text(slice_to_vec(slice_subrange(bytes, user_end + 1, end))) {
        Some(host) => Ok(Progress::Done { value: SocksAddr::Domain { host, port }, consumed: end + 1 }),
        None => Err(AnyTlsError::protocol("SOCKS4a domain is not UTF-8")),
    }
}

// HTTP.

/// The longest header of an HTTP request.
pub const MAX_HEADER_LEN: usize = 65536;

/// A blank line ends at position `end`.
pub open spec fn blank_line_ends(bytes: Seq<u8>, end: int) -> bool {
    4 <= end <= bytes.len() && bytes[end - 4] == 13 && bytes[end - 3] == 10 && bytes[end - 2] == 13 && bytes[end - 1]
        == 10
}

/// Where the first blank line at or behind `end` ends, or one behind the length.
pub open spec fn header_end(bytes: Seq<u8>, end: int) -> int
    decreases bytes.len() + 1 - end,
{
    if end > bytes.len() {
        bytes.len() as int + 1
    } else if blank_line_ends(bytes, end) {
        end
    } else {
        header_end(bytes, end + 1)
    }
}

/// The header of an HTTP request: everything up to the first blank line.
pub open spec fn decode_header(bytes: Seq<u8>) -> Decoded<()> {
    let end = header_end(bytes, 0);
    if end > MAX_HEADER_LEN {
        if bytes.len() >= MAX_HEADER_LEN {
            Decoded::Failed(ErrorView::Protocol("HTTP header is too large"@))
        } else {
            Decoded::Need(bytes.len() as int + 1)
        }
    } else if end <= bytes.len() {
        Decoded::Done((), end)
    } else {
        Decoded::Need(bytes.len() as int + 1)
    }
}

/// Finds the end of an HTTP request's header in what has come in.
pub fn read_http_header(bytes: &[u8]) -> (header: Result<Progress<()>>)
    ensures
        decoded(header) == decode_header(bytes@),
{
    let mut end: usize = 0;
    while end <= bytes.len() && end <= MAX_HEADER_LEN
        invariant
            end <= bytes@.len() + 1,
            end <= MAX_HEADER_LEN + 1,
            header_end(bytes@, 0) == header_end(bytes@, end as int),
        decreases MAX_HEADER_LEN + 1 - end,
    {
        if end >= 4 && bytes[end - 4] == 13 && bytes[end - 3] == 10 && bytes[end - 2] == 13 && bytes[end - 1] == 10 {
            return Ok(Progress::Done { value: (), consumed: end });
        }
        end = end + 1;
    }
    proof {
        lemma_header_end(bytes@, end as int);
    }
    if bytes.len() >= MAX_HEADER_LEN {
        return Err(AnyTlsError::protocol("HTTP header is too large"));
    }
    Ok(Progress::Need { total: bytes.len() + 1 })
}

proof fn lemma_header_end(bytes: Seq<u8>, end: int)
    requires
        0 <= end <= bytes.len() + 1,
    ensures
        end <= header_end(bytes, end) <= bytes.len() + 1,
    decreases bytes.len() + 1 - end,
{
    if end <= bytes.len() && !blank_line_ends(bytes, end) {
        lemma_header_end(bytes, end + 1);
    }
}

/// What an HTTP program asks for.
pub enum HttpRequest {
    /// A connection to this destination.
    Connect(SocksAddr),
    /// A request that is passed on to this destination, as the text says.
    Forward(SocksAddr, String),
}

/// The mathematical value of an [`HttpRequest`].
#[verifier::ext_equal]
pub enum HttpView {
    Connect(SocksAddrView),
    Forward(SocksAddrView, Seq<char>),
}

impl View for HttpRequest {
    type V = HttpView;

    open spec fn view(&self) -> HttpView {
        match self {
            HttpRequest::Connect(addr) => HttpView::Connect(addr@),
            HttpRequest::Forward(addr, text) => HttpView::Forward(addr@, text@),
        }
    }
}

/// Where a line ends, or the length.
pub open spec fn line_end(text: Seq<char>) -> int
    decreases text.len(),
{
    if text.len() < 2 {
        text.len() as int
    } else if text[0] == '\r' && text[1] == '\n' {
        0
    } else {
        1 + line_end(text.drop_first())
    }
}

/// The path and query that a request asks its host for.
pub open spec fn request_path(url: UrlView) -> Seq<char> {
    let path = if url.path.len() == 0 {
        seq!['/']
    } else {
        url.path
    };
    match url.query {
        Some(query) => path + seq!['?'] + query,
        None => path,
    }
}

/// A request that is passed on. It names no host any more.
pub open spec fn forwarded(
    method: Seq<char>,
    version: Seq<char>,
    rest: Seq<char>,
    url: UrlView,
) -> core::result::Result<HttpView, ErrorView> {
    match url.host {
        None => Err(ErrorView::Protocol("HTTP absolute URI is missing host"@)),
        Some(host) => match url.known_port {
            None => Err(ErrorView::Protocol("HTTP absolute URI is missing port"@)),
            Some(port) => Ok(
                HttpView::Forward(
                    SocksAddrView::Domain(host, port),
                    method + " "@ + request_path(url) + " "@ + version + "\r\n"@ + rest,
                ),
            ),
        },
    }
}

/// What a request says, given what was made of its target as a link.
pub open spec fn http_request_of(
    header: Seq<u8>,
    parsed: core::result::Result<UrlView, Seq<char>>,
) -> core::result::Result<HttpView, ErrorView> {
    if !valid_utf8(header) {
        Err(ErrorView::Protocol("HTTP header is not UTF-8"@))
    } else {
        let text = decode_utf8(header);
        let end = line_end(text);
        if end == text.len() {
            Err(ErrorView::Protocol("invalid HTTP request"@))
        } else {
            let parts = words(text.take(end));
            if parts.len() == 0 {
                Err(ErrorView::Protocol("missing HTTP method"@))
            } else if parts.len() == 1 {
                Err(ErrorView::Protocol("missing HTTP URI"@))
            } else if ascii_lower_all(parts[0]) == ascii_lower_all("CONNECT"@) {
                match host_port_of(parts[1]) {
                    Ok(addr) => Ok(HttpView::Connect(addr)),
                    Err(err) => Err(err),
                }
            } else {
                match parsed {
                    Err(err) => Err(ErrorView::Url(err)),
                    Ok(url) => forwarded(
                        parts[0],
                        if parts.len() > 2 {
                            parts[2]
                        } else {
                            "HTTP/1.1"@
                        },
                        text.skip(end + 2),
                        url,
                    ),
                }
            }
        }
    }
}

/// The target that a request names.
pub open spec fn http_target(header: Seq<u8>) -> Seq<char> {
    words(decode_utf8(header).take(line_end(decode_utf8(header))))[1]
}

proof fn lemma_line_end(text: Seq<char>, end: int)
    requires
        0 <= end <= text.len(),
        forall|j: int| 0 <= j < end && j < text.len() - 1 ==> !(#[trigger] text[j] == '\r' && text[j + 1] == '\n'),
        end < text.len() ==> end + 1 < text.len() && text[end] == '\r' && text[end + 1] == '\n',
    ensures
        line_end(text) == end,
    decreases text.len(),
{
    if text.len() >= 2 && end > 0 {
        assert(!(text[0] == '\r' && text[1] == '\n'));
        let rest = text.drop_first();
        assert forall|j: int| 0 <= j < end - 1 && j < rest.len() - 1 implies !(#[trigger] rest[j] == '\r' && rest[j
            + 1] == '\n') by {
            assert(rest[j] == text[j + 1]);
            assert(rest[j + 1] == text[j + 2]);
        }
        lemma_line_end(rest, end - 1);
    }
}

fn find_line_end(text: &[char]) -> (end: usize)
    ensures
        end == line_end(text@),
        end <= text@.len(),
        end < text@.len() ==> end + 2 <= text@.len(),
{
    let mut end: usize = 0;
    while end < text.len() && !(text.len() - end >= 2 && text[end] == '\r' && text[end + 1] == '\n')
        invariant
            end <= text@.len(),
            forall|j: int|
                0 <= j < end && j < text@.len() - 1 ==> !(#[trigger] text@[j] == '\r' && text@[j + 1] == '\n'),
        decreases text@.len() - end,
    {
        end = end + 1;
    }
    proof {
        lemma_line_end(text@, end as int);
    }
    end
}

/// The request that is passed on for a program that speaks HTTP.
pub fn forward_request(method: &[char], version: &[char], rest: &[char], url: &UrlParts) -> (request: Result<
    HttpRequest,
>)
    ensures
        match request {
            Ok(request) => forwarded(method@, version@, rest@, url@) == Ok::<HttpView, ErrorView>(request@),
            Err(err) => forwarded(method@, version@, rest@, url@) == Err::<HttpView, ErrorView>(err@),
        },
{
    let host = match &url.host {
        Some(host) => host,
        None => {
            return Err(AnyTlsError::protocol("HTTP absolute URI is missing host"));
        },
    };
    let port: u16 = match url.known_port {
        Some(port) => port,
        None => {
            return Err(AnyTlsError::protocol("HTTP absolute URI is missing port"));
        },
    };
    let mut path = url.path.clone();
    if path.as_str().is_empty() {
        path.push('/');
        assert(path@ =~= seq!['/']);
    }
    if let Some(query) = &url.query {
        let ghost before = path@;
        path.push('?');
        path.append(query.as_str());
        assert(path@ =~= before + seq!['?'] + query@);
    }
    let text = text_of(method).concat(" ").concat(path.as_str()).concat(" ").concat(
        text_of(version).as_str(),
    ).concat("\r\n").concat(text_of(rest).as_str());
    Ok(HttpRequest::Forward(SocksAddr::domain(host.as_str(), port), text))
}

/// Reads what a program that speaks HTTP asks for, from its request's header.
pub fn read_http_request(header: &[u8]) -> (request: Result<HttpRequest>)
    ensures
        match request {
            Ok(request) => http_request_of(header@, url_of(http_target(header@))) == Ok::<HttpView, ErrorView>(
                request@,
            ),
            Err(err) => http_request_of(header@, url_of(http_target(header@))) == Err::<HttpView, ErrorView>(err@),
        },
{
    let text = match utf8_text(slice_to_vec(header)) {
        Some(text) => text,
        None => {
            return Err(AnyTlsError::protocol("HTTP header is not UTF-8"));
        },
    };
    let chars = chars_of(text.as_str());
    let end = find_line_end(chars.as_slice());
    if end == chars.len() {
        return Err(AnyTlsError::protocol("invalid HTTP request"));
    }
    let line = slice_subrange(chars.as_slice(), 0, end);
    let rest = slice_subrange(chars.as_slice(), end + 2, chars.len());
    assert(line@ =~= chars@.take(end as int));
    assert(rest@ =~= chars@.skip(end + 2));
    let parts = words_of(line);
    let ghost texts = words(line@);
    assert(texts == views(parts@));
    assert(forall|i: int| 0 <= i < texts.len() ==> #[trigger] texts[i] == parts@[i]@);
    if parts.len() == 0 {
        return Err(AnyTlsError::protocol("missing HTTP method"));
    }
    if parts.len() == 1 {
        return Err(AnyTlsError::protocol("missing HTTP URI"));
    }
    let connect = chars_of("CONNECT");
    let target = text_of(parts[1]);
    if same_ignoring_case(parts[0], connect.as_slice()) {
        return match SocksAddr::parse_host_port(target.as_str()) {
            Ok(addr) => Ok(HttpRequest::Connect(addr)),
            Err(err) => Err(err),
        };
    }
    let default_version = chars_of("HTTP/1.1");
    let version = if parts.len() > 2 {
        parts[2]
    } else {
        default_version.as_slice()
    };
    match parse_url(target.as_str()) {
        Ok(url) => forward_request(parts[0], version, rest, &url),
        Err(err) => Err(AnyTlsError::Url(err)),
    }
}

// What holds of what programs ask for.

/// SOCKS4 and SOCKS5 are told by their versions, and everything else is taken for HTTP.
pub proof fn protocols_are_told_by_their_first_byte(first: u8)
    ensures
        kind_of(first) == InboundKind::Socks4 <==> first == 4,
        kind_of(first) == InboundKind::Socks5 <==> first == 5,
        kind_of(first) == InboundKind::Http <==> first != 4 && first != 5,
{
}

/// A greeting is read to the end of its methods, whichever and however many they are, and not
/// before they are all there.
pub proof fn greetings_are_read(methods: Seq<u8>, rest: Seq<u8>, n: int)
    requires
        methods.len() < 256,
        0 <= n < 2 + methods.len(),
    ensures
        ({
            let greeting = seq![5u8, methods.len() as u8] + methods;
            &&& decode_greeting(greeting + rest) == Decoded::Done((), 2 + methods.len() as int)
            &&& decode_greeting(greeting.take(n)) matches Decoded::Need(total) && n < total <= 2 + methods.len()
        }),
{
}

/// A greeting of another version is refused.
pub proof fn other_versions_are_refused(bytes: Seq<u8>)
    requires
        bytes.len() >= 3,
        bytes[0] != 5,
    ensures
        decode_greeting(bytes) == Decoded::<()>::Failed(ErrorView::Protocol("invalid SOCKS5 version"@)),
        decode_socks5(bytes) == Decoded::<Socks5View>::Failed(
            ErrorView::Protocol("invalid SOCKS5 request version"@),
        ),
{
}

/// A SOCKS5 request for a connection is read as one, and one for packets as one for packets, whatever
/// kind of destination it names, whatever its third byte is and whatever follows: for that
/// destination, and to its end. Any other command is refused.
#[verifier::rlimit(40)]
pub proof fn socks5_requests_are_read(addr: SocksAddrView, command: u8, reserved: u8, rest: Seq<u8>)
    requires
        writable(addr),
    ensures
        ({
            let request = seq![5u8, command, reserved] + addr_bytes(addr, AddrFormat::Socks);
            let len = request.len() as int;
            &&& command == 1 ==> decode_socks5(request + rest) == Decoded::Done(
                Socks5View::Connect(unscoped(addr)),
                len,
            )
            &&& command == 3 ==> decode_socks5(request + rest) == Decoded::Done(
                Socks5View::UdpAssociate(unscoped(addr)),
                len,
            )
            &&& command != 1 && command != 3 ==> decode_socks5(request + rest) == Decoded::<Socks5View>::Failed(
                ErrorView::Protocol("only SOCKS5 CONNECT and UDP ASSOCIATE are supported"@),
            )
        }),
{
    let written = addr_bytes(addr, AddrFormat::Socks);
    let all = seq![5u8, command, reserved] + written + rest;
    assert(written =~= addr_bytes(addr, AddrFormat::SocksRequest));
    addr_round_trip(addr, AddrFormat::SocksRequest, rest);
    assert(all.skip(3) =~= written + rest);
}

/// A part of a SOCKS5 request is never taken for one, and never more is asked for than it has.
pub proof fn partial_socks5_requests_wait(addr: SocksAddrView, command: u8, reserved: u8, n: int)
    requires
        writable(addr),
        0 <= n < 3 + addr_bytes(addr, AddrFormat::Socks).len(),
    ensures
        ({
            let request = seq![5u8, command, reserved] + addr_bytes(addr, AddrFormat::Socks);
            decode_socks5(request.take(n)) matches Decoded::Need(total) && n < total <= request.len()
        }),
{
    let written = addr_bytes(addr, AddrFormat::Socks);
    let part = (seq![5u8, command, reserved] + written).take(n);
    assert(written =~= addr_bytes(addr, AddrFormat::SocksRequest));
    if n >= 3 {
        partial_addr_waits(addr, AddrFormat::SocksRequest, n - 3);
        assert(part.skip(3) =~= written.take(n - 3));
    }
}

/// The answer to a request for packets says that it is granted, and names the address, which reads
/// back from it.
pub proof fn replies_name_the_address(addr: SocketAddr)
    ensures
        bound_reply(addr).take(3) == seq![5u8, 0u8, 0u8],
        decode_addr(bound_reply(addr).skip(3), AddrFormat::Socks) == Decoded::Done(
            SocksAddrView::Ip(SocketAddr { scope_id: 0, ..addr }),
            bound_reply(addr).len() - 3,
        ),
{
    let written = addr_bytes(SocksAddrView::Ip(addr), AddrFormat::Socks);
    addr_round_trip(SocksAddrView::Ip(addr), AddrFormat::Socks, Seq::empty());
    assert(written + Seq::<u8>::empty() =~= written);
    assert(bound_reply(addr).take(3) =~= seq![5u8, 0u8, 0u8]);
    assert(bound_reply(addr).skip(3) =~= written);
}

/// A packet that is too short, or whose first three bytes are not all zero, is refused.
pub proof fn other_packets_are_refused(packet: Seq<u8>)
    ensures
        packet.len() < 4 || packet[0] != 0 || packet[1] != 0 || packet[2] != 0 ==> udp_packet_of(packet) is Err,
{
}

/// The start of a SOCKS4 request: the version, the command for a connection, the port and the
/// address, each with its high byte first, and the user's name before a zero byte.
pub open spec fn socks4_start(port: u16, ip: u32, user: Seq<u8>) -> Seq<u8> {
    seq![
        4u8,
        1u8,
        (port / 256) as u8,
        (port % 256) as u8,
        (ip / 0x100_0000) as u8,
        (ip / 0x1_0000 % 256) as u8,
        (ip / 256 % 256) as u8,
        (ip % 256) as u8,
    ] + user + seq![0u8]
}

pub open spec fn no_zero(bytes: Seq<u8>) -> bool {
    forall|i: int| 0 <= i < bytes.len() ==> #[trigger] bytes[i] != 0
}

#[verifier::rlimit(40)]
proof fn lemma_socks4_start(port: u16, ip: u32, user: Seq<u8>, rest: Seq<u8>)
    requires
        no_zero(user),
        user.len() <= 4096,
    ensures
        ({
            let bytes = socks4_start(port, ip, user) + rest;
            &&& bytes.len() == 9 + user.len() + rest.len()
            &&& bytes[0] == 4 && bytes[1] == 1
            &&& be_value(bytes.subrange(2, 4)) == port
            &&& be_value(bytes.subrange(4, 8)) == ip
            &&& decode_field(bytes, 8) == Decoded::Done((), 8 + user.len() as int)
        }),
{
    let bytes = socks4_start(port, ip, user) + rest;
    let p = bytes.subrange(2, 4);
    let a = bytes.subrange(4, 8);
    reveal_with_fuel(be_value, 5);
    assert(p.drop_last().drop_last() =~= Seq::empty());
    assert(p.drop_last().last() == bytes[2] && p.last() == bytes[3]);
    assert(a.drop_last().drop_last().drop_last().drop_last() =~= Seq::empty());
    assert(a.drop_last().drop_last().drop_last().last() == bytes[4]);
    assert(a.drop_last().drop_last().last() == bytes[5]);
    assert(a.drop_last().last() == bytes[6] && a.last() == bytes[7]);
    assert(bytes[2] == (port / 256) as u8 && bytes[3] == (port % 256) as u8);
    assert(bytes[4] == (ip / 0x100_0000) as u8 && bytes[5] == (ip / 0x1_0000 % 256) as u8);
    assert(bytes[6] == (ip / 256 % 256) as u8 && bytes[7] == (ip % 256) as u8);
    assert forall|j: int| 8 <= j < 8 + user.len() implies bytes[j] != 0 by {
        assert(bytes[j] == user[j - 8]);
    }
    lemma_nul_index(bytes, 8, 8 + user.len() as int);
}

/// A SOCKS4 request for an address is read as one for that address and port, whoever the user is and
/// whatever follows. An address between 0.0.0.1 and 0.0.0.255 stands for the name behind the user's.
#[verifier::rlimit(40)]
pub proof fn socks4_requests_are_read(port: u16, ip: u32, user: Seq<u8>, host: Seq<char>, rest: Seq<u8>)
    requires
        no_zero(user),
        user.len() <= 4096,
        no_zero(encode_utf8(host)),
        encode_utf8(host).len() <= 4096,
    ensures
        ip == 0 || ip >= 256 ==> decode_socks4(socks4_start(port, ip, user) + rest) == Decoded::Done(
            SocksAddrView::Ip(SocketAddr { ip: IpAddr::V4(ip), port, scope_id: 0 }),
            9 + user.len() as int,
        ),
        0 < ip < 256 ==> decode_socks4(socks4_start(port, ip, user) + encode_utf8(host) + seq![0u8] + rest)
            == Decoded::Done(SocksAddrView::Domain(host, port), 10 + user.len() as int + encode_utf8(host).len()),
{
    let name = encode_utf8(host);
    lemma_socks4_start(port, ip, user, rest);
    lemma_socks4_start(port, ip, user, name + seq![0u8] + rest);
    let bytes = socks4_start(port, ip, user) + name + seq![0u8] + rest;
    assert(bytes =~= socks4_start(port, ip, user) + (name + seq![0u8] + rest));
    let start = 9 + user.len() as int;
    let end = start + name.len();
    assert forall|j: int| start <= j < end implies bytes[j] != 0 by {
        assert(bytes[j] == name[j - start]);
    }
    lemma_nul_index(bytes, start, end);
    assert(bytes.subrange(start, end) =~= name);
    encode_utf8_valid_utf8(host);
    encode_utf8_decode_utf8(host);
}

/// Of SOCKS4 only requests for a connection are taken.
pub proof fn other_socks4_requests_are_refused(bytes: Seq<u8>)
    requires
        bytes.len() >= 2,
        bytes[0] != 4 || bytes[1] != 1,
    ensures
        decode_socks4(bytes) == Decoded::<SocksAddrView>::Failed(
            ErrorView::Protocol("only SOCKS4 CONNECT is supported"@),
        ),
{
}

/// The header of a request ends with its first blank line, whatever follows, and is not taken for
/// whole before that line is there.
#[verifier::rlimit(40)]
pub proof fn headers_end_with_a_blank_line(bytes: Seq<u8>, end: int, rest: Seq<u8>)
    requires
        4 <= end <= 65536,
        end == bytes.len(),
        bytes.skip(end - 4) == seq![13u8, 10u8, 13u8, 10u8],
        forall|i: int| 4 <= i < end ==> #[trigger] bytes.subrange(i - 4, i) != seq![13u8, 10u8, 13u8, 10u8],
    ensures
        decode_header(bytes + rest) == Decoded::Done((), end),
        forall|n: int| 0 <= n < end ==> #[trigger] decode_header(bytes.take(n)) == Decoded::<()>::Need(n + 1),
{
    let all = bytes + rest;
    let last = bytes.skip(end - 4);
    assert(last[0] == bytes[end - 4] && last[1] == bytes[end - 3] && last[2] == bytes[end - 2] && last[3] == bytes[end
        - 1]);
    assert forall|i: int| 0 <= i < end implies !#[trigger] blank_line_ends(all, i) by {
        if blank_line_ends(all, i) {
            assert(bytes.subrange(i - 4, i) =~= seq![13u8, 10u8, 13u8, 10u8]);
        }
    }
    lemma_header_end_is(all, 0, end);
    assert forall|n: int| 0 <= n < end implies #[trigger] decode_header(bytes.take(n)) == Decoded::<()>::Need(
        n + 1,
    ) by {
        let part = bytes.take(n);
        assert forall|i: int| 0 <= i <= n implies !#[trigger] blank_line_ends(part, i) by {
            if blank_line_ends(part, i) {
                assert(bytes.subrange(i - 4, i) =~= seq![13u8, 10u8, 13u8, 10u8]);
            }
        }
        lemma_header_end_is(part, 0, n + 1);
    }
}

proof fn lemma_header_end_is(bytes: Seq<u8>, from: int, end: int)
    requires
        0 <= from <= end <= bytes.len() + 1,
        forall|i: int| from <= i < end ==> !#[trigger] blank_line_ends(bytes, i),
        end <= bytes.len() ==> blank_line_ends(bytes, end),
    ensures
        header_end(bytes, from) == end,
    decreases end - from,
{
    if from < end {
        lemma_header_end_is(bytes, from + 1, end);
    }
}

/// A line of a request: its words, parted by single spaces.
pub open spec fn request_line(method: Seq<char>, target: Seq<char>, version: Seq<char>) -> Seq<char> {
    method + seq![' '] + (target + seq![' '] + version)
}

#[verifier::rlimit(40)]
proof fn lemma_request_line(method: Seq<char>, target: Seq<char>, version: Seq<char>, rest: Seq<char>)
    requires
        is_word(method),
        is_word(target),
        is_word(version),
    ensures
        ({
            let line = request_line(method, target, version);
            let text = line + seq!['\r', '\n'] + rest;
            &&& words(line) == seq![method, target, version]
            &&& line_end(text) == line.len()
            &&& text.take(line.len() as int) == line
            &&& text.skip(line.len() as int + 2) == rest
            &&& line.len() < text.len()
        }),
{
    let line = request_line(method, target, version);
    let text = line + seq!['\r', '\n'] + rest;
    let behind = target + seq![' '] + version;
    whitespace_parts_words(method, ' ', behind);
    whitespace_parts_words(target, ' ', version);
    whitespace_parts_words(version, ' ', Seq::empty());
    assert(words(line) =~= seq![method, target, version]);
    assert forall|j: int| 0 <= j < line.len() implies line[j] != '\r' by {
        if j < method.len() {
            assert(line[j] == method[j]);
        } else if j > method.len() {
            let k = j - method.len() - 1;
            assert(line[j] == behind[k]);
            if k < target.len() {
                assert(behind[k] == target[k]);
            } else if k > target.len() {
                assert(behind[k] == version[k - target.len() - 1]);
            }
        }
    }
    assert forall|j: int| 0 <= j < line.len() && j < text.len() - 1 implies !(#[trigger] text[j] == '\r' && text[j + 1]
        == '\n') by {
        assert(text[j] == line[j]);
    }
    lemma_line_end(text, line.len() as int);
    assert(text.take(line.len() as int) =~= line);
    assert(text.skip(line.len() as int + 2) =~= rest);
}

/// A request for a connection, in whichever letter case, leads to the destination that its target
/// names, whatever the rest of its header says.
pub proof fn connect_requests_are_read(
    method: Seq<char>,
    target: Seq<char>,
    version: Seq<char>,
    rest: Seq<char>,
    parsed: core::result::Result<UrlView, Seq<char>>,
)
    requires
        is_word(method),
        is_word(target),
        is_word(version),
        ascii_lower_all(method) == ascii_lower_all("CONNECT"@),
    ensures
        ({
            let header = encode_utf8(request_line(method, target, version) + seq!['\r', '\n'] + rest);
            http_request_of(header, parsed) == match host_port_of(target) {
                Ok(addr) => Ok::<HttpView, ErrorView>(HttpView::Connect(addr)),
                Err(err) => Err::<HttpView, ErrorView>(err),
            }
        }),
{
    let text = request_line(method, target, version) + seq!['\r', '\n'] + rest;
    encode_utf8_valid_utf8(text);
    encode_utf8_decode_utf8(text);
    lemma_request_line(method, target, version, rest);
}

/// Any other request is passed on to the host and port of its target, with its method, version and
/// the rest of its header as they are, and the target's path and query in place of the target.
#[verifier::rlimit(40)]
pub proof fn other_requests_are_passed_on(
    method: Seq<char>,
    target: Seq<char>,
    version: Seq<char>,
    rest: Seq<char>,
    url: UrlView,
    host: Seq<char>,
    port: u16,
)
    requires
        is_word(method),
        is_word(target),
        is_word(version),
        ascii_lower_all(method) != ascii_lower_all("CONNECT"@),
        url.host == Some(host),
        url.known_port == Some(port),
        url.path.len() > 0,
    ensures
        ({
            let header = encode_utf8(request_line(method, target, version) + seq!['\r', '\n'] + rest);
            let asked = match url.query {
                Some(query) => url.path + seq!['?'] + query,
                None => url.path,
            };
            &&& http_target(header) == target
            &&& http_request_of(header, Ok(url)) == Ok::<HttpView, ErrorView>(
                HttpView::Forward(
                    SocksAddrView::Domain(host, port),
                    request_line(method, asked, version) + seq!['\r', '\n'] + rest,
                ),
            )
        }),
{
    let text = request_line(method, target, version) + seq!['\r', '\n'] + rest;
    encode_utf8_valid_utf8(text);
    encode_utf8_decode_utf8(text);
    lemma_request_line(method, target, version, rest);
    let asked = request_path(url);
    reveal_strlit(" ");
    reveal_strlit("\r\n");
    assert(" "@ =~= seq![' ']);
    assert("\r\n"@ =~= seq!['\r', '\n']);
    assert(method + " "@ + asked + " "@ + version + "\r\n"@ + rest =~= request_line(method, asked, version) + seq![
        '\r',
        '\n',
    ] + rest);
}

/// A target without a host, or without a port that is known, is refused, and so is one that is no
/// link.
pub proof fn targets_need_a_host_and_a_port(
    method: Seq<char>,
    target: Seq<char>,
    version: Seq<char>,
    rest: Seq<char>,
    parsed: core::result::Result<UrlView, Seq<char>>,
)
    requires
        is_word(method),
        is_word(target),
        is_word(version),
        ascii_lower_all(method) != ascii_lower_all("CONNECT"@),
    ensures
        ({
            let header = encode_utf8(request_line(method, target, version) + seq!['\r', '\n'] + rest);
            match parsed {
                Err(err) => http_request_of(header, parsed) == Err::<HttpView, ErrorView>(ErrorView::Url(err)),
                Ok(url) => {
                    &&& url.host is None ==> http_request_of(header, parsed) == Err::<HttpView, ErrorView>(
                        ErrorView::Protocol("HTTP absolute URI is missing host"@),
                    )
                    &&& url.host is Some && url.known_port is None ==> http_request_of(header, parsed) == Err::<
                        HttpView,
                        ErrorView,
                    >(ErrorView::Protocol("HTTP absolute URI is missing port"@))
                },
            }
        }),
{
    let text = request_line(method, target, version) + seq!['\r', '\n'] + rest;
    encode_utf8_valid_utf8(text);
    encode_utf8_decode_utf8(text);
    lemma_request_line(method, target, version, rest);
}

/// A request that names no version is passed on with that of HTTP/1.1, and a target without a path asks
/// for the root.
#[verifier::rlimit(40)]
pub proof fn requests_may_be_short(
    method: Seq<char>,
    target: Seq<char>,
    rest: Seq<char>,
    url: UrlView,
    host: Seq<char>,
    port: u16,
)
    requires
        is_word(method),
        is_word(target),
        ascii_lower_all(method) != ascii_lower_all("CONNECT"@),
        url.host == Some(host),
        url.known_port == Some(port),
        url.path.len() == 0,
    ensures
        ({
            let header = encode_utf8(method + seq![' '] + target + seq!['\r', '\n'] + rest);
            let asked = match url.query {
                Some(query) => seq!['/', '?'] + query,
                None => seq!['/'],
            };
            &&& http_target(header) == target
            &&& http_request_of(header, Ok(url)) == Ok::<HttpView, ErrorView>(
                HttpView::Forward(
                    SocksAddrView::Domain(host, port),
                    request_line(method, asked, "HTTP/1.1"@) + seq!['\r', '\n'] + rest,
                ),
            )
        }),
{
    let line = method + seq![' '] + target;
    let text = line + seq!['\r', '\n'] + rest;
    encode_utf8_valid_utf8(text);
    encode_utf8_decode_utf8(text);
    whitespace_parts_words(method, ' ', target);
    whitespace_parts_words(target, ' ', Seq::empty());
    assert(words(line) =~= seq![method, target]);
    assert forall|j: int| 0 <= j < line.len() && j < text.len() - 1 implies !(#[trigger] text[j] == '\r' && text[j + 1]
        == '\n') by {
        if j < method.len() {
            assert(text[j] == method[j]);
        } else if j > method.len() {
            assert(text[j] == target[j - method.len() - 1]);
        }
    }
    lemma_line_end(text, line.len() as int);
    assert(text.take(line.len() as int) =~= line);
    assert(text.skip(line.len() as int + 2) =~= rest);
    let asked = request_path(url);
    if let Some(query) = url.query {
        assert(seq!['/'] + seq!['?'] + query =~= seq!['/', '?'] + query);
    }
    reveal_strlit(" ");
    reveal_strlit("\r\n");
    assert(" "@ =~= seq![' ']);
    assert("\r\n"@ =~= seq!['\r', '\n']);
    let version = "HTTP/1.1"@;
    assert(method + " "@ + asked + " "@ + version + "\r\n"@ + rest =~= request_line(method, asked, version) + seq![
        '\r',
        '\n',
    ] + rest);
}

/// A header that is no text, has no line or no two words in its first one is no request.
#[verifier::rlimit(40)]
pub proof fn other_headers_are_no_requests(
    header: Seq<u8>,
    method: Seq<char>,
    rest: Seq<char>,
    parsed: core::result::Result<UrlView, Seq<char>>,
)
    requires
        is_word(method),
    ensures
        !valid_utf8(header) ==> http_request_of(header, parsed) == Err::<HttpView, ErrorView>(
            ErrorView::Protocol("HTTP header is not UTF-8"@),
        ),
        http_request_of(encode_utf8(method), parsed) == Err::<HttpView, ErrorView>(
            ErrorView::Protocol("invalid HTTP request"@),
        ),
        http_request_of(encode_utf8(seq!['\r', '\n'] + rest), parsed) == Err::<HttpView, ErrorView>(
            ErrorView::Protocol("missing HTTP method"@),
        ),
        http_request_of(encode_utf8(method + seq!['\r', '\n'] + rest), parsed) == Err::<HttpView, ErrorView>(
            ErrorView::Protocol("missing HTTP URI"@),
        ),
{
    let blank = seq!['\r', '\n'] + rest;
    let text = method + seq!['\r', '\n'] + rest;
    encode_utf8_valid_utf8(method);
    encode_utf8_decode_utf8(method);
    encode_utf8_valid_utf8(blank);
    encode_utf8_decode_utf8(blank);
    encode_utf8_valid_utf8(text);
    encode_utf8_decode_utf8(text);
    whitespace_parts_words(method, ' ', Seq::empty());
    lemma_line_end(method, method.len() as int);
    lemma_line_end(blank, 0);
    assert(blank.take(0) =~= Seq::empty());
    assert forall|j: int| 0 <= j < method.len() && j < text.len() - 1 implies !(#[trigger] text[j] == '\r' && text[j + 1]
        == '\n') by {
        assert(text[j] == method[j]);
    }
    lemma_line_end(text, method.len() as int);
    assert(text.take(method.len() as int) =~= method);
}

/// A header of 65536 bytes without a blank line is too large.
pub proof fn long_headers_are_refused(bytes: Seq<u8>)
    requires
        bytes.len() >= 65536,
        forall|i: int| 4 <= i <= 65536 ==> #[trigger] bytes.subrange(i - 4, i) != seq![13u8, 10u8, 13u8, 10u8],
    ensures
        decode_header(bytes) == Decoded::<()>::Failed(ErrorView::Protocol("HTTP header is too large"@)),
{
    assert forall|i: int| 0 <= i < 65537 implies !#[trigger] blank_line_ends(bytes, i) by {
        if blank_line_ends(bytes, i) {
            assert(bytes.subrange(i - 4, i) =~= seq![13u8, 10u8, 13u8, 10u8]);
        }
    }
    lemma_header_end_from(bytes, 0, 65537);
    lemma_header_end(bytes, 65537);
}

proof fn lemma_header_end_from(bytes: Seq<u8>, from: int, to: int)
    requires
        0 <= from <= to <= bytes.len() + 1,
        forall|i: int| from <= i < to ==> !#[trigger] blank_line_ends(bytes, i),
    ensures
        header_end(bytes, from) == header_end(bytes, to),
    decreases to - from,
{
    if from < to {
        lemma_header_end_from(bytes, from + 1, to);
    }
}

/// A SOCKS4 request whose user's name has not ended waits for its end, and one whose name is too long
/// is refused.
pub proof fn long_names_are_refused(port: u16, ip: u32, user: Seq<u8>)
    requires
        no_zero(user),
    ensures
        ({
            let start = socks4_start(port, ip, user);
            let cut = start.take(start.len() - 1);
            &&& user.len() <= 4096 ==> decode_socks4(cut) == Decoded::<SocksAddrView>::Need(start.len() as int)
            &&& user.len() > 4096 ==> decode_socks4(start) is Failed
        }),
{
    let start = socks4_start(port, ip, user);
    let cut = start.take(start.len() - 1);
    assert forall|j: int| 8 <= j < 8 + user.len() implies start[j] != 0 && cut[j] != 0 by {
        assert(start[j] == user[j - 8]);
    }
    lemma_nul_index(start, 8, 8 + user.len() as int);
    lemma_nul_index(cut, 8, 8 + user.len() as int);
}

} // verus!
