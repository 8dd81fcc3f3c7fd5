//! Destinations: an address or a name, with a port.

use vstd::prelude::*;
use vstd::slice::{slice_subrange, slice_to_vec};
use vstd::utf8::{decode_utf8, encode_utf8, encode_utf8_decode_utf8, encode_utf8_valid_utf8, valid_utf8};

use crate::digits::{dec, dec_text, lemma_dec, lemma_parse_dec, parse_nat_upto, parse_unsigned};
use crate::error::{AnyTlsError, ErrorView, Result};
use crate::ip::{ip_text, socket_of, socket_round_trip, socket_text, IpAddr, SocketAddr};
use crate::text::{
    chars_of, find_char, last_index, lemma_first_index, lemma_last_index, parts_are_told_apart, rsplit_once,
    rsplit_once_at, text_of, trim, trimmed, utf8_text, CharClass,
};
use crate::wire::{
    be_bytes, be_value, bytes_count_from_the_end, decoded, lemma_be_bytes_len, lemma_be_round_trip,
    lemma_pow256_values, pow256, push_be, read_be, short_numbers_byte_by_byte, Decoded, Progress,
};

verus! {

/// A destination.
#[derive(Debug, PartialEq, Eq)]
pub enum SocksAddr {
    Ip(SocketAddr),
    Domain { host: String, port: u16 },
}

/// The mathematical value of a [`SocksAddr`].
#[verifier::ext_equal]
pub enum SocksAddrView {
    Ip(SocketAddr),
    Domain(Seq<char>, u16),
}

impl View for SocksAddr {
    type V = SocksAddrView;

    open spec fn view(&self) -> SocksAddrView {
        match self {
            SocksAddr::Ip(addr) => SocksAddrView::Ip(*addr),
            SocksAddr::Domain { host, port } => SocksAddrView::Domain(host@, *port),
        }
    }
}

impl Clone for SocksAddr {
    fn clone(&self) -> (copy: Self)
        ensures
            copy@ == self@,
    {
        match self {
            SocksAddr::Ip(addr) => SocksAddr::Ip(*addr),
            SocksAddr::Domain { host, port } => SocksAddr::Domain { host: host.clone(), port: *port },
        }
    }
}

/// Where destinations are written. Packets of UDP over TCP have their own bytes that come first;
/// the others differ in how errors read.
#[derive(Clone, Copy, PartialEq, Eq, Structural)]
pub enum AddrFormat {
    /// At the start of a stream.
    Socks,
    /// In a packet of UDP over TCP.
    Uot,
    /// In a SOCKS5 request.
    SocksRequest,
    /// In a SOCKS5 UDP packet.
    SocksUdp,
}

pub open spec fn ipv4_tag(format: AddrFormat) -> u8 {
    if format == AddrFormat::Uot {
        0
    } else {
        1
    }
}

pub open spec fn ipv6_tag(format: AddrFormat) -> u8 {
    if format == AddrFormat::Uot {
        1
    } else {
        4
    }
}

pub open spec fn domain_tag(format: AddrFormat) -> u8 {
    if format == AddrFormat::Uot {
        2
    } else {
        3
    }
}

pub open spec fn unknown_tag(format: AddrFormat, tag: u8) -> ErrorView {
    match format {
        AddrFormat::Socks => ErrorView::Protocol("unknown SOCKS address type: "@ + dec(tag as nat)),
        AddrFormat::Uot => ErrorView::Protocol("unknown UoT address family: "@ + dec(tag as nat)),
        AddrFormat::SocksRequest => ErrorView::Protocol("unknown SOCKS address type"@),
        AddrFormat::SocksUdp => ErrorView::Protocol("unknown SOCKS UDP address type"@),
    }
}

pub open spec fn not_utf8(format: AddrFormat) -> ErrorView {
    match format {
        AddrFormat::Socks | AddrFormat::Uot => ErrorView::Protocol("domain name is not UTF-8"@),
        AddrFormat::SocksRequest => ErrorView::Protocol("SOCKS domain is not UTF-8"@),
        AddrFormat::SocksUdp => ErrorView::Protocol("SOCKS UDP domain is not UTF-8"@),
    }
}

/// A name is written with its length in one byte.
pub open spec fn writable(addr: SocksAddrView) -> bool {
    addr matches SocksAddrView::Domain(host, _) ==> encode_utf8(host).len() <= 255
}

/// A destination as it is written.
pub open spec fn addr_bytes(addr: SocksAddrView, format: AddrFormat) -> Seq<u8> {
    match addr {
        SocksAddrView::Ip(addr) => match addr.ip {
            IpAddr::V4(ip) => seq![ipv4_tag(format)] + be_bytes(ip as nat, 4) + be_bytes(addr.port as nat, 2),
            IpAddr::V6(ip) => seq![ipv6_tag(format)] + be_bytes(ip as nat, 16) + be_bytes(addr.port as nat, 2),
        },
        SocksAddrView::Domain(host, port) => {
            let name = encode_utf8(host);
            seq![domain_tag(format), name.len() as u8] + name + be_bytes(port as nat, 2)
        },
    }
}

/// What the bytes at the start of a buffer make: a destination, or the need for more bytes, or an
/// error.
pub open spec fn decode_addr(bytes: Seq<u8>, format: AddrFormat) -> Decoded<SocksAddrView> {
    if bytes.len() < 1 {
        Decoded::Need(1)
    } else if bytes[0] == ipv4_tag(format) {
        if bytes.len() < 7 {
            Decoded::Need(7)
        } else {
            let ip = IpAddr::V4(be_value(bytes.subrange(1, 5)) as u32);
            let port = be_value(bytes.subrange(5, 7)) as u16;
            Decoded::Done(SocksAddrView::Ip(SocketAddr { ip, port, scope_id: 0 }), 7)
        }
    } else if bytes[0] == ipv6_tag(format) {
        if bytes.len() < 19 {
            Decoded::Need(19)
        } else {
            let ip = IpAddr::V6(be_value(bytes.subrange(1, 17)) as u128);
            let port = be_value(bytes.subrange(17, 19)) as u16;
            Decoded::Done(SocksAddrView::Ip(SocketAddr { ip, port, scope_id: 0 }), 19)
        }
    } else if bytes[0] == domain_tag(format) {
        if bytes.len() < 2 {
            Decoded::Need(2)
        } else {
            let end = 2 + bytes[1];
            if bytes.len() < end + 2 {
                Decoded::Need(end + 2)
            } else if valid_utf8(bytes.subrange(2, end)) {
                let port = be_value(bytes.subrange(end, end + 2)) as u16;
                Decoded::Done(SocksAddrView::Domain(decode_utf8(bytes.subrange(2, end)), port), end + 2)
            } else {
                Decoded::Failed(not_utf8(format))
            }
        }
    } else {
        Decoded::Failed(unknown_tag(format, bytes[0]))
    }
}

/// What is left of a destination once it has been written: a scope is not.
pub open spec fn unscoped(addr: SocksAddrView) -> SocksAddrView {
    match addr {
        SocksAddrView::Ip(addr) => SocksAddrView::Ip(SocketAddr { scope_id: 0, ..addr }),
        other => other,
    }
}

/// The destination that a text names: an address with its port, or a name, a colon and a port.
pub open spec fn host_port_of(text: Seq<char>) -> core::result::Result<SocksAddrView, ErrorView> {
    match socket_of(text) {
        Some(addr) => Ok(SocksAddrView::Ip(addr)),
        None => match rsplit_once(text, ':') {
            None => Err(ErrorView::Protocol("missing port in address: "@ + text)),
            Some((host, port)) => match parse_nat_upto(port, 65535) {
                None => Err(ErrorView::Protocol("invalid port in address: "@ + text)),
                Some(port) => Ok(SocksAddrView::Domain(trim(host, CharClass::Bracket), port as u16)),
            },
        },
    }
}

/// How a destination reads.
pub open spec fn addr_text(addr: SocksAddrView) -> Seq<char> {
    match addr {
        SocksAddrView::Ip(addr) => socket_text(addr),
        SocksAddrView::Domain(host, port) => if host.contains(':') {
            "["@ + host + "]:"@ + dec(port as nat)
        } else {
            host + ":"@ + dec(port as nat)
        },
    }
}

proof fn lemma_port(port: u16)
    ensures
        be_bytes(port as nat, 2).len() == 2,
        be_value(be_bytes(port as nat, 2)) == port,
{
    lemma_be_bytes_len(port as nat, 2);
    lemma_pow256_values();
    lemma_be_round_trip(port as nat, 2);
}

/// A destination that was written is read back, whatever follows it.
#[verifier::rlimit(60)]
pub proof fn addr_round_trip(addr: SocksAddrView, format: AddrFormat, rest: Seq<u8>)
    requires
        writable(addr),
    ensures
        decode_addr(addr_bytes(addr, format) + rest, format) == Decoded::Done(
            unscoped(addr),
            addr_bytes(addr, format).len() as int,
        ),
{
    let bytes = addr_bytes(addr, format) + rest;
    lemma_pow256_values();
    match addr {
        SocksAddrView::Ip(socket) => {
            lemma_port(socket.port);
            match socket.ip {
                IpAddr::V4(ip) => {
                    lemma_be_bytes_len(ip as nat, 4);
                    lemma_be_round_trip(ip as nat, 4);
                    assert(bytes.subrange(1, 5) =~= be_bytes(ip as nat, 4));
                    assert(bytes.subrange(5, 7) =~= be_bytes(socket.port as nat, 2));
                },
                IpAddr::V6(ip) => {
                    lemma_be_bytes_len(ip as nat, 16);
                    lemma_be_round_trip(ip as nat, 16);
                    assert(bytes.subrange(1, 17) =~= be_bytes(ip as nat, 16));
                    assert(bytes.subrange(17, 19) =~= be_bytes(socket.port as nat, 2));
                },
            }
        },
        SocksAddrView::Domain(host, port) => {
            let name = encode_utf8(host);
            let end = 2 + name.len() as int;
            lemma_port(port);
            encode_utf8_valid_utf8(host);
            encode_utf8_decode_utf8(host);
            assert(bytes[1] == name.len());
            assert(bytes.subrange(2, end) =~= name);
            assert(bytes.subrange(end, end + 2) =~= be_bytes(port as nat, 2));
        },
    }
}

/// A part of a destination is never taken for one: more bytes are asked for, and never more than
/// the destination has.
#[verifier::rlimit(60)]
pub proof fn partial_addr_waits(addr: SocksAddrView, format: AddrFormat, n: int)
    requires
        writable(addr),
        0 <= n < addr_bytes(addr, format).len(),
    ensures
        decode_addr(addr_bytes(addr, format).take(n), format) matches Decoded::Need(total) && n < total
            <= addr_bytes(addr, format).len(),
{
    let bytes = addr_bytes(addr, format);
    let part = bytes.take(n);
    match addr {
        SocksAddrView::Ip(socket) => {
            lemma_port(socket.port);
            match socket.ip {
                IpAddr::V4(ip) => {
                    lemma_be_bytes_len(ip as nat, 4);
                },
                IpAddr::V6(ip) => {
                    lemma_be_bytes_len(ip as nat, 16);
                },
            }
        },
        SocksAddrView::Domain(host, port) => {
            lemma_port(port);
            assert(bytes[1] == encode_utf8(host).len());
        },
    }
    if n >= 1 {
        assert(part[0] == bytes[0]);
    }
    if n >= 2 {
        assert(part[1] == bytes[1]);
    }
}

/// An address reads back from its text.
pub proof fn ip_text_round_trip(addr: SocketAddr)
    requires
        addr.ip is V4 ==> addr.scope_id == 0,
    ensures
        host_port_of(addr_text(SocksAddrView::Ip(addr))) == Ok::<SocksAddrView, ErrorView>(SocksAddrView::Ip(addr)),
{
    socket_round_trip(addr);
}

/// A name reads back from its text, unless the text is that of an address, or the name has
/// brackets at an end.
#[verifier::rlimit(60)]
pub proof fn domain_text_round_trip(host: Seq<char>, port: u16)
    requires
        socket_of(addr_text(SocksAddrView::Domain(host, port))) is None,
        trim(host, CharClass::Bracket) == host,
    ensures
        host_port_of(addr_text(SocksAddrView::Domain(host, port))) == Ok::<SocksAddrView, ErrorView>(
            SocksAddrView::Domain(host, port),
        ),
{
    let text = addr_text(SocksAddrView::Domain(host, port));
    let number = dec(port as nat);
    let before = if host.contains(':') {
        "["@ + host + "]"@
    } else {
        host
    };
    reveal_strlit("[");
    reveal_strlit("]");
    reveal_strlit("]:");
    reveal_strlit(":");
    assert(text =~= before.push(':') + number);
    lemma_dec(port as nat);
    lemma_parse_dec(port as nat);
    lemma_last_index(text, ':');
    let at = before.len() as int;
    assert(last_index(text, ':') == at) by {
        let found = last_index(text, ':');
        if found > at {
            assert(text[found] == number[found - at - 1]);
            assert(crate::digits::is_digit(number[found - at - 1]));
        }
        if found < at {
            assert(text[at] == ':');
        }
    }
    assert(text.take(at) =~= before);
    assert(text.skip(at + 1) =~= number);
    if host.contains(':') {
        crate::text::lemma_trim_wrapped(host, '[', ']', CharClass::Bracket);
        assert(before =~= seq!['['] + host + seq![']']);
    }
}

impl SocksAddr {
    /// A name with a port.
    pub fn domain(host: &str, port: u16) -> (addr: Self)
        ensures
            addr@ == SocksAddrView::Domain(host@, port),
    {
        SocksAddr::Domain { host: host.to_owned(), port }
    }

    /// The port.
    pub fn port(&self) -> (port: u16)
        ensures
            port == match self@ {
                SocksAddrView::Ip(addr) => addr.port,
                SocksAddrView::Domain(_, port) => port,
            },
    {
        match self {
            SocksAddr::Ip(addr) => addr.port,
            SocksAddr::Domain { port, .. } => *port,
        }
    }

    /// The address or name.
    pub fn host(&self) -> (host: String)
        ensures
            host@ == match self@ {
                SocksAddrView::Ip(addr) => ip_text(addr.ip),
                SocksAddrView::Domain(host, _) => host,
            },
    {
        match self {
            SocksAddr::Ip(addr) => addr.ip.to_text(),
            SocksAddr::Domain { host, .. } => host.clone(),
        }
    }

    /// The destination as it is written in this format.
    pub fn to_format(&self, format: AddrFormat) -> (bytes: Result<Vec<u8>>)
        ensures
            match bytes {
                Ok(bytes) => writable(self@) && bytes@ == addr_bytes(self@, format),
                Err(err) => !writable(self@) && err@ == ErrorView::Protocol("domain name is too long"@),
            },
    {
        let uot: bool = format == AddrFormat::Uot;
        let mut out: Vec<u8> = Vec::new();
        match self {
            SocksAddr::Ip(addr) => {
                match addr.ip {
                    IpAddr::V4(ip) => {
                        out.push(if uot { 0 } else { 1 });
                        push_be(&mut out, ip as u128, 4);
                    },
                    IpAddr::V6(ip) => {
                        out.push(if uot { 1 } else { 4 });
                        push_be(&mut out, ip, 16);
                    },
                }
                push_be(&mut out, addr.port as u128, 2);
            },
            SocksAddr::Domain { host, port } => {
                let name = host.as_str().as_bytes();
                if name.len() > 255 {
                    return Err(AnyTlsError::protocol("domain name is too long"));
                }
                out.push(if uot { 2 } else { 3 });
                out.push(name.len() as u8);
                out.extend_from_slice(name);
                push_be(&mut out, *port as u128, 2);
            },
        }
        assert(out@ =~= addr_bytes(self@, format));
        Ok(out)
    }

    /// The destination as SOCKS5 writes it.
    pub fn to_bytes(&self) -> (bytes: Result<Vec<u8>>)
        ensures
            match bytes {
                Ok(bytes) => writable(self@) && bytes@ == addr_bytes(self@, AddrFormat::Socks),
                Err(err) => !writable(self@) && err@ == ErrorView::Protocol("domain name is too long"@),
            },
    {
        self.to_format(AddrFormat::Socks)
    }

    /// Reads a destination in this format at the start of what has come in.
    pub fn read_format(bytes: &[u8], format: AddrFormat) -> (addr: Result<Progress<Self>>)
        ensures
            decoded(addr) == decode_addr(bytes@, format),
    {
        if bytes.len() < 1 {
            return Ok(Progress::Need { total: 1 });
        }
        let tag: u8 = bytes[0];
        let (ipv4, ipv6, domain): (u8, u8, u8) = if format == AddrFormat::Uot { (0, 1, 2) } else { (1, 4, 3) };
        proof {
            lemma_pow256_values();
        }
        if tag == ipv4 {
            if bytes.len() < 7 {
                return Ok(Progress::Need { total: 7 });
            }
            let ip = IpAddr::V4(read_be(bytes, 1, 5) as u32);
            let port: u16 = read_be(bytes, 5, 7) as u16;
            return Ok(Progress::Done { value: SocksAddr::Ip(SocketAddr::new(ip, port)), consumed: 7 });
        }
        if tag == ipv6 {
            if bytes.len() < 19 {
                return Ok(Progress::Need { total: 19 });
            }
            let ip = IpAddr::V6(read_be(bytes, 1, 17));
            let port: u16 = read_be(bytes, 17, 19) as u16;
            return Ok(Progress::Done { value: SocksAddr::Ip(SocketAddr::new(ip, port)), consumed: 19 });
        }
        if tag == domain {
            if bytes.len() < 2 {
                return Ok(Progress::Need { total: 2 });
            }
            let end: usize = 2 + bytes[1] as usize;
            if bytes.len() < end + 2 {
                return Ok(Progress::Need { total: end + 2 });
            }
            let port: u16 = read_be(bytes, end, end + 2) as u16;
            return match utf8_text(slice_to_vec(slice_subrange(bytes, 2, end))) {
                Some(host) => Ok(Progress::Done { value: SocksAddr::Domain { host, port }, consumed: end + 2 }),
                None => Err(
                    AnyTlsError::protocol(
                        match format {
                            AddrFormat::Socks | AddrFormat::Uot => "domain name is not UTF-8",
                            AddrFormat::SocksRequest => "SOCKS domain is not UTF-8",
                            AddrFormat::SocksUdp => "SOCKS UDP domain is not UTF-8",
                        },
                    ),
                ),
            };
        }
        let text = match format {
            AddrFormat::Socks => String::from_str("unknown SOCKS address type: ").concat(
                dec_text(tag as u64).as_str(),
            ),
            AddrFormat::Uot => String::from_str("unknown UoT address family: ").concat(
                dec_text(tag as u64).as_str(),
            ),
            AddrFormat::SocksRequest => String::from_str("unknown SOCKS address type"),
            AddrFormat::SocksUdp => String::from_str("unknown SOCKS UDP address type"),
        };
        Err(AnyTlsError::protocol(text.as_str()))
    }

    /// Reads a destination, as SOCKS5 writes it, at the start of what has come in. Until it is all
    /// there, the result says how many bytes are needed.
    pub fn read_from(bytes: &[u8]) -> (addr: Result<Progress<Self>>)
        ensures
            decoded(addr) == decode_addr(bytes@, AddrFormat::Socks),
    {
        SocksAddr::read_format(bytes, AddrFormat::Socks)
    }

    /// The destination that a text names.
    pub fn parse_host_port(value: &str) -> (addr: Result<Self>)
        ensures
            match addr {
                Ok(addr) => host_port_of(value@) == Ok::<SocksAddrView, ErrorView>(addr@),
                Err(err) => host_port_of(value@) == Err::<SocksAddrView, ErrorView>(err@),
            },
    {
        let chars = chars_of(value);
        if let Some(addr) = SocketAddr::parse(chars.as_slice()) {
            return Ok(SocksAddr::Ip(addr));
        }
        let (host, port) = match rsplit_once_at(chars.as_slice(), ':') {
            Some(parts) => parts,
            None => {
                return Err(
                    AnyTlsError::protocol(String::from_str("missing port in address: ").concat(value).as_str()),
                );
            },
        };
        match parse_unsigned(port, 65535) {
            Some(port) => Ok(
                SocksAddr::Domain { host: text_of(trimmed(host, CharClass::Bracket)), port: port as u16 },
            ),
            None => Err(
                AnyTlsError::protocol(String::from_str("invalid port in address: ").concat(value).as_str()),
            ),
        }
    }

    /// How the destination reads.
    pub fn to_text(&self) -> (text: String)
        ensures
            text@ == addr_text(self@),
    {
        match self {
            SocksAddr::Ip(addr) => addr.to_text(),
            SocksAddr::Domain { host, port } => {
                let chars = chars_of(host.as_str());
                let at = find_char(chars.as_slice(), ':');
                proof {
                    lemma_first_index(host@, ':');
                    if host@.contains(':') {
                        let i = choose|i: int| 0 <= i < host@.len() && host@[i] == ':';
                        assert(i >= at);
                    }
                }
                if at < chars.len() {
                    assert(host@.contains(host@[at as int]));
                    String::from_str("[").concat(host.as_str()).concat("]:").concat(dec_text(*port as u64).as_str())
                } else {
                    host.clone().concat(":").concat(dec_text(*port as u64).as_str())
                }
            },
        }
    }
}

/// Addresses are tagged 1 and 4 and names 3, but in packets of UDP over TCP 0, 1 and 2.
pub proof fn destinations_have_their_tags(format: AddrFormat)
    ensures
        format == AddrFormat::Uot ==> ipv4_tag(format) == 0 && ipv6_tag(format) == 1 && domain_tag(format) == 2,
        format != AddrFormat::Uot ==> ipv4_tag(format) == 1 && ipv6_tag(format) == 4 && domain_tag(format) == 3,
{
}

/// A destination is laid out as its tag, its address or its name behind the name's length, and its
/// port, the most significant byte first.
#[verifier::rlimit(40)]
pub proof fn destinations_have_this_layout(addr: SocksAddrView, format: AddrFormat, i: int)
    requires
        writable(addr),
    ensures
        ({
            let bytes = addr_bytes(addr, format);
            match addr {
                SocksAddrView::Ip(addr) => match addr.ip {
                    IpAddr::V4(ip) => bytes == seq![
                        ipv4_tag(format),
                        (ip / 0x100_0000) as u8,
                        (ip / 0x1_0000 % 256) as u8,
                        (ip / 256 % 256) as u8,
                        (ip % 256) as u8,
                        (addr.port / 256) as u8,
                        (addr.port % 256) as u8,
                    ],
                    IpAddr::V6(ip) => {
                        &&& bytes.len() == 19
                        &&& bytes[0] == ipv6_tag(format)
                        &&& 0 <= i < 16 ==> bytes[1 + i] == (ip as nat / pow256((15 - i) as nat)) % 256
                        &&& bytes[17] == addr.port / 256 && bytes[18] == addr.port % 256
                    },
                },
                SocksAddrView::Domain(host, port) => bytes == seq![domain_tag(format), encode_utf8(host).len() as u8]
                    + encode_utf8(host) + seq![(port / 256) as u8, (port % 256) as u8],
            }
        }),
{
    let bytes = addr_bytes(addr, format);
    match addr {
        SocksAddrView::Ip(addr) => {
            short_numbers_byte_by_byte(addr.port as nat);
            match addr.ip {
                IpAddr::V4(ip) => {
                    short_numbers_byte_by_byte(ip as nat);
                    assert(bytes =~= seq![
                        ipv4_tag(format),
                        (ip / 0x100_0000) as u8,
                        (ip / 0x1_0000 % 256) as u8,
                        (ip / 256 % 256) as u8,
                        (ip % 256) as u8,
                        (addr.port / 256) as u8,
                        (addr.port % 256) as u8,
                    ]);
                },
                IpAddr::V6(ip) => {
                    lemma_be_bytes_len(ip as nat, 16);
                    if 0 <= i < 16 {
                        bytes_count_from_the_end(ip as nat, 16, i);
                        assert(bytes[1 + i] == be_bytes(ip as nat, 16)[i]);
                    }
                },
            }
        },
        SocksAddrView::Domain(host, port) => {
            short_numbers_byte_by_byte(port as nat);
        },
    }
}

/// Every address can be written, and every name of up to 255 bytes. A scope is not written, and
/// nothing else is lost.
pub proof fn destinations_can_be_written(addr: SocketAddr, host: Seq<char>, port: u16)
    ensures
        writable(SocksAddrView::Ip(addr)),
        writable(SocksAddrView::Domain(host, port)) <==> encode_utf8(host).len() <= 255,
        unscoped(SocksAddrView::Ip(addr)) == SocksAddrView::Ip(
            SocketAddr { ip: addr.ip, port: addr.port, scope_id: 0 },
        ),
        unscoped(SocksAddrView::Domain(host, port)) == SocksAddrView::Domain(host, port),
{
}

/// A destination with any other tag is refused, and so is a name that is not UTF-8.
pub proof fn other_destinations_are_refused(bytes: Seq<u8>, format: AddrFormat)
    requires
        bytes.len() > 0,
    ensures
        format == AddrFormat::Uot && bytes[0] > 2 ==> decode_addr(bytes, format) == Decoded::<SocksAddrView>::Failed(
            ErrorView::Protocol("unknown UoT address family: "@ + dec(bytes[0] as nat)),
        ),
        format == AddrFormat::Socks && bytes[0] != 1 && bytes[0] != 3 && bytes[0] != 4 ==> decode_addr(bytes, format)
            == Decoded::<SocksAddrView>::Failed(
            ErrorView::Protocol("unknown SOCKS address type: "@ + dec(bytes[0] as nat)),
        ),
        format != AddrFormat::Uot && bytes[0] != 1 && bytes[0] != 3 && bytes[0] != 4 ==> decode_addr(bytes, format)
            is Failed,
        bytes[0] == domain_tag(format) && bytes.len() >= 2 && bytes.len() >= 4 + bytes[1] && !valid_utf8(
            bytes.subrange(2, 2 + bytes[1]),
        ) ==> decode_addr(bytes, format) is Failed,
{
}

/// A destination reads as its host, a colon and its port. A host that holds colons itself stands in
/// brackets.
#[verifier::rlimit(40)]
pub proof fn destinations_read_as_host_and_port(host: Seq<char>, addr: SocketAddr, port: u16)
    ensures
        !host.contains(':') ==> addr_text(SocksAddrView::Domain(host, port)) == host + seq![':'] + dec(port as nat),
        host.contains(':') ==> addr_text(SocksAddrView::Domain(host, port)) == seq!['['] + host + seq![']', ':'] + dec(
            port as nat,
        ),
        addr.ip is V4 ==> addr_text(SocksAddrView::Ip(addr)) == ip_text(addr.ip) + seq![':'] + dec(addr.port as nat),
        addr.ip is V6 && addr.scope_id == 0 ==> addr_text(SocksAddrView::Ip(addr)) == seq!['['] + ip_text(addr.ip) + seq![
            ']',
            ':',
        ] + dec(addr.port as nat),
{
    reveal_strlit("[");
    reveal_strlit("]:");
    reveal_strlit(":");
    assert("["@ =~= seq!['[']);
    assert("]:"@ =~= seq![']', ':']);
    assert(":"@ =~= seq![':']);
    let text = addr_text(SocksAddrView::Ip(addr));
    assert(addr.ip is V6 && addr.scope_id == 0 ==> text =~= seq!['['] + ip_text(addr.ip) + seq![']', ':'] + dec(
        addr.port as nat,
    ));
}

/// A text without a colon names no destination, and neither does one whose port is too large.
#[verifier::rlimit(40)]
pub proof fn destinations_need_a_port(text: Seq<char>, host: Seq<char>, port: nat)
    ensures
        !text.contains(':') ==> host_port_of(text) == Err::<SocksAddrView, ErrorView>(
            ErrorView::Protocol("missing port in address: "@ + text),
        ),
        port > 65535 && text == host.push(':') + dec(port) && socket_of(text) is None ==> host_port_of(text) == Err::<
            SocksAddrView,
            ErrorView,
        >(ErrorView::Protocol("invalid port in address: "@ + text)),
{
    if !text.contains(':') {
        lemma_last_index(text, ':');
        lemma_first_index(text, ':');
        if last_index(text, ':') >= 0 {
            assert(text.contains(text[last_index(text, ':')]));
        }
        if crate::text::first_index(text, ':') < text.len() {
            assert(text.contains(text[crate::text::first_index(text, ':')]));
        }
        if text.len() > 0 && text[0] == '[' {
            let inner = text.drop_first();
            lemma_first_index(inner, ']');
            let i = crate::text::first_index(inner, ']');
            if i < inner.len() && inner.skip(i + 1).len() > 0 && inner.skip(i + 1)[0] == ':' {
                assert(text[i + 2] == ':');
                assert(text.contains(text[i + 2]));
            }
        }
    }
    if port > 65535 && text == host.push(':') + dec(port) && socket_of(text) is None {
        lemma_dec(port);
        lemma_parse_dec(port);
        let number = dec(port);
        if number.contains(':') {
            let i = choose|i: int| 0 <= i < number.len() && number[i] == ':';
            assert(crate::digits::is_digit(number[i]));
        }
        parts_are_told_apart(host, ':', number);
    }
}

} // verus!
