//! The name under which a server is addressed.

use vstd::prelude::*;

use crate::digits::dec;
use crate::error::{AnyTlsError, ErrorView, Result};
use crate::ip::{ip_of, ipv4_round_trip, ipv4_text, lemma_no_address, IpAddr};
use crate::text::{
    chars_of, in_class, is_whitespace, join, lemma_span, trim, trim_end, trim_start, trimmed, CharClass,
};

verus! {

/// How a server is addressed. A DNS name is sent to the server, an address is not.
#[derive(Clone, Debug)]
pub enum ServerName {
    Dns(String),
    Ip(IpAddr),
}

/// The mathematical value of a [`ServerName`].
#[verifier::ext_equal]
pub enum ServerNameView {
    Dns(Seq<char>),
    Ip(IpAddr),
}

impl View for ServerName {
    type V = ServerNameView;

    open spec fn view(&self) -> ServerNameView {
        match self {
            ServerName::Dns(name) => ServerNameView::Dns(name@),
            ServerName::Ip(ip) => ServerNameView::Ip(*ip),
        }
    }
}

/// Whether `rustls_pki_types::ServerName` takes this text for a DNS name.
pub uninterp spec fn is_dns_name(text: Seq<char>) -> bool;

/// Calls `ServerName::try_from` of `rustls_pki_types`, which tries the text as a DNS name and then
/// as an address. It takes the same texts for addresses as [`ip_of`], and none of them for a DNS
/// name: the last label of a DNS name holds more than digits, and no label holds a colon. A DNS
/// name stays as it is written. Which texts are DNS names goes by the name [`is_dns_name`].
#[verifier::external_body]
fn read_server_name(text: &str) -> (known: Option<ServerName>)
    ensures
        match known {
            Some(ServerName::Ip(ip)) => ip_of(text@) == Some(ip),
            Some(ServerName::Dns(name)) => ip_of(text@) is None && is_dns_name(text@) && name@ == text@,
            None => ip_of(text@) is None && !is_dns_name(text@),
        },
{
    match rustls_pki_types::ServerName::try_from(text).ok()? {
        rustls_pki_types::ServerName::DnsName(name) => Some(ServerName::Dns(name.as_ref().to_owned())),
        rustls_pki_types::ServerName::IpAddress(rustls_pki_types::IpAddr::V4(ip)) => {
            Some(ServerName::Ip(IpAddr::V4(u32::from_be_bytes(*ip.as_ref()))))
        },
        rustls_pki_types::ServerName::IpAddress(rustls_pki_types::IpAddr::V6(ip)) => {
            Some(ServerName::Ip(IpAddr::V6(u128::from_be_bytes(*ip.as_ref()))))
        },
        _ => None,
    }
}

/// The text that stands for a server: this one, or the local address where it is blank.
pub open spec fn server_name_text(name: Seq<char>) -> Seq<char> {
    if trim(name, CharClass::Whitespace).len() == 0 {
        "127.0.0.1"@
    } else {
        name
    }
}

/// How the server that a text stands for is addressed. What spells an address is an address.
pub open spec fn server_name_of(name: Seq<char>) -> core::result::Result<ServerNameView, ErrorView> {
    let text = server_name_text(name);
    match ip_of(text) {
        Some(ip) => Ok(ServerNameView::Ip(ip)),
        None => if is_dns_name(text) {
            Ok(ServerNameView::Dns(text))
        } else {
            Err(ErrorView::InvalidDnsName(text))
        },
    }
}

/// The dotted text of the local address.
proof fn lemma_local_address()
    ensures
        ip_of("127.0.0.1"@) == Some(IpAddr::V4(0x7f00_0001)),
{
    let ip: u32 = 0x7f00_0001;
    ipv4_round_trip(ip);
    reveal_strlit("127.0.0.1");
    reveal_with_fuel(join, 5);
    reveal_with_fuel(dec, 4);
    assert(dec(127) =~= seq!['1', '2', '7']);
    assert(dec(0) =~= seq!['0']);
    assert(dec(1) =~= seq!['1']);
    assert(ipv4_text(ip) =~= "127.0.0.1"@);
}

/// Trimming the end leaves something of a text that does not start with whitespace.
proof fn lemma_trim_end_keeps(s: Seq<char>)
    requires
        s.len() > 0,
        !is_whitespace(s[0]),
    ensures
        trim_end(s, CharClass::Whitespace).len() > 0,
    decreases s.len(),
{
    if s.len() > 1 {
        lemma_trim_end_keeps(s.drop_last());
    }
}

/// A blank text spells no address.
proof fn lemma_blank_is_no_address(name: Seq<char>)
    requires
        trim(name, CharClass::Whitespace).len() == 0,
    ensures
        ip_of(name) is None,
{
    lemma_span(name, CharClass::Whitespace, true);
    if trim_start(name, CharClass::Whitespace).len() > 0 {
        lemma_trim_end_keeps(trim_start(name, CharClass::Whitespace));
    }
    assert forall|c: char| c == '.' || c == ':' implies !name.contains(c) by {
        if name.contains(c) {
            let i = choose|i: int| 0 <= i < name.len() && name[i] == c;
            assert(in_class(CharClass::Whitespace, name[i]));
        }
    }
    lemma_no_address(name);
}

/// A blank name stands for the local address.
pub proof fn blank_name_is_the_local_address(name: Seq<char>)
    requires
        trim(name, CharClass::Whitespace).len() == 0,
    ensures
        server_name_of(name) == Ok::<ServerNameView, ErrorView>(ServerNameView::Ip(IpAddr::V4(0x7f00_0001))),
{
    lemma_local_address();
}

/// A server that is named by an address is addressed by it and never by a DNS name, so none is
/// sent to it.
pub proof fn addresses_are_not_sent_as_names(name: Seq<char>)
    requires
        ip_of(name) is Some,
    ensures
        server_name_of(name) == Ok::<ServerNameView, ErrorView>(ServerNameView::Ip(ip_of(name)->0)),
{
    if trim(name, CharClass::Whitespace).len() == 0 {
        lemma_blank_is_no_address(name);
    }
}

/// The name that was made of a text, or that it is none.
pub fn known_server_name(text: String, known: Option<ServerName>) -> (result: Result<ServerName>)
    ensures
        match known {
            Some(name) => result matches Ok(given) && given@ == name@,
            None => result matches Err(err) && err@ == ErrorView::InvalidDnsName(text@),
        },
{
    match known {
        Some(name) => Ok(name),
        None => Err(AnyTlsError::InvalidDnsName(text)),
    }
}

/// How the server that a text stands for is addressed.
pub fn server_name(name: &str) -> (result: Result<ServerName>)
    ensures
        match result {
            Ok(given) => server_name_of(name@) == Ok::<ServerNameView, ErrorView>(given@),
            Err(err) => server_name_of(name@) == Err::<ServerNameView, ErrorView>(err@),
        },
        trim(name@, CharClass::Whitespace).len() == 0 ==> (result matches Ok(given) && given@ == ServerNameView::Ip(
            IpAddr::V4(0x7f00_0001),
        )),
        ip_of(name@) matches Some(ip) ==> (result matches Ok(given) && given@ == ServerNameView::Ip(ip)),
{
    proof {
        if trim(name@, CharClass::Whitespace).len() == 0 {
            blank_name_is_the_local_address(name@);
        }
        if ip_of(name@) is Some {
            addresses_are_not_sent_as_names(name@);
        }
    }
    let chars = chars_of(name);
    let text = if trimmed(chars.as_slice(), CharClass::Whitespace).len() == 0 {
        String::from_str("127.0.0.1")
    } else {
        name.to_owned()
    };
    let known = read_server_name(text.as_str());
    known_server_name(text, known)
}

/// A name that is neither blank nor an address is sent as it is written, if it is a DNS name, and is
/// refused otherwise.
pub proof fn names_are_sent_as_written(name: Seq<char>)
    requires
        trim(name, CharClass::Whitespace).len() > 0,
        ip_of(name) is None,
    ensures
        is_dns_name(name) ==> server_name_of(name) == Ok::<ServerNameView, ErrorView>(ServerNameView::Dns(name)),
        !is_dns_name(name) ==> server_name_of(name) == Err::<ServerNameView, ErrorView>(
            ErrorView::InvalidDnsName(name),
        ),
{
}

} // verus!
