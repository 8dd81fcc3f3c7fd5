//! `anytls://` links.

use vstd::prelude::*;
use vstd::slice::slice_subrange;
use vstd::utf8::{
    encode_utf8, encode_utf8_decode_utf8, encode_utf8_valid_utf8, is_ascii_chars, is_ascii_chars_encode_utf8,
};

use crate::digits::{dec, dec_text, hex_digit, hex_digit_of};
use crate::error::{AnyTlsError, ErrorView, Result};
use crate::text::{bytes_text, chars_of, join, joined, lossy_text, string_views, text_of};

verus! {

// Percent-encoding.

/// The bytes that stand for themselves in the user part of a link.
pub open spec fn stands_for_itself(b: u8) -> bool {
    ||| 0x30 <= b <= 0x39
    ||| 0x41 <= b <= 0x5a
    ||| 0x61 <= b <= 0x7a
    ||| b == 0x2d
    ||| b == 0x2e
    ||| b == 0x5f
    ||| b == 0x7e
    ||| b == 0x21
    ||| b == 0x24
    ||| 0x26 <= b <= 0x2c
    ||| b == 0x3b
    ||| b == 0x3d
}

/// The character for a digit below sixteen, in upper case.
pub open spec fn upper_digit(d: u8) -> char {
    if d < 10 {
        (48 + d) as char
    } else {
        (55 + d) as char
    }
}

/// A byte as it is written in a link.
pub open spec fn percent_byte(b: u8) -> Seq<char> {
    if stands_for_itself(b) {
        seq![b as char]
    } else {
        seq!['%', upper_digit(b / 16), upper_digit(b % 16)]
    }
}

/// Bytes as they are written in a link.
pub open spec fn percent_encoded(bytes: Seq<u8>) -> Seq<char>
    decreases bytes.len(),
{
    if bytes.len() == 0 {
        Seq::empty()
    } else {
        percent_byte(bytes[0]) + percent_encoded(bytes.drop_first())
    }
}

/// Whether a text starts with an encoded byte.
pub open spec fn starts_encoded(text: Seq<char>) -> bool {
    text.len() >= 3 && text[0] == '%' && hex_digit(text[1]) is Some && hex_digit(text[2]) is Some
}

/// The bytes that a text in a link stands for. What is not encoded stands for itself.
pub open spec fn percent_decoded(text: Seq<char>) -> Seq<u8>
    decreases text.len(),
{
    if text.len() == 0 {
        Seq::empty()
    } else if starts_encoded(text) {
        seq![(hex_digit(text[1])->0 * 16 + hex_digit(text[2])->0) as u8] + percent_decoded(text.skip(3))
    } else {
        encode_utf8(seq![text[0]]) + percent_decoded(text.skip(1))
    }
}

/// What was encoded is decoded to the same bytes.
pub proof fn percent_round_trip(bytes: Seq<u8>)
    ensures
        percent_decoded(percent_encoded(bytes)) == bytes,
    decreases bytes.len(),
{
    if bytes.len() > 0 {
        let b = bytes[0];
        let rest = bytes.drop_first();
        let tail = percent_encoded(rest);
        let text = percent_encoded(bytes);
        percent_round_trip(rest);
        if stands_for_itself(b) {
            let one = seq![b as char];
            assert(text[0] == b as char);
            assert(text.skip(1) =~= tail);
            assert(is_ascii_chars(one));
            is_ascii_chars_encode_utf8(one);
            assert(one[0] as u8 == b);
            assert(encode_utf8(one) =~= seq![b]);
        } else {
            assert(text[0] == '%' && text[1] == upper_digit(b / 16) && text[2] == upper_digit(b % 16));
            assert(text.skip(3) =~= tail);
        }
        assert(percent_decoded(text) =~= seq![b] + rest);
        assert(seq![b] + rest =~= bytes);
    }
}

fn itself(b: u8) -> (yes: bool)
    ensures
        yes == stands_for_itself(b),
{
    (0x30 <= b && b <= 0x39) || (0x41 <= b && b <= 0x5a) || (0x61 <= b && b <= 0x7a) || b == 0x2d || b == 0x2e || b
        == 0x5f || b == 0x7e || b == 0x21 || b == 0x24 || (0x26 <= b && b <= 0x2c) || b == 0x3b || b == 0x3d
}

fn to_upper_digit(d: u8) -> (c: char)
    requires
        d < 16,
    ensures
        c == upper_digit(d),
{
    if d < 10 {
        (48 + d) as char
    } else {
        (55 + d) as char
    }
}

/// Bytes as they are written in a link.
pub fn percent_encode(bytes: &[u8]) -> (text: String)
    ensures
        text@ == percent_encoded(bytes@),
{
    let mut text = String::new();
    let mut i: usize = 0;
    assert(bytes@.skip(0) =~= bytes@);
    assert(text@ + percent_encoded(bytes@) =~= percent_encoded(bytes@));
    while i < bytes.len()
        invariant
            i <= bytes@.len(),
            text@ + percent_encoded(bytes@.skip(i as int)) == percent_encoded(bytes@),
        decreases bytes@.len() - i,
    {
        let b: u8 = bytes[i];
        let ghost before = text@;
        let ghost left = bytes@.skip(i as int);
        assert(left.drop_first() =~= bytes@.skip(i + 1));
        if itself(b) {
            text.push(b as char);
        } else {
            text.push('%');
            text.push(to_upper_digit(b / 16));
            text.push(to_upper_digit(b % 16));
        }
        assert(text@ =~= before + percent_byte(b));
        assert(before + percent_byte(b) + percent_encoded(left.drop_first()) =~= before + percent_encoded(left));
        i = i + 1;
    }
    assert(text@ + percent_encoded(bytes@.skip(i as int)) =~= text@);
    text
}

/// The bytes that a text in a link stands for.
pub fn percent_decode(text: &[char]) -> (bytes: Vec<u8>)
    ensures
        bytes@ == percent_decoded(text@),
{
    let mut bytes: Vec<u8> = Vec::new();
    let mut rest: &[char] = text;
    assert(bytes@ + percent_decoded(rest@) =~= percent_decoded(text@));
    while rest.len() > 0
        invariant
            bytes@ + percent_decoded(rest@) == percent_decoded(text@),
        decreases rest@.len(),
    {
        let ghost before = bytes@;
        let ghost left = rest@;
        let mut encoded: Option<u8> = None;
        if rest.len() >= 3 && rest[0] == '%' {
            if let (Some(high), Some(low)) = (hex_digit_of(rest[1]), hex_digit_of(rest[2])) {
                encoded = Some((high * 16 + low) as u8);
            }
        }
        match encoded {
            Some(b) => {
                bytes.push(b);
                rest = slice_subrange(rest, 3, rest.len());
                assert(rest@ =~= left.skip(3));
                assert(before.push(b) + percent_decoded(rest@) =~= before + (seq![b] + percent_decoded(rest@)));
            },
            None => {
                let one = text_of(slice_subrange(rest, 0, 1));
                assert(one@ =~= seq![left[0]]);
                bytes.extend_from_slice(one.as_str().as_bytes());
                rest = slice_subrange(rest, 1, rest.len());
                assert(rest@ =~= left.skip(1));
                assert(before + encode_utf8(one@) + percent_decoded(rest@) =~= before + (encode_utf8(one@)
                    + percent_decoded(rest@)));
            },
        }
    }
    assert(bytes@ + percent_decoded(rest@) =~= bytes@);
    bytes
}

// The parts of a link.

/// What a link says.
pub struct UrlParts {
    pub scheme: String,
    pub host: Option<String>,
    /// The port, if the link names one that is not the scheme's own.
    pub port: Option<u16>,
    /// The port, or else the scheme's own.
    pub known_port: Option<u16>,
    pub username: String,
    pub path: String,
    pub query: Option<String>,
    /// The keys and values of the query.
    pub pairs: Vec<(String, String)>,
}

/// The mathematical value of [`UrlParts`].
#[verifier::ext_equal]
pub struct UrlView {
    pub scheme: Seq<char>,
    pub host: Option<Seq<char>>,
    pub port: Option<u16>,
    pub known_port: Option<u16>,
    pub username: Seq<char>,
    pub path: Seq<char>,
    pub query: Option<Seq<char>>,
    pub pairs: Seq<(Seq<char>, Seq<char>)>,
}

pub open spec fn option_view(text: Option<String>) -> Option<Seq<char>> {
    match text {
        Some(text) => Some(text@),
        None => None,
    }
}

impl View for UrlParts {
    type V = UrlView;

    open spec fn view(&self) -> UrlView {
        UrlView {
            scheme: self.scheme@,
            host: option_view(self.host),
            port: self.port,
            known_port: self.known_port,
            username: self.username@,
            path: self.path@,
            query: option_view(self.query),
            pairs: self.pairs@.map_values(|pair: (String, String)| (pair.0@, pair.1@)),
        }
    }
}

/// What the `url` crate makes of a text: the parts of a link, or how the error reads.
pub uninterp spec fn url_of(text: Seq<char>) -> core::result::Result<UrlView, Seq<char>>;

/// Calls `Url::parse` of the `url` crate, and takes the parts out of the link. They, or how the
/// error reads, go by the name [`url_of`].
#[verifier::external_body]
pub(crate) fn parse_url(text: &str) -> (parsed: core::result::Result<UrlParts, String>)
    ensures
        match parsed {
            Ok(parts) => url_of(text@) == Ok::<UrlView, Seq<char>>(parts@),
            Err(err) => url_of(text@) == Err::<UrlView, Seq<char>>(err@),
        },
{
    let url = url::Url::parse(text).map_err(|err| err.to_string())?;
    Ok(UrlParts {
        scheme: url.scheme().to_owned(),
        host: url.host_str().map(str::to_owned),
        port: url.port(),
        known_port: url.port_or_known_default(),
        username: url.username().to_owned(),
        path: url.path().to_owned(),
        query: url.query().map(str::to_owned),
        pairs: url.query_pairs().into_owned().collect(),
    })
}

/// Where a client connects to, the name that it asks for, and its password.
#[verifier::ext_equal]
pub struct TargetView {
    pub server: Seq<char>,
    pub sni: Seq<char>,
    pub password: Seq<char>,
}

/// The value of the first of these keys.
pub open spec fn value_of(pairs: Seq<(Seq<char>, Seq<char>)>, key: Seq<char>) -> Option<Seq<char>>
    decreases pairs.len(),
{
    if pairs.len() == 0 {
        None
    } else if pairs[0].0 == key {
        Some(pairs[0].1)
    } else {
        value_of(pairs.drop_first(), key)
    }
}

/// The target that a link names, given the one without it. Only an `anytls` link names one. Its
/// port is 443 where it names none; its user part, decoded, is the password; the name to ask for
/// is that of the key `sni`.
pub open spec fn link_target(url: UrlView, target: TargetView) -> core::result::Result<TargetView, ErrorView> {
    if url.scheme != "anytls"@ {
        Ok(target)
    } else {
        match url.host {
            None => Err(ErrorView::Protocol("anytls URL is missing host"@)),
            Some(host) => Ok(
                TargetView {
                    server: host + ":"@ + dec(
                        match url.port {
                            Some(port) => port as nat,
                            None => 443,
                        },
                    ),
                    sni: match value_of(url.pairs, "sni"@) {
                        Some(sni) => sni,
                        None => target.sni,
                    },
                    password: if url.username.len() == 0 {
                        target.password
                    } else {
                        bytes_text(percent_decoded(url.username))
                    },
                },
            ),
        }
    }
}

/// The target that a text names. A text that is no link names none.
pub open spec fn text_target(
    parsed: core::result::Result<UrlView, Seq<char>>,
    target: TargetView,
) -> core::result::Result<TargetView, ErrorView> {
    match parsed {
        Ok(url) => link_target(url, target),
        Err(_) => Ok(target),
    }
}

fn find_value<'a>(pairs: &'a Vec<(String, String)>, key: &str) -> (value: Option<&'a String>)
    ensures
        match value {
            Some(value) => value_of(
                pairs@.map_values(|pair: (String, String)| (pair.0@, pair.1@)),
                key@,
            ) == Some(value@),
            None => value_of(pairs@.map_values(|pair: (String, String)| (pair.0@, pair.1@)), key@) is None,
        },
{
    let ghost all = pairs@.map_values(|pair: (String, String)| (pair.0@, pair.1@));
    let wanted = key.to_owned();
    let mut i: usize = 0;
    assert(all.skip(0) =~= all);
    while i < pairs.len()
        invariant
            i <= pairs@.len(),
            all == pairs@.map_values(|pair: (String, String)| (pair.0@, pair.1@)),
            wanted@ == key@,
            value_of(all.skip(i as int), key@) == value_of(all, key@),
        decreases pairs@.len() - i,
    {
        assert(all.skip(i as int).drop_first() =~= all.skip(i + 1));
        if pairs[i].0 == wanted {
            return Some(&pairs[i].1);
        }
        i = i + 1;
    }
    None
}

/// Sets the target to the one that a link names.
pub fn apply_anytls_url(url: &UrlParts, server: &mut String, sni: &mut String, password: &mut String) -> (result: Result<
    (),
>)
    ensures
        match link_target(
            url@,
            (TargetView { server: old(server)@, sni: old(sni)@, password: old(password)@ }),
        ) {
            Ok(target) => result is Ok && final(server)@ == target.server && final(sni)@ == target.sni
                && final(password)@ == target.password,
            Err(error) => result matches Err(err) && err@ == error && final(server)@ == old(server)@ && final(sni)@
                == old(sni)@ && final(password)@ == old(password)@,
        },
{
    if url.scheme != String::from_str("anytls") {
        return Ok(());
    }
    let host = match &url.host {
        Some(host) => host,
        None => {
            return Err(AnyTlsError::protocol("anytls URL is missing host"));
        },
    };
    let port: u16 = match url.port {
        Some(port) => port,
        None => 443,
    };
    *server = host.clone().concat(":").concat(dec_text(port as u64).as_str());
    if !url.username.as_str().is_empty() {
        let chars = chars_of(url.username.as_str());
        *password = lossy_text(percent_decode(chars.as_slice()).as_slice());
    }
    if let Some(value) = find_value(&url.pairs, "sni") {
        *sni = value.clone();
    }
    Ok(())
}

/// Sets the target to the one that the server's text names, if that is an `anytls` link.
pub fn parse_anytls_url(server: &mut String, sni: &mut String, password: &mut String) -> (result: Result<()>)
    ensures
        match text_target(
            url_of(old(server)@),
            (TargetView { server: old(server)@, sni: old(sni)@, password: old(password)@ }),
        ) {
            Ok(target) => result is Ok && final(server)@ == target.server && final(sni)@ == target.sni
                && final(password)@ == target.password,
            Err(error) => result matches Err(err) && err@ == error && final(server)@ == old(server)@ && final(sni)@
                == old(sni)@ && final(password)@ == old(password)@,
        },
{
    match parse_url(server.as_str()) {
        Ok(url) => apply_anytls_url(&url, server, sni, password),
        Err(_) => Ok(()),
    }
}

// Writing links.

/// What an `anytls` link is made of.
pub struct LinkFields<'a> {
    pub password: &'a str,
    pub server: &'a str,
    pub port: u16,
    pub security: &'a str,
    pub sni: &'a str,
    pub fingerprint: &'a str,
    pub public_key: Option<&'a str>,
    pub short_id: Option<&'a str>,
    pub tag: &'a str,
}

/// The keys and values that every link has.
pub open spec fn common_query(security: Seq<char>, sni: Seq<char>, fingerprint: Seq<char>) -> Seq<Seq<char>> {
    seq!["security="@ + security, "type=tcp"@, "sni="@ + sni, "fp="@ + fingerprint]
}

/// The keys and values of a link to a Reality server.
pub open spec fn reality_query(public_key: Option<Seq<char>>, short_id: Option<Seq<char>>) -> Seq<Seq<char>> {
    let key = match public_key {
        Some(key) => seq!["pbk="@ + key],
        None => Seq::empty(),
    };
    let id = match short_id {
        Some(id) => seq!["sid="@ + id],
        None => Seq::empty(),
    };
    key + seq!["network=tcp"@] + id
}

/// The mathematical value of [`LinkFields`].
#[verifier::ext_equal]
pub struct LinkView {
    pub password: Seq<char>,
    pub server: Seq<char>,
    pub port: u16,
    pub security: Seq<char>,
    pub sni: Seq<char>,
    pub fingerprint: Seq<char>,
    pub public_key: Option<Seq<char>>,
    pub short_id: Option<Seq<char>>,
    pub tag: Seq<char>,
}

impl<'a> View for LinkFields<'a> {
    type V = LinkView;

    open spec fn view(&self) -> LinkView {
        LinkView {
            password: self.password@,
            server: self.server@,
            port: self.port,
            security: self.security@,
            sni: self.sni@,
            fingerprint: self.fingerprint@,
            public_key: str_view(self.public_key),
            short_id: str_view(self.short_id),
            tag: self.tag@,
        }
    }
}

pub open spec fn str_view(text: Option<&str>) -> Option<Seq<char>> {
    match text {
        Some(text) => Some(text@),
        None => None,
    }
}

/// A link. The password is percent-encoded.
pub open spec fn link_text(link: LinkView) -> Seq<char> {
    let common = common_query(link.security, link.sni, link.fingerprint);
    let query = if link.security == "reality"@ {
        common + reality_query(link.public_key, link.short_id)
    } else {
        common
    };
    "anytls://"@ + percent_encoded(encode_utf8(link.password)) + "@"@ + link.server + ":"@ + dec(link.port as nat)
        + "/?"@ + join(query, seq!['&']) + "#"@ + link.tag
}

/// A link to a server.
pub fn build_anytls_uri(fields: LinkFields) -> (uri: String)
    ensures
        uri@ == link_text(fields@),
{
    let mut query: Vec<String> = Vec::new();
    query.push(String::from_str("security=").concat(fields.security));
    query.push(String::from_str("type=tcp"));
    query.push(String::from_str("sni=").concat(fields.sni));
    query.push(String::from_str("fp=").concat(fields.fingerprint));
    let ghost common = common_query(fields.security@, fields.sni@, fields.fingerprint@);
    assert(string_views(query@) =~= common);
    if fields.security.to_owned() == String::from_str("reality") {
        if let Some(public_key) = fields.public_key {
            query.push(String::from_str("pbk=").concat(public_key));
        }
        query.push(String::from_str("network=tcp"));
        if let Some(short_id) = fields.short_id {
            query.push(String::from_str("sid=").concat(short_id));
        }
        assert(string_views(query@) =~= common + reality_query(
            str_view(fields.public_key),
            str_view(fields.short_id),
        ));
    }
    String::from_str("anytls://").concat(percent_encode(fields.password.as_bytes()).as_str()).concat("@").concat(
        fields.server,
    ).concat(":").concat(dec_text(fields.port as u64).as_str()).concat("/?").concat(
        joined(&query, '&').as_str(),
    ).concat("#").concat(fields.tag)
}

/// The password in a link is the password that was put into it, as long as the link's user part
/// is taken as it was written.
pub proof fn password_survives_the_link(url: UrlView, target: TargetView, password: Seq<char>)
    requires
        url.scheme == "anytls"@,
        url.host is Some,
        url.username == percent_encoded(encode_utf8(password)),
        password.len() > 0,
    ensures
        link_target(url, target) is Ok,
        link_target(url, target)->Ok_0.password == password,
{
    let bytes = encode_utf8(password);
    percent_round_trip(bytes);
    encode_utf8_valid_utf8(password);
    encode_utf8_decode_utf8(password);
    if url.username.len() == 0 {
        assert(url.username =~= Seq::empty());
        assert(bytes =~= Seq::empty());
        let none: Seq<char> = Seq::empty();
        assert(is_ascii_chars(none));
        is_ascii_chars_encode_utf8(none);
        assert(encode_utf8(none) =~= bytes);
        encode_utf8_decode_utf8(none);
    }
}

/// An `anytls` link names its host and port as the server, or port 443; its user part, decoded, is the
/// password, and the key `sni` names the name to ask for. What it does not say stays as it was.
#[verifier::rlimit(40)]
pub proof fn links_name_their_targets(url: UrlView, target: TargetView, host: Seq<char>)
    requires
        url.scheme == "anytls"@,
        url.host == Some(host),
    ensures
        ({
            let named = link_target(url, target);
            &&& named is Ok
            &&& url.port matches Some(port) ==> named->Ok_0.server == host + seq![':'] + dec(port as nat)
            &&& url.port is None ==> named->Ok_0.server == host + seq![':', '4', '4', '3']
            &&& url.username.len() == 0 ==> named->Ok_0.password == target.password
            &&& url.username.len() > 0 ==> named->Ok_0.password == bytes_text(percent_decoded(url.username))
            &&& value_of(url.pairs, "sni"@) is None ==> named->Ok_0.sni == target.sni
            &&& value_of(url.pairs, "sni"@) matches Some(sni) ==> named->Ok_0.sni == sni
        }),
{
    reveal_strlit(":");
    assert(":"@ =~= seq![':']);
    reveal_with_fuel(dec, 4);
    assert(dec(443) =~= seq!['4', '4', '3']);
    assert(host + seq![':'] + seq!['4', '4', '3'] =~= host + seq![':', '4', '4', '3']);
}

/// A text that is no link, and a link of another scheme, changes nothing. A link without a host is
/// refused.
pub proof fn other_texts_name_no_target(url: UrlView, target: TargetView, err: Seq<char>)
    ensures
        url.scheme != "anytls"@ ==> text_target(Ok(url), target) == Ok::<TargetView, ErrorView>(target),
        text_target(Err(err), target) == Ok::<TargetView, ErrorView>(target),
        url.scheme == "anytls"@ && url.host is None ==> text_target(Ok(url), target) == Err::<TargetView, ErrorView>(
            ErrorView::Protocol("anytls URL is missing host"@),
        ),
{
}

/// Of a key that stands in a link more than once the first value counts, whatever stands before it.
pub proof fn the_first_value_counts(
    before: Seq<(Seq<char>, Seq<char>)>,
    key: Seq<char>,
    value: Seq<char>,
    after: Seq<(Seq<char>, Seq<char>)>,
)
    requires
        forall|i: int| 0 <= i < before.len() ==> (#[trigger] before[i]).0 != key,
    ensures
        value_of(before.push((key, value)) + after, key) == Some(value),
        value_of(before, key) is None,
    decreases before.len(),
{
    let all = before.push((key, value)) + after;
    if before.len() > 0 {
        let rest = before.drop_first();
        assert(before[0].0 != key);
        assert forall|i: int| 0 <= i < rest.len() implies (#[trigger] rest[i]).0 != key by {
            assert(rest[i] == before[i + 1]);
        }
        the_first_value_counts(rest, key, value, after);
        assert(all.drop_first() =~= rest.push((key, value)) + after);
    }
}

/// Letters, digits and the marks `-._~` stand for themselves in a link. The characters that part a
/// link, the percent sign and whatever is not printable ASCII are encoded.
pub proof fn what_parts_a_link_is_encoded(b: u8)
    ensures
        (0x61 <= b <= 0x7a) || (0x41 <= b <= 0x5a) || (0x30 <= b <= 0x39) || b == 0x2d || b == 0x2e || b == 0x5f || b
            == 0x7e ==> percent_byte(b) == seq![b as char],
        b == 0x40 || b == 0x3a || b == 0x2f || b == 0x3f || b == 0x23 || b == 0x5b || b == 0x5d || b == 0x25 || b <= 0x20
            || b >= 0x7f ==> percent_byte(b).len() == 3,
        percent_byte(b).len() == 3 ==> percent_byte(b)[0] == '%' && hex_digit(percent_byte(b)[1]) == Some(
            (b / 16) as nat,
        ) && hex_digit(percent_byte(b)[2]) == Some((b % 16) as nat),
        percent_byte(b).len() != 3 ==> percent_byte(b) == seq![b as char],
{
}

/// Bytes are encoded one after the other.
pub proof fn bytes_are_encoded_in_order(first: Seq<u8>, second: Seq<u8>)
    ensures
        percent_encoded(first + second) == percent_encoded(first) + percent_encoded(second),
    decreases first.len(),
{
    let all = first + second;
    if first.len() == 0 {
        assert(all =~= second);
        assert(percent_encoded(first) + percent_encoded(second) =~= percent_encoded(second));
    } else {
        bytes_are_encoded_in_order(first.drop_first(), second);
        assert(all.drop_first() =~= first.drop_first() + second);
        assert(percent_encoded(all) =~= percent_encoded(first) + percent_encoded(second));
    }
}

/// A percent sign with two hexadecimal digits of either case stands for a byte. Everything else stands
/// for itself, a percent sign too.
pub proof fn encoded_bytes_are_read(high: char, low: char, c: char, rest: Seq<char>)
    ensures
        hex_digit(high) is Some && hex_digit(low) is Some ==> percent_decoded(seq!['%', high, low] + rest) == seq![
            (hex_digit(high)->0 * 16 + hex_digit(low)->0) as u8,
        ] + percent_decoded(rest),
        c != '%' || rest.len() < 2 || hex_digit(rest[0]) is None || hex_digit(rest[1]) is None ==> percent_decoded(
            seq![c] + rest,
        ) == encode_utf8(seq![c]) + percent_decoded(rest),
        percent_decoded(Seq::empty()).len() == 0,
{
    assert((seq!['%', high, low] + rest).skip(3) =~= rest);
    assert((seq![c] + rest).skip(1) =~= rest);
}

/// A link holds its fields under their keys: the security, the name and the fingerprint always, and
/// the public key and the identifier where it is one to a Reality server.
#[verifier::rlimit(40)]
pub proof fn links_hold_their_fields(link: LinkView)
    ensures
        ({
            let start = "anytls://"@ + percent_encoded(encode_utf8(link.password)) + "@"@ + link.server + ":"@ + dec(
                link.port as nat,
            ) + "/?"@;
            let common = seq![
                "security="@ + link.security,
                "type=tcp"@,
                "sni="@ + link.sni,
                "fp="@ + link.fingerprint,
            ];
            let network = "network=tcp"@;
            &&& link.security != "reality"@ ==> link_text(link) == start + join(common, seq!['&']) + "#"@ + link.tag
            &&& link.security == "reality"@ && link.public_key is Some && link.short_id is Some ==> link_text(link)
                == start + join(
                common.push("pbk="@ + link.public_key->0).push(network).push("sid="@ + link.short_id->0),
                seq!['&'],
            ) + "#"@ + link.tag
            &&& link.security == "reality"@ && link.public_key is Some && link.short_id is None ==> link_text(link)
                == start + join(common.push("pbk="@ + link.public_key->0).push(network), seq!['&']) + "#"@ + link.tag
            &&& link.security == "reality"@ && link.public_key is None && link.short_id is Some ==> link_text(link)
                == start + join(common.push(network).push("sid="@ + link.short_id->0), seq!['&']) + "#"@ + link.tag
        }),
{
    let common = common_query(link.security, link.sni, link.fingerprint);
    let network = "network=tcp"@;
    let query = common + reality_query(link.public_key, link.short_id);
    if link.public_key is Some && link.short_id is Some {
        assert(query =~= common.push("pbk="@ + link.public_key->0).push(network).push("sid="@ + link.short_id->0));
    }
    if link.public_key is Some && link.short_id is None {
        assert(query =~= common.push("pbk="@ + link.public_key->0).push(network));
    }
    if link.public_key is None && link.short_id is Some {
        assert(query =~= common.push(network).push("sid="@ + link.short_id->0));
    }
}

} // verus!
