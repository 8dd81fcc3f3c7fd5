//! What the command line asks for.

use vstd::prelude::*;
use vstd::utf8::{decode_utf8, encode_utf8, encode_utf8_decode_utf8, encode_utf8_valid_utf8, valid_utf8};

use crate::config::{
    bytes_per_second, mbps_to_bytes_per_second, server_brutal, ServerFileConfig, ServerTcpBrutalConfig, DEFAULT_TCP_BRUTAL_CWND_GAIN,
};
use crate::crypto::random_bytes;
use crate::digits::{dec, dec_text, hex_bytes, hex_text};
use crate::encoding::{base64_len, base64_standard, encode_base64};
use crate::error::{AnyTlsError, ErrorView, Result};
use crate::padding::{scheme_stop, PaddingFactory};
use crate::reality::{generate_keypair, public_key_from_private_key, public_key_of, RealityConfig};
use crate::tcp_brutal::{brutal_of, TcpBrutalConfig};
use crate::text::{
    ascii_lower, ascii_lower_all, chars_of, in_class, is_whitespace, join, joined, same_ignoring_case, string_views,
    text_of, to_ascii_lower, trim, trimmed, trimmed_texts_are_parts, trimming_takes_the_ends_off, utf8_text, CharClass,
};
use crate::uri::{build_anytls_uri, link_text, LinkFields, LinkView};

verus! {

// The client and the server.

/// What a client cannot do without.
pub fn check_client_args(server: &str, password: &str) -> (result: Result<()>)
    ensures
        match result {
            Ok(()) => server@.len() > 0 && password@.len() > 0,
            Err(err) => (server@.len() == 0 || password@.len() == 0) && err@ == ErrorView::Protocol(
                "client requires -s and -p"@,
            ),
        },
{
    if server.is_empty() || password.is_empty() {
        Err(AnyTlsError::protocol("client requires -s and -p"))
    } else {
        Ok(())
    }
}

/// The password that a server is given.
pub fn server_password(password: Option<String>) -> (result: Result<String>)
    ensures
        match result {
            Ok(text) => password is Some && text@ == password->0@,
            Err(err) => password is None && err@ == ErrorView::Protocol("server requires -p or --config"@),
        },
{
    match password {
        Some(password) => Ok(password),
        None => Err(AnyTlsError::protocol("server requires -p or --config")),
    }
}

/// Whether connections are secured by Reality.
pub fn is_reality(security: &str) -> (yes: bool)
    ensures
        yes == (ascii_lower_all(security@) == ascii_lower_all("reality"@)),
{
    same_ignoring_case(chars_of(security).as_slice(), chars_of("reality").as_slice())
}

/// The padding scheme that a file holds.
pub fn padding_from_file(raw: &[u8], path: &str) -> (padding: Result<PaddingFactory>)
    ensures
        match padding {
            Ok(padding) => scheme_stop(raw@) is Some && padding@ == raw@,
            Err(err) => scheme_stop(raw@) is None && err@ == ErrorView::Protocol(
                "invalid padding scheme file: "@ + path@,
            ),
        },
{
    match PaddingFactory::new(raw) {
        Some(padding) => Ok(padding),
        None => Err(
            AnyTlsError::protocol(String::from_str("invalid padding scheme file: ").concat(path).as_str()),
        ),
    }
}

/// What is said of a rate and a gain on the command line. A gain without a rate is refused.
pub open spec fn brutal_args(rate: Option<u64>, cwnd_gain: Option<u32>) -> core::result::Result<
    Option<TcpBrutalConfig>,
    ErrorView,
> {
    match rate {
        None => if cwnd_gain is None {
            Ok(None)
        } else {
            Err(ErrorView::Protocol("--tcp-brutal-cwnd-gain requires --tcp-brutal-rate"@))
        },
        Some(rate) => match brutal_of(
            rate,
            match cwnd_gain {
                Some(gain) => gain,
                None => DEFAULT_TCP_BRUTAL_CWND_GAIN,
            },
        ) {
            Ok(config) => Ok(Some(config)),
            Err(err) => Err(err),
        },
    }
}

/// The rate and gain that the command line gives.
pub fn tcp_brutal_config(rate: Option<u64>, cwnd_gain: Option<u32>) -> (config: Result<Option<TcpBrutalConfig>>)
    ensures
        match config {
            Ok(config) => brutal_args(rate, cwnd_gain) == Ok::<Option<TcpBrutalConfig>, ErrorView>(config),
            Err(err) => brutal_args(rate, cwnd_gain) == Err::<Option<TcpBrutalConfig>, ErrorView>(err@),
        },
{
    match rate {
        None => match cwnd_gain {
            None => Ok(None),
            Some(_) => Err(AnyTlsError::protocol("--tcp-brutal-cwnd-gain requires --tcp-brutal-rate")),
        },
        Some(rate) => {
            let gain: u32 = match cwnd_gain {
                Some(gain) => gain,
                None => DEFAULT_TCP_BRUTAL_CWND_GAIN,
            };
            match TcpBrutalConfig::new(rate, gain) {
                Ok(config) => Ok(Some(config)),
                Err(err) => Err(err),
            }
        },
    }
}

/// The Reality settings that the command line gives.
pub fn reality_from_args(
    dest: Option<String>,
    server_names: Vec<String>,
    private_key: Option<String>,
    public_key: Option<String>,
    short_ids: Vec<String>,
    fingerprint: String,
) -> (config: Result<RealityConfig>)
    ensures
        match config {
            Ok(config) => {
                &&& dest == Some(config.dest)
                &&& server_names@.len() > 0
                &&& config.server_names == server_names
                &&& private_key == Some(config.private_key)
                &&& config.public_key == public_key
                &&& config.short_ids == short_ids
                &&& config.fingerprint == fingerprint
            },
            Err(err) => if dest is None {
                err@ == ErrorView::Protocol("reality server requires --reality-dest"@)
            } else if server_names@.len() == 0 {
                err@ == ErrorView::Protocol("reality server requires --reality-server-names"@)
            } else {
                private_key is None && err@ == ErrorView::Protocol(
                    "reality server requires --reality-private-key"@,
                )
            },
        },
{
    let dest = match dest {
        Some(dest) => dest,
        None => {
            return Err(AnyTlsError::protocol("reality server requires --reality-dest"));
        },
    };
    if server_names.len() == 0 {
        return Err(AnyTlsError::protocol("reality server requires --reality-server-names"));
    }
    match private_key {
        Some(private_key) => Ok(
            RealityConfig { dest, server_names, private_key, public_key, short_ids, fingerprint },
        ),
        None => Err(AnyTlsError::protocol("reality server requires --reality-private-key")),
    }
}

/// The Reality section of a settings file that has to have one.
pub fn reality_section(reality: Option<RealityConfig>) -> (section: Result<RealityConfig>)
    ensures
        match section {
            Ok(section) => reality == Some(section),
            Err(err) => reality is None && err@ == ErrorView::Protocol(
                "reality server yaml config requires a reality section"@,
            ),
        },
{
    match reality {
        Some(section) => Ok(section),
        None => Err(AnyTlsError::protocol("reality server yaml config requires a reality section")),
    }
}

// Random values.

/// Random bytes to be written as text.
#[derive(Clone, Copy, Debug, PartialEq, Eq, Structural)]
pub enum RandRequest {
    Hex(usize),
    Base64(usize),
}

/// What is asked for: bytes in one of the two forms, and not none.
pub open spec fn rand_args(hex: Option<usize>, base64: Option<usize>) -> core::result::Result<
    RandRequest,
    ErrorView,
> {
    match (hex, base64) {
        (Some(_), Some(_)) => Err(ErrorView::Protocol("generate rand accepts either --hex or --base64"@)),
        (None, None) => Err(ErrorView::Protocol("generate rand requires --hex <bytes> or --base64 <bytes>"@)),
        (Some(n), None) => if n == 0 {
            Err(ErrorView::Protocol("random hex byte length must be greater than 0"@))
        } else {
            Ok(RandRequest::Hex(n))
        },
        (None, Some(n)) => if n == 0 {
            Err(ErrorView::Protocol("random base64 byte length must be greater than 0"@))
        } else {
            Ok(RandRequest::Base64(n))
        },
    }
}

/// What is asked for on the command line.
pub fn rand_request(hex: Option<usize>, base64: Option<usize>) -> (request: Result<RandRequest>)
    ensures
        match request {
            Ok(request) => rand_args(hex, base64) == Ok::<RandRequest, ErrorView>(request),
            Err(err) => rand_args(hex, base64) == Err::<RandRequest, ErrorView>(err@),
        },
{
    match (hex, base64) {
        (Some(_), Some(_)) => Err(AnyTlsError::protocol("generate rand accepts either --hex or --base64")),
        (None, None) => Err(AnyTlsError::protocol("generate rand requires --hex <bytes> or --base64 <bytes>")),
        (Some(n), None) => if n == 0 {
            Err(AnyTlsError::protocol("random hex byte length must be greater than 0"))
        } else {
            Ok(RandRequest::Hex(n))
        },
        (None, Some(n)) => if n == 0 {
            Err(AnyTlsError::protocol("random base64 byte length must be greater than 0"))
        } else {
            Ok(RandRequest::Base64(n))
        },
    }
}

/// Random bytes in hexadecimal.
pub fn random_hex(bytes: usize) -> (text: String)
    requires
        bytes <= isize::MAX,
    ensures
        exists|random: Seq<u8>| random.len() == bytes && text@ == #[trigger] hex_bytes(random),
{
    let random = random_bytes(bytes);
    hex_text(random.as_slice())
}

/// Random bytes in base64.
pub fn random_base64(bytes: usize) -> (text: String)
    requires
        base64_len(bytes as nat) <= isize::MAX,
    ensures
        exists|random: Seq<u8>| random.len() == bytes && text@ == #[trigger] base64_standard(random),
{
    let random = random_bytes(bytes);
    encode_base64(random.as_slice())
}

// The tag of a link.

/// A character as it stands in a tag.
pub open spec fn tag_char(c: char) -> char {
    if ('a' <= c && c <= 'z') || ('0' <= c && c <= '9') || ('A' <= c && c <= 'Z') {
        ascii_lower(c)
    } else {
        '-'
    }
}

/// A text as a part of a tag: lower-case letters, digits and dashes, and no dash at an end.
pub open spec fn tag_segment(text: Seq<char>) -> Seq<char> {
    trim(trim(text, CharClass::Whitespace).map_values(|c: char| tag_char(c)), CharClass::Dash)
}

/// What a tag starts with: the label that was given, or else the name of this machine, or else the
/// server.
pub open spec fn tag_label_of(label: Option<Seq<char>>, hostname: Option<Seq<char>>, server: Seq<char>) -> Seq<char> {
    if label is Some && trim(label->0, CharClass::Whitespace).len() > 0 {
        label->0
    } else {
        match hostname {
            Some(hostname) => hostname,
            None => server,
        }
    }
}

/// A tag: its parts, but for empty ones, with dashes between them.
pub open spec fn share_tag(label: Seq<char>, suffix: Seq<char>) -> Seq<char> {
    join(
        seq![tag_segment(label), "rust"@, suffix].filter(|part: Seq<char>| part.len() > 0),
        seq!['-'],
    )
}

/// A text as a part of a tag.
pub fn normalize_tag_segment(value: &str) -> (segment: String)
    ensures
        segment@ == tag_segment(value@),
{
    let chars = chars_of(value);
    let text = trimmed(chars.as_slice(), CharClass::Whitespace);
    let mut mapped: Vec<char> = Vec::new();
    let mut i: usize = 0;
    while i < text.len()
        invariant
            i <= text@.len(),
            mapped@.len() == i,
            forall|j: int| 0 <= j < i ==> #[trigger] mapped@[j] == tag_char(text@[j]),
        decreases text@.len() - i,
    {
        let c: char = text[i];
        let kept = ('a' <= c && c <= 'z') || ('0' <= c && c <= '9') || ('A' <= c && c <= 'Z');
        mapped.push(if kept { to_ascii_lower(c) } else { '-' });
        i = i + 1;
    }
    assert(mapped@ =~= text@.map_values(|c: char| tag_char(c)));
    text_of(trimmed(mapped.as_slice(), CharClass::Dash))
}

/// Whether a label was given, so that the name of this machine is not asked for.
pub fn has_label(tag_label: Option<&str>) -> (yes: bool)
    ensures
        yes == (tag_label is Some && trim(tag_label->0@, CharClass::Whitespace).len() > 0),
{
    match tag_label {
        Some(label) => trimmed(chars_of(label).as_slice(), CharClass::Whitespace).len() > 0,
        None => false,
    }
}

/// The tag of a link.
pub fn build_share_tag(tag_label: Option<&str>, hostname: Option<&str>, server: &str, suffix: &str) -> (tag: String)
    ensures
        tag@ == share_tag(
            tag_label_of(
                match tag_label {
                    Some(label) => Some(label@),
                    None => None,
                },
                match hostname {
                    Some(hostname) => Some(hostname@),
                    None => None,
                },
                server@,
            ),
            suffix@,
        ),
{
    let label = if has_label(tag_label) {
        tag_label.unwrap()
    } else {
        match hostname {
            Some(hostname) => hostname,
            None => server,
        }
    };
    let segment = normalize_tag_segment(label);
    let mut parts: Vec<String> = Vec::new();
    let ghost all = seq![segment@, "rust"@, suffix@];
    proof {
        let keep = |part: Seq<char>| part.len() > 0;
        reveal_strlit("rust");
        reveal_with_fuel(Seq::filter, 4);
        assert(all.drop_last() =~= seq![segment@, "rust"@]);
        assert(all.drop_last().drop_last() =~= seq![segment@]);
        assert(all.drop_last().drop_last().drop_last() =~= Seq::empty());
        let one = if segment@.len() > 0 {
            seq![segment@]
        } else {
            Seq::empty()
        };
        assert(seq![segment@].filter(keep) =~= one);
        assert(all.filter(keep) =~= one + seq!["rust"@] + if suffix@.len() > 0 {
            seq![suffix@]
        } else {
            Seq::empty()
        });
    }
    if !segment.as_str().is_empty() {
        parts.push(segment);
    }
    parts.push(String::from_str("rust"));
    if !suffix.is_empty() {
        parts.push(suffix.to_owned());
    }
    assert(string_views(parts@) =~= all.filter(|part: Seq<char>| part.len() > 0));
    joined(&parts, '-')
}

/// The name of this machine, from what the program that tells it has printed.
pub open spec fn hostname_of(success: bool, output: Seq<u8>) -> Option<Seq<char>> {
    if success && valid_utf8(output) && trim(decode_utf8(output), CharClass::Whitespace).len() > 0 {
        Some(trim(decode_utf8(output), CharClass::Whitespace))
    } else {
        None
    }
}

/// The name of this machine, from what the program that tells it has printed.
pub fn hostname_from_output(success: bool, output: Vec<u8>) -> (hostname: Option<String>)
    ensures
        match hostname {
            Some(hostname) => hostname_of(success, output@) == Some(hostname@),
            None => hostname_of(success, output@) is None,
        },
{
    if !success {
        return None;
    }
    let text = match utf8_text(output) {
        Some(text) => text,
        None => {
            return None;
        },
    };
    let chars = chars_of(text.as_str());
    let name = trimmed(chars.as_slice(), CharClass::Whitespace);
    if name.len() == 0 {
        None
    } else {
        Some(text_of(name))
    }
}

// Settings for a new Reality server.

/// What a new Reality server is made of.
pub struct RealityPlan {
    pub listen: String,
    pub sni: String,
    pub dest: Option<String>,
    pub fingerprint: String,
    pub password: String,
    pub private_key: String,
    pub public_key: String,
    pub short_id: Option<String>,
    pub up_mbps: Option<u64>,
    pub down_mbps: Option<u64>,
    pub cwnd_gain: u32,
}

/// The key pair of a new server: the private key that was given and its public key, or a new pair.
/// The private key leads to the public one.
pub fn choose_keypair(private_key: Option<String>) -> (pair: Result<(String, String)>)
    ensures
        match pair {
            Ok((private, public)) => public_key_of(private@) == Ok::<Seq<char>, Seq<char>>(public@) && (
            private_key is Some ==> private@ == private_key->0@),
            Err(err) => private_key is Some && public_key_of(private_key->0@) is Err && err@ == ErrorView::Protocol(
                public_key_of(private_key->0@)->Err_0,
            ),
        },
{
    match private_key {
        Some(private) => match public_key_from_private_key(private.as_str()) {
            Ok(public) => Ok((private, public)),
            Err(err) => Err(AnyTlsError::Protocol(err.message)),
        },
        None => Ok(generate_keypair()),
    }
}

/// The rates of a new server. Both have to be given, or none.
pub open spec fn brutal_choice(up_mbps: Option<u64>, down_mbps: Option<u64>, cwnd_gain: u32) -> core::result::Result<
    Option<ServerTcpBrutalConfig>,
    ErrorView,
> {
    match (up_mbps, down_mbps) {
        (Some(_), Some(_)) => Ok(Some(ServerTcpBrutalConfig { enabled: true, up_mbps, down_mbps, cwnd_gain })),
        (None, None) => Ok(None),
        _ => Err(
            ErrorView::Protocol(
                "reality-server-config requires both --up-mbps and --down-mbps when enabling tcp brutal"@,
            ),
        ),
    }
}

/// The rates of a new server.
pub fn choose_tcp_brutal(up_mbps: Option<u64>, down_mbps: Option<u64>, cwnd_gain: u32) -> (config: Result<
    Option<ServerTcpBrutalConfig>,
>)
    ensures
        match config {
            Ok(config) => brutal_choice(up_mbps, down_mbps, cwnd_gain) == Ok::<
                Option<ServerTcpBrutalConfig>,
                ErrorView,
            >(config),
            Err(err) => brutal_choice(up_mbps, down_mbps, cwnd_gain) == Err::<
                Option<ServerTcpBrutalConfig>,
                ErrorView,
            >(err@),
        },
{
    match (up_mbps, down_mbps) {
        (Some(up), Some(down)) => Ok(Some(ServerTcpBrutalConfig::enabled(up, down, cwnd_gain))),
        (None, None) => Ok(None),
        _ => Err(
            AnyTlsError::protocol(
                "reality-server-config requires both --up-mbps and --down-mbps when enabling tcp brutal",
            ),
        ),
    }
}

/// The settings file of a new server: the site that strangers are shown is the one whose name
/// clients ask for, at port 443, unless another is named; an absent identifier is the empty one.
pub open spec fn is_settings_for(config: ServerFileConfig, plan: RealityPlan) -> bool {
    &&& config.listen@ == plan.listen@
    &&& config.password@ == plan.password@
    &&& config.padding_scheme is None
    &&& config.security@ == "reality"@
    &&& config.tls is None
    &&& config.reality matches Some(reality) && {
        &&& reality.dest@ == match plan.dest {
            Some(dest) => dest@,
            None => plan.sni@ + ":443"@,
        }
        &&& string_views(reality.server_names@) == seq![plan.sni@]
        &&& reality.private_key@ == plan.private_key@
        &&& reality.public_key is Some
        &&& reality.public_key->0@ == plan.public_key@
        &&& string_views(reality.short_ids@) == seq![
            match plan.short_id {
                Some(id) => id@,
                None => Seq::empty(),
            },
        ]
        &&& reality.fingerprint@ == plan.fingerprint@
    }
    &&& match brutal_choice(plan.up_mbps, plan.down_mbps, plan.cwnd_gain) {
        Ok(Some(brutal)) => config.tcp_brutal == brutal,
        Ok(None) => config.tcp_brutal == (ServerTcpBrutalConfig {
            enabled: false,
            up_mbps: None,
            down_mbps: None,
            cwnd_gain: DEFAULT_TCP_BRUTAL_CWND_GAIN,
        }),
        Err(_) => false,
    }
}

/// The settings file of a new server.
pub fn reality_server_config(plan: &RealityPlan) -> (config: Result<ServerFileConfig>)
    ensures
        match config {
            Ok(config) => is_settings_for(config, *plan),
            Err(err) => brutal_choice(plan.up_mbps, plan.down_mbps, plan.cwnd_gain) == Err::<
                Option<ServerTcpBrutalConfig>,
                ErrorView,
            >(err@),
        },
{
    let tcp_brutal = match choose_tcp_brutal(plan.up_mbps, plan.down_mbps, plan.cwnd_gain) {
        Ok(Some(brutal)) => brutal,
        Ok(None) => ServerTcpBrutalConfig::default(),
        Err(err) => {
            return Err(err);
        },
    };
    let dest = match &plan.dest {
        Some(dest) => dest.clone(),
        None => plan.sni.clone().concat(":443"),
    };
    let short_id = match &plan.short_id {
        Some(id) => id.clone(),
        None => String::new(),
    };
    let server_names: Vec<String> = vec![plan.sni.clone()];
    let short_ids: Vec<String> = vec![short_id];
    assert(string_views(server_names@) =~= seq![plan.sni@]);
    assert(string_views(short_ids@) =~= seq![short_ids@[0]@]);
    Ok(
        ServerFileConfig {
            listen: plan.listen.clone(),
            password: plan.password.clone(),
            padding_scheme: None,
            security: String::from_str("reality"),
            tls: None,
            reality: Some(
                RealityConfig {
                    dest,
                    server_names,
                    private_key: plan.private_key.clone(),
                    public_key: Some(plan.public_key.clone()),
                    short_ids,
                    fingerprint: plan.fingerprint.clone(),
                },
            ),
            tcp_brutal,
        },
    )
}

/// The lines that show a new server's values.
pub open spec fn summary_text(server: Seq<char>, port: u16, plan: RealityPlan) -> Seq<char> {
    let rates = match (plan.up_mbps, plan.down_mbps) {
        (Some(up), Some(down)) => "tcp_brutal_up_mbps: "@ + dec(up as nat) + "\ntcp_brutal_down_mbps: "@ + dec(
            down as nat,
        ) + "\n"@,
        _ => Seq::empty(),
    };
    "# Generated values\nserver: "@ + server + "\nport: "@ + dec(port as nat) + "\npassword: "@ + plan.password@
        + "\nprivate_key: "@ + plan.private_key@ + "\npublic_key: "@ + plan.public_key@ + "\nshort_id: "@ + (
    match plan.short_id {
        Some(id) => id@,
        None => Seq::empty(),
    }) + "\n"@ + rates
}

/// The lines that show a new server's values.
pub fn generated_values(server: &str, port: u16, plan: &RealityPlan) -> (text: String)
    ensures
        text@ == summary_text(server@, port, *plan),
{
    let short_id = match &plan.short_id {
        Some(id) => id.clone(),
        None => String::new(),
    };
    let text = String::from_str("# Generated values\nserver: ").concat(server).concat("\nport: ").concat(
        dec_text(port as u64).as_str(),
    ).concat("\npassword: ").concat(plan.password.as_str()).concat("\nprivate_key: ").concat(
        plan.private_key.as_str(),
    ).concat("\npublic_key: ").concat(plan.public_key.as_str()).concat("\nshort_id: ").concat(
        short_id.as_str(),
    ).concat("\n");
    match (plan.up_mbps, plan.down_mbps) {
        (Some(up), Some(down)) => {
            let rates = String::from_str("tcp_brutal_up_mbps: ").concat(dec_text(up).as_str()).concat(
                "\ntcp_brutal_down_mbps: ",
            ).concat(dec_text(down).as_str()).concat("\n");
            text.concat(rates.as_str())
        },
        _ => {
            assert(text@ =~= summary_text(server@, port, *plan));
            text
        },
    }
}

/// What a client's settings say about a new server.
pub struct ClientSnippet {
    pub server: String,
    pub port: u16,
    pub sni: String,
    pub fingerprint: String,
    pub public_key: String,
    pub password: String,
    pub short_id: String,
    /// The rates up and down, where the server has them.
    pub brutal: Option<(u64, u64)>,
}

/// Whether a client's settings say this about a new server. An absent identifier is the empty one.
pub open spec fn is_snippet_for(snippet: ClientSnippet, server: Seq<char>, port: u16, plan: RealityPlan) -> bool {
    &&& snippet.server@ == server
    &&& snippet.port == port
    &&& snippet.sni@ == plan.sni@
    &&& snippet.fingerprint@ == plan.fingerprint@
    &&& snippet.public_key@ == plan.public_key@
    &&& snippet.password@ == plan.password@
    &&& snippet.short_id@ == match plan.short_id {
        Some(id) => id@,
        None => Seq::empty(),
    }
    &&& snippet.brutal == match (plan.up_mbps, plan.down_mbps) {
        (Some(up), Some(down)) => Some((up, down)),
        _ => None,
    }
}

/// What a client's settings say about a new server.
pub fn client_snippet(server: &str, port: u16, plan: &RealityPlan) -> (snippet: ClientSnippet)
    ensures
        is_snippet_for(snippet, server@, port, *plan),
{
    ClientSnippet {
        server: server.to_owned(),
        port,
        sni: plan.sni.clone(),
        fingerprint: plan.fingerprint.clone(),
        public_key: plan.public_key.clone(),
        password: plan.password.clone(),
        short_id: match &plan.short_id {
            Some(id) => id.clone(),
            None => String::new(),
        },
        brutal: match (plan.up_mbps, plan.down_mbps) {
            (Some(up), Some(down)) => Some((up, down)),
            _ => None,
        },
    }
}

/// What the link to a new server is made of.
pub open spec fn link_of(server: Seq<char>, port: u16, plan: RealityPlan, tag: Seq<char>) -> LinkView {
    LinkView {
        password: plan.password@,
        server,
        port,
        security: "reality"@,
        sni: plan.sni@,
        fingerprint: plan.fingerprint@,
        public_key: Some(plan.public_key@),
        short_id: Some(
            match plan.short_id {
                Some(id) => id@,
                None => Seq::empty(),
            },
        ),
        tag,
    }
}

/// The link to a new server.
pub fn reality_link(server: &str, port: u16, plan: &RealityPlan, tag: &str) -> (uri: String)
    ensures
        uri@ == link_text(link_of(server@, port, *plan, tag@)),
{
    let snippet = client_snippet(server, port, plan);
    let fields = LinkFields {
        password: snippet.password.as_str(),
        server: snippet.server.as_str(),
        port: snippet.port,
        security: "reality",
        sni: snippet.sni.as_str(),
        fingerprint: snippet.fingerprint.as_str(),
        public_key: Some(snippet.public_key.as_str()),
        short_id: Some(snippet.short_id.as_str()),
        tag,
    };
    assert(fields@ == link_of(server@, port, *plan, tag@));
    build_anytls_uri(fields)
}

/// The link to a new server, the server's settings file and a client's settings hold the same
/// values.
pub proof fn link_and_settings_agree(
    server: Seq<char>,
    port: u16,
    plan: RealityPlan,
    tag: Seq<char>,
    config: ServerFileConfig,
    snippet: ClientSnippet,
)
    requires
        is_settings_for(config, plan),
        is_snippet_for(snippet, server, port, plan),
    ensures
        ({
            let link = link_of(server, port, plan, tag);
            let reality = config.reality->0;
            &&& link.password == config.password@ && link.password == snippet.password@
            &&& link.security == config.security@
            &&& seq![link.sni] == string_views(reality.server_names@) && link.sni == snippet.sni@
            &&& link.fingerprint == reality.fingerprint@ && link.fingerprint == snippet.fingerprint@
            &&& link.public_key == Some(reality.public_key->0@) && link.public_key == Some(snippet.public_key@)
            &&& seq![link.short_id->0] == string_views(reality.short_ids@) && link.short_id == Some(snippet.short_id@)
            &&& link.server == snippet.server@ && link.port == snippet.port
        }),
{
}

/// Commands that write a new server's settings file and start the server with it.
pub fn deployment_commands(yaml: &str) -> (text: String)
    ensures
        text@ == "cat > anyreality.yaml <<'EOF'\n"@ + yaml@ + "EOF\n./anytls server --config anyreality.yaml\n"@,
{
    String::from_str("cat > anyreality.yaml <<'EOF'\n").concat(yaml).concat(
        "EOF\n./anytls server --config anyreality.yaml\n",
    )
}

/// The line that shows at what rate a server sends, where it has one.
pub open spec fn rate_line(brutal: ServerTcpBrutalConfig) -> core::result::Result<Option<Seq<char>>, ErrorView> {
    if !brutal.enabled {
        Ok(None)
    } else {
        match bytes_per_second(
            match brutal.down_mbps {
                Some(mbps) => mbps,
                None => 0,
            },
        ) {
            Ok(rate) => Ok(Some("# tcp-brutal server send rate: "@ + dec(rate as nat) + " bytes/s"@)),
            Err(err) => Err(err),
        }
    }
}

/// The line that shows at what rate a server sends, where it has one.
pub fn send_rate_line(brutal: &ServerTcpBrutalConfig) -> (line: Result<Option<String>>)
    ensures
        match line {
            Ok(Some(line)) => rate_line(*brutal) == Ok::<Option<Seq<char>>, ErrorView>(Some(line@)),
            Ok(None) => rate_line(*brutal) == Ok::<Option<Seq<char>>, ErrorView>(None),
            Err(err) => rate_line(*brutal) == Err::<Option<Seq<char>>, ErrorView>(err@),
        },
{
    if !brutal.enabled {
        return Ok(None);
    }
    let mbps: u64 = match brutal.down_mbps {
        Some(mbps) => mbps,
        None => 0,
    };
    match mbps_to_bytes_per_second(mbps) {
        Ok(rate) => Ok(
            Some(
                String::from_str("# tcp-brutal server send rate: ").concat(dec_text(rate).as_str()).concat(
                    " bytes/s",
                ),
            ),
        ),
        Err(err) => Err(err),
    }
}

// What holds of what the command line asks for.

/// A rate on the command line is sent at, with the gain that is given or else with fifteen tenths. A
/// gain without a rate is refused, and without either the sending is left alone.
pub proof fn rates_come_from_the_command_line(rate: u64, gain: u32)
    ensures
        rate > 0 && gain > 0 ==> brutal_args(Some(rate), Some(gain)) == Ok::<Option<TcpBrutalConfig>, ErrorView>(
            Some(TcpBrutalConfig { rate, cwnd_gain: gain }),
        ),
        rate > 0 ==> brutal_args(Some(rate), None) == Ok::<Option<TcpBrutalConfig>, ErrorView>(
            Some(TcpBrutalConfig { rate, cwnd_gain: 15 }),
        ),
        rate == 0 || gain == 0 ==> brutal_args(Some(rate), Some(gain)) is Err,
        rate == 0 ==> brutal_args(Some(rate), None) is Err,
        brutal_args(None, Some(gain)) is Err,
        brutal_args(None, None) == Ok::<Option<TcpBrutalConfig>, ErrorView>(None),
{
}

/// Random bytes are asked for in one form, and as many as are asked for.
pub proof fn random_bytes_are_asked_for_in_one_form(n: usize, m: usize)
    ensures
        n > 0 ==> rand_args(Some(n), None) == Ok::<RandRequest, ErrorView>(RandRequest::Hex(n)),
        n > 0 ==> rand_args(None, Some(n)) == Ok::<RandRequest, ErrorView>(RandRequest::Base64(n)),
        n == 0 ==> rand_args(Some(n), None) is Err && rand_args(None, Some(n)) is Err,
        rand_args(Some(n), Some(m)) is Err,
        rand_args(None, None) is Err,
{
}

/// A part of a tag holds lower-case ASCII letters, digits and dashes, and no dash at an end.
pub proof fn tag_parts_are_plain(text: Seq<char>, i: int)
    ensures
        ({
            let part = tag_segment(text);
            &&& 0 <= i < part.len() ==> ('a' <= part[i] && part[i] <= 'z') || ('0' <= part[i] && part[i] <= '9')
                || part[i] == '-'
            &&& part.len() > 0 ==> part[0] != '-' && part.last() != '-'
            &&& part.len() <= text.len()
        }),
{
    let inner = trim(text, CharClass::Whitespace);
    let mapped = inner.map_values(|c: char| tag_char(c));
    trimmed_texts_are_parts(text, CharClass::Whitespace);
    trimmed_texts_are_parts(mapped, CharClass::Dash);
    let part = tag_segment(text);
    let at = choose|at: int| 0 <= at && at + part.len() <= mapped.len() && part == #[trigger] mapped.subrange(
        at,
        at + part.len(),
    );
    if 0 <= i < part.len() {
        assert(part[i] == mapped[at + i]);
        assert(mapped[at + i] == tag_char(inner[at + i]));
    }
}

/// A text with a letter or digit at each end becomes a part of a tag character by character: letters
/// in lower case, digits as they are, and a dash for everything else.
pub proof fn tag_parts_follow_their_text(text: Seq<char>)
    requires
        text.len() > 0,
        is_plain(text[0]),
        is_plain(text[text.len() - 1]),
    ensures
        ({
            let part = tag_segment(text);
            &&& part.len() == text.len()
            &&& forall|i: int|
                0 <= i < text.len() ==> #[trigger] part[i] == if is_plain(text[i]) {
                    ascii_lower(text[i])
                } else {
                    '-'
                }
        }),
{
    let mapped = text.map_values(|c: char| tag_char(c));
    assert(!is_whitespace(text[0]) && !is_whitespace(text[text.len() - 1]));
    assert(is_plain(text[0]) && is_plain(text[text.len() - 1]));
    trimming_takes_the_ends_off(Seq::empty(), text, Seq::empty(), CharClass::Whitespace);
    assert(Seq::empty() + text + Seq::empty() =~= text);
    trimming_takes_the_ends_off(Seq::empty(), mapped, Seq::empty(), CharClass::Dash);
    assert(Seq::empty() + mapped + Seq::empty() =~= mapped);
}

/// ASCII letters and digits.
pub open spec fn is_plain(c: char) -> bool {
    ('a' <= c && c <= 'z') || ('0' <= c && c <= '9') || ('A' <= c && c <= 'Z')
}

/// A tag starts with the label that was given, unless that is blank, or else with the machine's name,
/// or else with the server's.
pub proof fn labels_come_first(label: Seq<char>, hostname: Seq<char>, server: Seq<char>)
    ensures
        trim(label, CharClass::Whitespace).len() > 0 ==> tag_label_of(Some(label), Some(hostname), server) == label
            && tag_label_of(Some(label), None, server) == label,
        trim(label, CharClass::Whitespace).len() == 0 ==> tag_label_of(Some(label), Some(hostname), server) == hostname
            && tag_label_of(Some(label), None, server) == server,
        tag_label_of(None, Some(hostname), server) == hostname,
        tag_label_of(None, None, server) == server,
{
}

/// A tag is its label, the word `rust` and its suffix with dashes between them, without those that
/// are empty.
#[verifier::rlimit(40)]
pub proof fn tags_are_put_together(label: Seq<char>, suffix: Seq<char>)
    ensures
        tag_segment(label).len() > 0 && suffix.len() > 0 ==> share_tag(label, suffix) == tag_segment(label) + "-rust-"@
            + suffix,
        tag_segment(label).len() == 0 && suffix.len() > 0 ==> share_tag(label, suffix) == "rust-"@ + suffix,
        tag_segment(label).len() > 0 && suffix.len() == 0 ==> share_tag(label, suffix) == tag_segment(label) + "-rust"@,
        tag_segment(label).len() == 0 && suffix.len() == 0 ==> share_tag(label, suffix) == "rust"@,
{
    let keep = |part: Seq<char>| part.len() > 0;
    let first = tag_segment(label);
    let all = seq![first, "rust"@, suffix];
    reveal_strlit("rust");
    reveal_strlit("-rust-");
    reveal_strlit("rust-");
    reveal_strlit("-rust");
    reveal_with_fuel(Seq::filter, 4);
    reveal_with_fuel(join, 4);
    assert(all.drop_last() =~= seq![first, "rust"@]);
    assert(all.drop_last().drop_last() =~= seq![first]);
    assert(all.drop_last().drop_last().drop_last() =~= Seq::empty());
    let head = if first.len() > 0 {
        seq![first]
    } else {
        Seq::empty()
    };
    let tail = if suffix.len() > 0 {
        seq![suffix]
    } else {
        Seq::empty()
    };
    assert(seq![first].filter(keep) =~= head);
    let parts = head + seq!["rust"@] + tail;
    assert(all.filter(keep) =~= parts);
    let tag = join(parts, seq!['-']);
    if first.len() > 0 && suffix.len() > 0 {
        assert(parts.drop_first().drop_first() =~= seq![suffix]);
        assert(tag =~= first + "-rust-"@ + suffix);
    } else if suffix.len() > 0 {
        assert(parts.drop_first() =~= seq![suffix]);
        assert(tag =~= "rust-"@ + suffix);
    } else if first.len() > 0 {
        assert(parts.drop_first() =~= seq!["rust"@]);
        assert(tag =~= first + "-rust"@);
    } else {
        assert(parts =~= seq!["rust"@]);
    }
}

/// The name of a machine is what the program prints without the whitespace around it. A program that
/// fails, prints nothing or prints what is no text tells none.
#[verifier::rlimit(40)]
pub proof fn machines_tell_their_names(before: Seq<char>, name: Seq<char>, after: Seq<char>, output: Seq<u8>)
    requires
        forall|i: int| 0 <= i < before.len() ==> is_whitespace(#[trigger] before[i]),
        forall|i: int| 0 <= i < after.len() ==> is_whitespace(#[trigger] after[i]),
        name.len() > 0 ==> !is_whitespace(name[0]) && !is_whitespace(name.last()),
    ensures
        name.len() > 0 ==> hostname_of(true, encode_utf8(before + name + after)) == Some(name),
        name.len() == 0 ==> hostname_of(true, encode_utf8(before + name + after)) is None,
        hostname_of(false, output) is None,
        !valid_utf8(output) ==> hostname_of(true, output) is None,
{
    let text = before + name + after;
    encode_utf8_valid_utf8(text);
    encode_utf8_decode_utf8(text);
    assert forall|i: int| 0 <= i < before.len() implies in_class(CharClass::Whitespace, #[trigger] before[i]) by {}
    assert forall|i: int| 0 <= i < after.len() implies in_class(CharClass::Whitespace, #[trigger] after[i]) by {}
    trimming_takes_the_ends_off(before, name, after, CharClass::Whitespace);
}

/// A new server has both rates or none.
pub proof fn rates_are_given_together(up: u64, down: u64, gain: u32)
    ensures
        brutal_choice(Some(up), Some(down), gain) == Ok::<Option<ServerTcpBrutalConfig>, ErrorView>(
            Some(
                ServerTcpBrutalConfig { enabled: true, up_mbps: Some(up), down_mbps: Some(down), cwnd_gain: gain },
            ),
        ),
        brutal_choice(None, None, gain) == Ok::<Option<ServerTcpBrutalConfig>, ErrorView>(None),
        brutal_choice(Some(up), None, gain) is Err,
        brutal_choice(None, Some(down), gain) is Err,
{
}

/// The line that shows a server's rate shows the rate at which it sends.
pub proof fn the_rate_that_is_shown_is_sent(brutal: ServerTcpBrutalConfig)
    ensures
        server_brutal(brutal) matches Ok(Some(config)) ==> rate_line(brutal) == Ok::<Option<Seq<char>>, ErrorView>(
            Some("# tcp-brutal server send rate: "@ + dec(config.rate as nat) + " bytes/s"@),
        ),
        server_brutal(brutal) == Ok::<Option<TcpBrutalConfig>, ErrorView>(None) ==> rate_line(brutal) == Ok::<
            Option<Seq<char>>,
            ErrorView,
        >(None),
{
}

/// The settings file of a new server makes a server that the plan's key opens: the file's key, name,
/// identifier and site are those of the plan, and its rates are the plan's where it has both.
pub proof fn settings_follow_the_plan(config: ServerFileConfig, plan: RealityPlan)
    requires
        is_settings_for(config, plan),
    ensures
        ({
            let reality = config.reality->0;
            &&& config.reality is Some
            &&& config.listen@ == plan.listen@ && config.password@ == plan.password@ && config.security@ == "reality"@
            &&& config.tls is None && config.padding_scheme is None
            &&& reality.private_key@ == plan.private_key@
            &&& reality.server_names@.len() == 1 && reality.server_names@[0]@ == plan.sni@
            &&& reality.short_ids@.len() == 1
            &&& plan.short_id matches Some(id) ==> reality.short_ids@[0]@ == id@
            &&& plan.short_id is None ==> reality.short_ids@[0]@.len() == 0
            &&& plan.dest matches Some(dest) ==> reality.dest@ == dest@
            &&& plan.dest is None ==> reality.dest@ == plan.sni@ + ":443"@
            &&& plan.up_mbps is Some && plan.down_mbps is Some ==> config.tcp_brutal.enabled && config.tcp_brutal.up_mbps
                == plan.up_mbps && config.tcp_brutal.down_mbps == plan.down_mbps && config.tcp_brutal.cwnd_gain
                == plan.cwnd_gain
            &&& plan.up_mbps is None && plan.down_mbps is None ==> !config.tcp_brutal.enabled
            &&& (plan.up_mbps is Some) == (plan.down_mbps is Some)
        }),
{
    let reality = config.reality->0;
    assert(string_views(reality.server_names@).len() == reality.server_names@.len());
    assert(string_views(reality.short_ids@).len() == reality.short_ids@.len());
    if reality.server_names@.len() == 1 {
        assert(string_views(reality.server_names@)[0] == reality.server_names@[0]@);
    }
    if reality.short_ids@.len() == 1 {
        assert(string_views(reality.short_ids@)[0] == reality.short_ids@[0]@);
    }
}

/// A client's settings show both rates of a new server if and only if its settings file has them in
/// force.
pub proof fn client_settings_show_the_rates(
    server: Seq<char>,
    port: u16,
    plan: RealityPlan,
    config: ServerFileConfig,
    snippet: ClientSnippet,
)
    requires
        is_settings_for(config, plan),
        is_snippet_for(snippet, server, port, plan),
    ensures
        snippet.brutal is Some <==> config.tcp_brutal.enabled,
        snippet.brutal matches Some((up, down)) ==> config.tcp_brutal.up_mbps == Some(up)
            && config.tcp_brutal.down_mbps == Some(down),
{
}

/// A new server's values are shown behind their names, each on a line of its own, and the rates behind
/// them where it has both.
pub proof fn values_are_shown_by_name(server: Seq<char>, port: u16, plan: RealityPlan)
    ensures
        ({
            let id = match plan.short_id {
                Some(id) => id@,
                None => Seq::empty(),
            };
            let values = "# Generated values\nserver: "@ + server + "\nport: "@ + dec(port as nat) + "\npassword: "@
                + plan.password@ + "\nprivate_key: "@ + plan.private_key@ + "\npublic_key: "@ + plan.public_key@
                + "\nshort_id: "@ + id + "\n"@;
            &&& plan.up_mbps is None || plan.down_mbps is None ==> summary_text(server, port, plan) == values
            &&& plan.up_mbps matches Some(up) ==> plan.down_mbps matches Some(down) ==> summary_text(server, port, plan)
                == values + ("tcp_brutal_up_mbps: "@ + dec(up as nat) + "\ntcp_brutal_down_mbps: "@ + dec(down as nat)
                + "\n"@)
        }),
{
    let id = match plan.short_id {
        Some(id) => id@,
        None => Seq::empty(),
    };
    let values = "# Generated values\nserver: "@ + server + "\nport: "@ + dec(port as nat) + "\npassword: "@
        + plan.password@ + "\nprivate_key: "@ + plan.private_key@ + "\npublic_key: "@ + plan.public_key@
        + "\nshort_id: "@ + id + "\n"@;
    assert(values + Seq::<char>::empty() =~= values);
}

} // verus!
