//! What a Reality server makes of a connection.

use vstd::prelude::*;
use vstd::slice::{slice_subrange, slice_to_vec};
use vstd::utf8::encode_utf8;

use super::hello_parser::{hello_of, lemma_u16_at, parse_client_hello, u16_at, ClientHelloInfo, HelloView};
use super::RealityError;
use crate::crypto::{
    aes256_gcm_open, aes256_gcm_opened, hkdf_sha256, hkdf_sha256_key, x25519_shared, x25519_shared_secret,
};
use crate::digits::{hex_bytes, hex_text, lemma_hex_bytes};
use crate::encoding::{decode_hex, hex_decoded, hex_error};
use crate::text::{chars_of, find_char, first_index, lemma_first_index, same_text, split, text_of};
use crate::wire::{array_32, lemma_pow256_values, read_be, same_bytes};

verus! {

/// The mathematical value of a Reality server.
#[verifier::ext_equal]
pub struct ServerView {
    pub private_key: Seq<u8>,
    pub dest: Option<Seq<char>>,
    pub short_ids: Seq<Seq<u8>>,
    pub server_names: Seq<Seq<char>>,
}

/// A Reality server: its key, the clients that it knows, and the site that strangers are shown.
pub struct RealityServerRustls {
    private_key: [u8; 32],
    dest: Option<String>,
    short_ids: Vec<Vec<u8>>,
    server_names: Vec<String>,
}

pub open spec fn text_views(texts: Seq<String>) -> Seq<Seq<char>> {
    texts.map_values(|text: String| text@)
}

pub open spec fn byte_views(items: Seq<Vec<u8>>) -> Seq<Seq<u8>> {
    items.map_values(|item: Vec<u8>| item@)
}

impl View for RealityServerRustls {
    type V = ServerView;

    closed spec fn view(&self) -> ServerView {
        ServerView {
            private_key: self.private_key@,
            dest: match self.dest {
                Some(dest) => Some(dest@),
                None => None,
            },
            short_ids: byte_views(self.short_ids@),
            server_names: text_views(self.server_names@),
        }
    }
}

/// The identifiers that hexadecimal texts stand for, or why the first bad one does not.
pub open spec fn short_ids_of(texts: Seq<Seq<char>>) -> core::result::Result<Seq<Seq<u8>>, Seq<char>>
    decreases texts.len(),
{
    if texts.len() == 0 {
        Ok(Seq::empty())
    } else {
        match short_ids_of(texts.drop_last()) {
            Err(err) => Err(err),
            Ok(front) => match hex_decoded(texts.last()) {
                Some(id) => Ok(front.push(id)),
                None => Err("invalid shortId hex: "@ + hex_error(texts.last())),
            },
        }
    }
}

proof fn lemma_short_ids_front(texts: Seq<Seq<char>>, n: int)
    requires
        0 <= n <= texts.len(),
        short_ids_of(texts.take(n)) is Err,
    ensures
        short_ids_of(texts) == short_ids_of(texts.take(n)),
    decreases texts.len() - n,
{
    if n < texts.len() {
        assert(texts.take(n + 1).drop_last() =~= texts.take(n));
        lemma_short_ids_front(texts, n + 1);
    } else {
        assert(texts.take(n) =~= texts);
    }
}

/// The site that strangers are shown where none is named.
pub open spec fn dest_of(dest: Option<Seq<char>>) -> Seq<char> {
    match dest {
        Some(dest) => dest,
        None => "www.microsoft.com:443"@,
    }
}

/// The host of a site: what stands before the first colon.
pub open spec fn host_of(dest: Seq<char>) -> Seq<char> {
    split(dest, ':')[0]
}

/// Whether what a client sealed names one of the identifiers. With no identifiers, or with an
/// empty one among them, any client does.
pub open spec fn short_id_known(opened: Seq<u8>, short_ids: Seq<Seq<u8>>) -> bool {
    ||| short_ids.len() == 0
    ||| short_ids.contains(Seq::empty())
    ||| short_ids.contains(opened.subrange(4, 12))
    ||| short_ids.contains(opened.subrange(8, 16))
}

/// Whether a client may ask for this name.
pub open spec fn name_allowed(server_names: Seq<Seq<char>>, name: Option<Seq<char>>) -> bool {
    server_names.len() == 0 || (name is Some && server_names.contains(name->0))
}

/// Where `part` first occurs in `s` at or behind position `from`.
pub open spec fn find_from(s: Seq<char>, part: Seq<char>, from: int) -> Option<int>
    decreases s.len() + 1 - from,
{
    if from < 0 || from + part.len() > s.len() {
        None
    } else if s.subrange(from, from + part.len()) == part {
        Some(from)
    } else {
        find_from(s, part, from + 1)
    }
}

/// A hello with its session identifier blanked, as both sides take it for the data beside the
/// sealed message. The identifier is looked for in the hello's hexadecimal text.
pub open spec fn blanked(hello: Seq<u8>, session_id: Seq<u8>) -> Seq<u8> {
    match find_from(hex_bytes(hello), hex_bytes(session_id), 0) {
        Some(at) => Seq::new(
            hello.len(),
            |i: int|
                if at / 2 <= i < at / 2 + 32 {
                    0u8
                } else {
                    hello[i]
                },
        ),
        None => hello,
    }
}

/// A record without its header.
pub open spec fn handshake_message(full_hello: Seq<u8>) -> Seq<u8> {
    if full_hello[0] == 0x16 {
        full_hello.skip(5)
    } else {
        full_hello
    }
}

/// The key that a server and a client with this hello share.
pub open spec fn auth_key_of(private_key: Seq<u8>, hello: HelloView) -> Seq<u8> {
    hkdf_sha256_key(
        hello.client_random.take(20),
        x25519_shared_secret(private_key, hello.public_key->0),
        encode_utf8("REALITY"@),
    )
}

/// The key that is shared with a client, if the client has proved that it knows the server's
/// public key and one of its identifiers: the session identifier has to be a message of 32 bytes
/// that opens under the shared key, with the rest of the hello beside it.
pub open spec fn verified_key(server: ServerView, hello: HelloView, full_hello: Seq<u8>) -> Option<Seq<u8>> {
    if hello.session_id.len() != 32 || hello.public_key is None || hello.public_key->0.len() != 32 {
        None
    } else {
        let key = auth_key_of(server.private_key, hello);
        match aes256_gcm_opened(
            key,
            hello.client_random.skip(20),
            blanked(handshake_message(full_hello), hello.session_id),
            hello.session_id,
        ) {
            Some(opened) => if short_id_known(opened, server.short_ids) {
                Some(key)
            } else {
                None
            },
            None => None,
        }
    }
}

/// What is done with a connection.
pub enum Accept {
    /// The client is known: it is shown a certificate for this host, made with this key.
    Handshake { auth_key: [u8; 32], host: String },
    /// The client is a stranger: it is passed on to this site.
    Fallback { dest: String },
}

/// The mathematical value of an [`Accept`].
pub enum AcceptView {
    Handshake(Seq<u8>, Seq<char>),
    Fallback(Seq<char>),
}

impl View for Accept {
    type V = AcceptView;

    open spec fn view(&self) -> AcceptView {
        match self {
            Accept::Handshake { auth_key, host } => AcceptView::Handshake(auth_key@, host@),
            Accept::Fallback { dest } => AcceptView::Fallback(dest@),
        }
    }
}

/// What is done with a connection that starts with these bytes.
pub open spec fn decision(server: ServerView, buffer: Seq<u8>) -> AcceptView {
    let dest = dest_of(server.dest);
    match hello_of(buffer) {
        Ok(Some(hello)) => if name_allowed(server.server_names, hello.server_name) {
            match verified_key(server, hello, buffer) {
                Some(key) => AcceptView::Handshake(key, host_of(dest)),
                None => AcceptView::Fallback(dest),
            }
        } else {
            AcceptView::Fallback(dest)
        },
        _ => AcceptView::Fallback(dest),
    }
}

/// Whether more bytes are read before a connection is decided on: up to the end of the first
/// record, or to 16 KiB.
pub open spec fn more_wanted(buffer: Seq<u8>) -> bool {
    buffer.len() < 5 || (buffer[0] == 0x16 && buffer.len() < 5 + u16_at(buffer, 3) && buffer.len() < 16384)
}

/// A client that is let in has proved what [`verified_key`] asks for, and has asked for a name
/// that it may ask for. Everyone else is passed on.
pub proof fn only_known_clients_are_let_in(server: ServerView, buffer: Seq<u8>)
    ensures
        decision(server, buffer) is Handshake <==> (hello_of(buffer) matches Ok(Some(hello)) && name_allowed(
            server.server_names,
            hello.server_name,
        ) && verified_key(server, hello, buffer) is Some),
        decision(server, buffer) matches AcceptView::Fallback(dest) ==> dest == dest_of(server.dest),
{
}

/// Whether more bytes are read before a connection is decided on.
pub fn wants_more(buffer: &[u8]) -> (more: bool)
    ensures
        more == more_wanted(buffer@),
{
    if buffer.len() < 5 {
        return true;
    }
    proof {
        lemma_pow256_values();
    }
    let needed: usize = 5 + read_be(buffer, 3, 5) as usize;
    buffer[0] == 0x16 && buffer.len() < needed && buffer.len() < 16384
}

/// Whether a connection that ends here ends before its first record has begun.
pub fn ended_early(buffer: &[u8]) -> (early: bool)
    ensures
        early == (buffer@.len() < 5),
{
    buffer.len() < 5
}

fn contains_bytes(items: &[Vec<u8>], wanted: &[u8]) -> (found: bool)
    ensures
        found == byte_views(items@).contains(wanted@),
{
    let mut i: usize = 0;
    while i < items.len()
        invariant
            i <= items@.len(),
            forall|j: int| 0 <= j < i ==> (#[trigger] items@[j])@ != wanted@,
        decreases items@.len() - i,
    {
        if same_bytes(items[i].as_slice(), wanted) {
            assert(byte_views(items@)[i as int] == wanted@);
            return true;
        }
        i = i + 1;
    }
    proof {
        if byte_views(items@).contains(wanted@) {
            let j = choose|j: int| 0 <= j < byte_views(items@).len() && byte_views(items@)[j] == wanted@;
            assert(items@[j]@ == wanted@);
        }
    }
    false
}

/// Whether what a client sealed names one of the identifiers.
pub fn short_id_matches(buf: &[u8], short_ids: &[Vec<u8>]) -> (known: bool)
    requires
        short_ids@.len() == 0 || byte_views(short_ids@).contains(Seq::empty()) || buf@.len() >= 16,
    ensures
        known == short_id_known(buf@, byte_views(short_ids@)),
{
    if short_ids.len() == 0 {
        return true;
    }
    let empty: Vec<u8> = Vec::new();
    assert(empty@ =~= Seq::empty());
    if contains_bytes(short_ids, empty.as_slice()) {
        return true;
    }
    contains_bytes(short_ids, slice_subrange(buf, 4, 12)) || contains_bytes(short_ids, slice_subrange(buf, 8, 16))
}

/// Where `part` first occurs in `s`.
fn find_text(s: &[char], part: &[char]) -> (at: Option<usize>)
    ensures
        match at {
            Some(at) => find_from(s@, part@, 0) == Some(at as int),
            None => find_from(s@, part@, 0) is None,
        },
        at is Some ==> at->0 + part@.len() <= s@.len(),
{
    let mut i: usize = 0;
    while part.len() <= s.len() - i
        invariant
            i <= s@.len(),
            find_from(s@, part@, 0) == find_from(s@, part@, i as int),
        decreases s@.len() - i,
    {
        let here = slice_subrange(s, i, i + part.len());
        if same_text(here, part) {
            return Some(i);
        }
        assert(part@.len() == 0 ==> here@ =~= part@);
        i = i + 1;
    }
    None
}

/// Overwrites up to 32 bytes from position `start` on with zeros.
fn blank_at(bytes: &mut Vec<u8>, start: usize)
    ensures
        final(bytes)@ == Seq::new(
            old(bytes)@.len(),
            |i: int|
                if start <= i < start + 32 {
                    0u8
                } else {
                    old(bytes)@[i]
                },
        ),
{
    let ghost before = bytes@;
    let mut i: usize = 0;
    while i < 32
        invariant
            i <= 32,
            bytes@.len() == before.len(),
            forall|j: int|
                0 <= j < bytes@.len() ==> #[trigger] bytes@[j] == if start <= j < start + i {
                    0u8
                } else {
                    before[j]
                },
        decreases 32 - i,
    {
        if start < bytes.len() && i < bytes.len() - start {
            bytes[start + i] = 0;
        }
        i = i + 1;
    }
    assert(bytes@ =~= Seq::new(
        before.len(),
        |i: int|
            if start <= i < start + 32 {
                0u8
            } else {
                before[i]
            },
    ));
}

/// A hello with its session identifier blanked.
fn blank_session_id(hello: &[u8], session_id: &[u8]) -> (beside: Vec<u8>)
    ensures
        beside@ == blanked(hello@, session_id@),
{
    let mut beside = slice_to_vec(hello);
    let text = chars_of(hex_text(hello).as_str());
    let part = chars_of(hex_text(session_id).as_str());
    if let Some(at) = find_text(text.as_slice(), part.as_slice()) {
        blank_at(&mut beside, at / 2);
        assert(beside@ =~= blanked(hello@, session_id@));
    }
    beside
}

impl RealityServerRustls {
    pub fn new(
        private_key: [u8; 32],
        dest: Option<String>,
        short_ids: Vec<String>,
        server_names: Vec<String>,
    ) -> (server: core::result::Result<Self, RealityError>)
        ensures
            match server {
                Ok(server) => short_ids_of(text_views(short_ids@)) == Ok::<Seq<Seq<u8>>, Seq<char>>(
                    server@.short_ids,
                ) && server@.private_key == private_key@ && server@.dest == (match dest {
                    Some(dest) => Some(dest@),
                    None => None,
                }) && server@.server_names == text_views(server_names@),
                Err(err) => short_ids_of(text_views(short_ids@)) == Err::<Seq<Seq<u8>>, Seq<char>>(err.message@),
            },
    {
        let ghost texts = text_views(short_ids@);
        let mut ids: Vec<Vec<u8>> = Vec::new();
        let mut i: usize = 0;
        assert(texts.take(0) =~= Seq::empty());
        assert(byte_views(ids@) =~= Seq::empty());
        while i < short_ids.len()
            invariant
                i <= short_ids@.len(),
                texts == text_views(short_ids@),
                short_ids_of(texts.take(i as int)) == Ok::<Seq<Seq<u8>>, Seq<char>>(byte_views(ids@)),
            decreases short_ids@.len() - i,
        {
            let ghost before = byte_views(ids@);
            proof {
                assert(texts.take(i + 1).drop_last() =~= texts.take(i as int));
                assert(texts.take(i + 1).last() == short_ids@[i as int]@);
            }
            match decode_hex(short_ids[i].as_str()) {
                Ok(id) => {
                    let ghost id_view = id@;
                    ids.push(id);
                    assert(byte_views(ids@) =~= before.push(id_view));
                },
                Err(err) => {
                    proof {
                        lemma_short_ids_front(texts, i + 1);
                    }
                    let text = String::from_str("invalid shortId hex: ").concat(err.as_str());
                    return Err(RealityError { message: text });
                },
            }
            i = i + 1;
        }
        assert(texts.take(i as int) =~= texts);
        Ok(RealityServerRustls { private_key, dest, short_ids: ids, server_names })
    }

    /// The site that strangers are shown.
    pub fn dest(&self) -> (dest: String)
        ensures
            dest@ == dest_of(self@.dest),
    {
        match &self.dest {
            Some(dest) => dest.clone(),
            None => String::from_str("www.microsoft.com:443"),
        }
    }

    /// The host of the site that strangers are shown.
    pub fn dest_host(&self) -> (host: String)
        ensures
            host@ == host_of(dest_of(self@.dest)),
    {
        let chars = chars_of(self.dest().as_str());
        let end = find_char(chars.as_slice(), ':');
        let host = slice_subrange(chars.as_slice(), 0, end);
        proof {
            let dest = chars@;
            lemma_first_index(dest, ':');
            assert(host@ =~= dest.take(end as int));
            if end == dest.len() {
                assert(dest.take(end as int) =~= dest);
            }
        }
        text_of(host)
    }

    /// Whether a client may ask for this name.
    pub fn allows_name(&self, name: &Option<String>) -> (allowed: bool)
        ensures
            allowed == name_allowed(
                self@.server_names,
                match name {
                    Some(name) => Some(name@),
                    None => None,
                },
            ),
    {
        if self.server_names.len() == 0 {
            return true;
        }
        let wanted = match name {
            Some(wanted) => wanted,
            None => {
                return false;
            },
        };
        let mut i: usize = 0;
        while i < self.server_names.len()
            invariant
                i <= self.server_names@.len(),
                name matches Some(text) && text@ == wanted@,
                forall|j: int| 0 <= j < i ==> (#[trigger] self.server_names@[j])@ != wanted@,
            decreases self.server_names@.len() - i,
        {
            if self.server_names[i] == *wanted {
                assert(self@.server_names[i as int] == wanted@);
                assert(self@.server_names.contains(wanted@));
                return true;
            }
            i = i + 1;
        }
        proof {
            if self@.server_names.contains(wanted@) {
                let j = choose|j: int| 0 <= j < self@.server_names.len() && self@.server_names[j] == wanted@;
                assert(self.server_names@[j]@ == wanted@);
            }
        }
        false
    }

    /// The key that is shared with a client, if the client has proved that it knows the server.
    pub fn verify_client_reality(&self, info: &ClientHelloInfo, full_hello: &[u8]) -> (key: Option<[u8; 32]>)
        requires
            info.session_id@.len() == 32 && (info.public_key matches Some(key) && key@.len() == 32) ==> {
                &&& full_hello@.len() > 0
                &&& full_hello@[0] == 0x16 ==> full_hello@.len() >= 5
            },
        ensures
            match key {
                Some(key) => verified_key(self@, info@, full_hello@) == Some(key@),
                None => verified_key(self@, info@, full_hello@) is None,
            },
    {
        if info.session_id.len() != 32 {
            return None;
        }
        let client_key = match &info.public_key {
            Some(key) => if key.len() == 32 {
                array_32(key.as_slice())
            } else {
                return None;
            },
            None => {
                return None;
            },
        };
        let shared = x25519_shared(&self.private_key, &client_key);
        let salt = slice_subrange(info.client_random.as_slice(), 0, 20);
        assert(salt@ =~= info.client_random@.take(20));
        let auth_key = match hkdf_sha256(salt, &shared, "REALITY".as_bytes()) {
            Some(key) => key,
            None => {
                return None;
            },
        };
        let nonce = slice_subrange(info.client_random.as_slice(), 20, 32);
        assert(nonce@ =~= info.client_random@.skip(20));
        let message = if full_hello[0] == 0x16 {
            slice_subrange(full_hello, 5, full_hello.len())
        } else {
            full_hello
        };
        assert(message@ =~= handshake_message(full_hello@));
        let beside = blank_session_id(message, info.session_id.as_slice());
        match aes256_gcm_open(&auth_key, nonce, beside.as_slice(), info.session_id.as_slice()) {
            Some(opened) => if short_id_matches(opened.as_slice(), self.short_ids.as_slice()) {
                Some(auth_key)
            } else {
                None
            },
            None => None,
        }
    }

    /// What is done with a connection that starts with these bytes.
    pub fn decide(&self, buffer: &[u8]) -> (accept: Accept)
        ensures
            accept@ == decision(self@, buffer@),
    {
        if let Ok(Some(info)) = parse_client_hello(buffer) {
            if self.allows_name(&info.server_name) {
                if let Some(auth_key) = self.verify_client_reality(&info, buffer) {
                    return Accept::Handshake { auth_key, host: self.dest_host() };
                }
            }
        }
        Accept::Fallback { dest: self.dest() }
    }
}

/// A transport with bytes before it that have been read already.
pub struct PrefixedStream<S> {
    prefix: Vec<u8>,
    position: usize,
    inner: S,
}

impl<S> PrefixedStream<S> {
    /// The bytes that are still to be read before the transport's own.
    pub closed spec fn pending(self) -> Seq<u8> {
        if self.position <= self.prefix@.len() {
            self.prefix@.skip(self.position as int)
        } else {
            Seq::empty()
        }
    }

    /// The transport.
    pub closed spec fn transport(self) -> S {
        self.inner
    }

    pub fn new(prefix: Vec<u8>, inner: S) -> (stream: Self)
        ensures
            stream.pending() == prefix@,
            stream.transport() == inner,
    {
        assert(prefix@.skip(0) =~= prefix@);
        PrefixedStream { prefix, position: 0, inner }
    }

    /// Reads up to `room` of the bytes before the transport's own. With none left, the transport
    /// itself is read.
    pub fn read_prefix(&mut self, room: usize) -> (data: Option<Vec<u8>>)
        ensures
            final(self).transport() == old(self).transport(),
            match data {
                Some(data) => old(self).pending().len() > 0 && data@ + final(self).pending() == old(self).pending()
                    && data@.len() == if room < old(self).pending().len() {
                    room as nat
                } else {
                    old(self).pending().len()
                },
                None => old(self).pending().len() == 0 && final(self).pending() == old(self).pending(),
            },
    {
        if self.position >= self.prefix.len() {
            return None;
        }
        let left: usize = self.prefix.len() - self.position;
        let n: usize = if room < left { room } else { left };
        let end: usize = self.position + n;
        let data = slice_to_vec(slice_subrange(self.prefix.as_slice(), self.position, end));
        let ghost before = self.pending();
        self.position = end;
        assert(data@ + self.pending() =~= before);
        Some(data)
    }

    /// The transport.
    pub fn inner_mut(&mut self) -> (inner: &mut S)
        ensures
            *inner == old(self).transport(),
            final(self).transport() == *final(inner),
            final(self).pending() == old(self).pending(),
    {
        &mut self.inner
    }
}

/// A client may ask for every one of the listed names, wherever in the list it stands, and for no
/// other, nor for none. Without a list it may ask for anything.
pub proof fn every_listed_name_is_allowed(server_names: Seq<Seq<char>>, name: Seq<char>, i: int)
    ensures
        0 <= i < server_names.len() && name == server_names[i] ==> name_allowed(server_names, Some(name)),
        server_names.len() > 0 && (forall|j: int| 0 <= j < server_names.len() ==> #[trigger] server_names[j] != name)
            ==> !name_allowed(server_names, Some(name)),
        server_names.len() > 0 ==> !name_allowed(server_names, None),
        server_names.len() == 0 ==> name_allowed(server_names, Some(name)) && name_allowed(server_names, None),
{
    if 0 <= i < server_names.len() && name == server_names[i] {
        assert(server_names.contains(server_names[i]));
    }
}

/// A client is known by every one of the listed identifiers, wherever in the list it stands and
/// in whichever of its two places the client puts it, and by no other. Without a list, and with the
/// empty identifier in it, every client is known.
pub proof fn every_listed_identifier_is_known(opened: Seq<u8>, short_ids: Seq<Seq<u8>>, i: int)
    requires
        opened.len() >= 16,
    ensures
        0 <= i < short_ids.len() && short_ids[i] == opened.subrange(4, 12) ==> short_id_known(opened, short_ids),
        0 <= i < short_ids.len() && short_ids[i] == opened.subrange(8, 16) ==> short_id_known(opened, short_ids),
        0 <= i < short_ids.len() && short_ids[i].len() == 0 ==> short_id_known(opened, short_ids),
        short_ids.len() == 0 ==> short_id_known(opened, short_ids),
        short_ids.len() > 0 && (forall|j: int|
            0 <= j < short_ids.len() ==> (#[trigger] short_ids[j]).len() > 0 && short_ids[j] != opened.subrange(4, 12)
                && short_ids[j] != opened.subrange(8, 16)) ==> !short_id_known(opened, short_ids),
{
    if 0 <= i < short_ids.len() {
        assert(short_ids.contains(short_ids[i]));
        if short_ids[i].len() == 0 {
            assert(short_ids[i] =~= Seq::empty());
        }
    }
}

/// A client that has proved that it knows the server, and asks for one of the listed names, is let
/// in with the key that it shares with the server. It is shown a certificate for the host of the
/// site that strangers are shown.
#[verifier::rlimit(40)]
pub proof fn known_clients_are_let_in(server: ServerView, buffer: Seq<u8>, hello: HelloView, opened: Seq<u8>, i: int)
    requires
        hello_of(buffer) == Ok::<Option<HelloView>, Seq<char>>(Some(hello)),
        0 <= i < server.server_names.len(),
        hello.server_name == Some(server.server_names[i]),
        proves_key(server.private_key, hello, buffer, opened),
        short_id_known(opened, server.short_ids),
    ensures
        decision(server, buffer) == AcceptView::Handshake(
            hkdf_sha256_key(
                hello.client_random.subrange(0, 20),
                x25519_shared_secret(server.private_key, hello.public_key->0),
                encode_utf8("REALITY"@),
            ),
            host_of(dest_of(server.dest)),
        ),
{
    assert(server.server_names.contains(server.server_names[i]));
    assert(hello.client_random.subrange(0, 20) =~= hello.client_random.take(20));
    assert(hello.client_random.skip(20) =~= hello.client_random.subrange(20, 32));
    assert(buffer.skip(5) =~= buffer.subrange(5, buffer.len() as int));
}

/// The session identifier of a hello in a record is a message that opens as `opened` under the key
/// that the hello's key share and the server's key make, with the message of the record, its
/// session identifier blanked, beside it.
pub open spec fn proves_key(private_key: Seq<u8>, hello: HelloView, buffer: Seq<u8>, opened: Seq<u8>) -> bool {
    &&& hello.session_id.len() == 32
    &&& hello.client_random.len() == 32
    &&& hello.public_key is Some
    &&& hello.public_key->0.len() == 32
    &&& buffer.len() >= 5
    &&& buffer[0] == 0x16
    &&& aes256_gcm_opened(
        hkdf_sha256_key(
            hello.client_random.subrange(0, 20),
            x25519_shared_secret(private_key, hello.public_key->0),
            encode_utf8("REALITY"@),
        ),
        hello.client_random.subrange(20, 32),
        blanked(buffer.subrange(5, buffer.len() as int), hello.session_id),
        hello.session_id,
    ) == Some(opened)
}

/// Nobody else is let in: a client whose session identifier or key share has another length, whose
/// identifier does not open, or who names no known identifier or no listed name, is passed on, and
/// so is whoever sends no hello.
#[verifier::rlimit(40)]
pub proof fn strangers_are_passed_on(server: ServerView, buffer: Seq<u8>)
    ensures
        hello_of(buffer) is Err || hello_of(buffer) == Ok::<Option<HelloView>, Seq<char>>(None) ==> decision(
            server,
            buffer,
        ) == AcceptView::Fallback(dest_of(server.dest)),
        hello_of(buffer) matches Ok(Some(hello)) ==> ({
            ||| hello.session_id.len() != 32
            ||| hello.public_key is None
            ||| hello.public_key->0.len() != 32
            ||| server.server_names.len() > 0 && hello.server_name is None
            ||| server.server_names.len() > 0 && !server.server_names.contains(hello.server_name->0)
            ||| hello.client_random.len() == 32 && buffer.len() >= 5 && buffer[0] == 0x16 && forall|opened: Seq<u8>|
                short_id_known(opened, server.short_ids) ==> !#[trigger] proves_key(
                    server.private_key,
                    hello,
                    buffer,
                    opened,
                )
        }) ==> decision(server, buffer) == AcceptView::Fallback(dest_of(server.dest)),
{
    if let Ok(Some(hello)) = hello_of(buffer) {
        if hello.session_id.len() == 32 && hello.public_key is Some && hello.public_key->0.len() == 32
            && hello.client_random.len() == 32 && buffer.len() >= 5 && buffer[0] == 0x16 {
            assert(hello.client_random.subrange(0, 20) =~= hello.client_random.take(20));
            assert(hello.client_random.skip(20) =~= hello.client_random.subrange(20, 32));
            assert(buffer.skip(5) =~= buffer.subrange(5, buffer.len() as int));
            if verified_key(server, hello, buffer) is Some {
                let opened = aes256_gcm_opened(
                    auth_key_of(server.private_key, hello),
                    hello.client_random.skip(20),
                    blanked(handshake_message(buffer), hello.session_id),
                    hello.session_id,
                )->0;
                assert(proves_key(server.private_key, hello, buffer, opened));
            }
        }
    }
}

/// The first place of a part in a text is found, and nothing else.
proof fn lemma_find_from(s: Seq<char>, part: Seq<char>, from: int, at: int)
    requires
        0 <= from <= at,
        at + part.len() <= s.len(),
        s.subrange(at, at + part.len()) == part,
        forall|j: int| from <= j < at ==> #[trigger] s.subrange(j, j + part.len()) != part,
    ensures
        find_from(s, part, from) == Some(at),
    decreases at - from,
{
    if from < at {
        lemma_find_from(s, part, from + 1, at);
    }
}

/// Where the hexadecimal text of a hello first spells its session identifier, there the 32 bytes of
/// the hello are blanked, and no others. A hello that does not hold its session identifier stays as
/// it is.
#[verifier::rlimit(40)]
pub proof fn the_session_identifier_is_blanked(hello: Seq<u8>, session_id: Seq<u8>, at: int, i: int)
    requires
        0 <= i < hello.len(),
    ensures
        blanked(hello, session_id).len() == hello.len(),
        0 <= at && 2 * at + 2 * session_id.len() <= 2 * hello.len() && hex_bytes(hello).subrange(
            2 * at,
            2 * at + 2 * session_id.len(),
        ) == hex_bytes(session_id) && (forall|j: int|
            0 <= j < 2 * at ==> #[trigger] hex_bytes(hello).subrange(j, j + 2 * session_id.len()) != hex_bytes(
                session_id,
            )) ==> blanked(hello, session_id)[i] == if at <= i < at + 32 {
            0u8
        } else {
            hello[i]
        },
        (forall|j: int|
            0 <= j <= 2 * hello.len() - 2 * session_id.len() ==> #[trigger] hex_bytes(hello).subrange(
                j,
                j + 2 * session_id.len(),
            ) != hex_bytes(session_id)) ==> blanked(hello, session_id) == hello,
{
    let text = hex_bytes(hello);
    let part = hex_bytes(session_id);
    lemma_hex_bytes(hello);
    lemma_hex_bytes(session_id);
    if 0 <= at && 2 * at + 2 * session_id.len() <= 2 * hello.len() && text.subrange(
        2 * at,
        2 * at + 2 * session_id.len(),
    ) == part && (forall|j: int| 0 <= j < 2 * at ==> #[trigger] text.subrange(j, j + 2 * session_id.len()) != part) {
        lemma_find_from(text, part, 0, 2 * at);
    }
    if forall|j: int|
        0 <= j <= 2 * hello.len() - 2 * session_id.len() ==> #[trigger] text.subrange(j, j + 2 * session_id.len())
            != part {
        lemma_find_nothing(text, part, 0);
    }
}

proof fn lemma_find_nothing(s: Seq<char>, part: Seq<char>, from: int)
    requires
        0 <= from,
        forall|j: int| from <= j <= s.len() - part.len() ==> #[trigger] s.subrange(j, j + part.len()) != part,
    ensures
        find_from(s, part, from) is None,
    decreases s.len() + 1 - from,
{
    if from + part.len() <= s.len() {
        lemma_find_nothing(s, part, from + 1);
    }
}

/// The host of a site is what stands before its first colon.
pub proof fn the_host_stands_before_the_port(host: Seq<char>, port: Seq<char>)
    requires
        !host.contains(':'),
    ensures
        host_of(host + seq![':'] + port) == host,
        host_of(host) == host,
        dest_of(Some(host)) == host,
{
    let dest = host + seq![':'] + port;
    lemma_first_index(dest, ':');
    lemma_first_index(host, ':');
    let i = first_index(dest, ':');
    if i < host.len() {
        assert(host.contains(dest[i]));
    }
    if i > host.len() {
        assert(dest[host.len() as int] == ':');
    }
    assert(dest.take(i) =~= host);
    if first_index(host, ':') < host.len() {
        assert(host.contains(host[first_index(host, ':')]));
    }
}

/// Reading goes on until the first record is whole, and no further: a record of `n` bytes is whole
/// with its header of five, and 16 KiB are enough of it. What is no handshake is decided on at once.
pub proof fn the_first_record_is_read(buffer: Seq<u8>)
    ensures
        buffer.len() < 5 ==> more_wanted(buffer),
        buffer.len() >= 5 && buffer[0] != 0x16 ==> !more_wanted(buffer),
        buffer.len() >= 5 && buffer[0] == 0x16 ==> more_wanted(buffer) == (buffer.len() < 16384 && buffer.len() < 5
            + buffer[3] * 256 + buffer[4]),
{
    if buffer.len() >= 5 {
        lemma_u16_at(buffer, 3);
    }
}

/// The identifiers of a server are the bytes that its texts spell, each in its place.
pub proof fn identifiers_keep_their_places(texts: Seq<Seq<char>>, i: int)
    requires
        0 <= i < texts.len(),
        short_ids_of(texts) is Ok,
    ensures
        short_ids_of(texts)->Ok_0.len() == texts.len(),
        hex_decoded(texts[i]) == Some(short_ids_of(texts)->Ok_0[i]),
    decreases texts.len(),
{
    let front = texts.drop_last();
    lemma_short_ids_len(front);
    if i < texts.len() - 1 {
        identifiers_keep_their_places(front, i);
        assert(front[i] == texts[i]);
    }
}

proof fn lemma_short_ids_len(texts: Seq<Seq<char>>)
    requires
        short_ids_of(texts) is Ok,
    ensures
        short_ids_of(texts)->Ok_0.len() == texts.len(),
    decreases texts.len(),
{
    if texts.len() > 0 {
        lemma_short_ids_len(texts.drop_last());
    }
}

/// A server has identifiers if and only if every one of its texts is hexadecimal. The first that is
/// not is reported.
pub proof fn the_first_bad_identifier_is_reported(texts: Seq<Seq<char>>, i: int)
    requires
        0 <= i < texts.len(),
        hex_decoded(texts[i]) is None,
        forall|j: int| 0 <= j < i ==> hex_decoded(#[trigger] texts[j]) is Some,
    ensures
        short_ids_of(texts) == Err::<Seq<Seq<u8>>, Seq<char>>("invalid shortId hex: "@ + hex_error(texts[i])),
{
    let front = texts.take(i);
    lemma_short_ids_good(front);
    assert(texts.take(i + 1).drop_last() =~= front);
    lemma_short_ids_front(texts, i + 1);
}

proof fn lemma_short_ids_good(texts: Seq<Seq<char>>)
    requires
        forall|j: int| 0 <= j < texts.len() ==> hex_decoded(#[trigger] texts[j]) is Some,
    ensures
        short_ids_of(texts) is Ok,
    decreases texts.len(),
{
    if texts.len() > 0 {
        assert(hex_decoded(texts[texts.len() - 1]) is Some);
        lemma_short_ids_good(texts.drop_last());
    }
}

/// The message that is authenticated is the record without its header of five bytes. What is no
/// handshake record is taken whole.
pub proof fn the_header_is_not_part_of_the_message(header: Seq<u8>, message: Seq<u8>)
    requires
        header.len() == 5,
        header[0] == 0x16,
    ensures
        handshake_message(header + message) == message,
        message.len() > 0 && message[0] != 0x16 ==> handshake_message(message) == message,
{
    assert((header + message).skip(5) =~= message);
}

/// A server that names no site shows one of its own.
pub proof fn strangers_are_shown_a_site(dest: Seq<char>)
    ensures
        dest_of(Some(dest)) == dest,
        dest_of(None) == "www.microsoft.com:443"@,
{
}

} // verus!
