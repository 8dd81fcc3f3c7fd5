//! Reading the first message of a TLS client.

use vstd::prelude::*;
use vstd::slice::{slice_subrange, slice_to_vec};
use vstd::utf8::{decode_utf8, encode_utf8, encode_utf8_decode_utf8, encode_utf8_valid_utf8, valid_utf8};

use super::{reality_error, RealityError};
use crate::text::utf8_text;
use crate::wire::{array_32, be_value, lemma_pow256_values, read_be};

verus! {

/// What a client's first message says about the client.
pub struct ClientHelloInfo {
    pub session_id: Vec<u8>,
    pub client_random: [u8; 32],
    /// The client's X25519 key share.
    pub public_key: Option<Vec<u8>>,
    /// The name that the client asks for.
    pub server_name: Option<String>,
}

/// The mathematical value of a [`ClientHelloInfo`].
#[verifier::ext_equal]
pub struct HelloView {
    pub session_id: Seq<u8>,
    pub client_random: Seq<u8>,
    pub public_key: Option<Seq<u8>>,
    pub server_name: Option<Seq<char>>,
}

impl View for ClientHelloInfo {
    type V = HelloView;

    open spec fn view(&self) -> HelloView {
        HelloView {
            session_id: self.session_id@,
            client_random: self.client_random@,
            public_key: match self.public_key {
                Some(key) => Some(key@),
                None => None,
            },
            server_name: match self.server_name {
                Some(name) => Some(name@),
                None => None,
            },
        }
    }
}

/// A number of two bytes at position `i`.
pub open spec fn u16_at(s: Seq<u8>, i: int) -> int {
    be_value(s.subrange(i, i + 2)) as int
}

/// The first host name in a list of server names, if it is UTF-8. A list that is cut short names
/// nothing behind the cut.
pub open spec fn host_name(list: Seq<u8>) -> Option<Seq<char>>
    decreases list.len(),
{
    if list.len() < 3 || list.len() < 3 + u16_at(list, 1) {
        None
    } else if list[0] == 0 {
        let name = list.subrange(3, 3 + u16_at(list, 1));
        if valid_utf8(name) {
            Some(decode_utf8(name))
        } else {
            None
        }
    } else {
        host_name(list.skip(3 + u16_at(list, 1)))
    }
}

/// The first X25519 key in a list of key shares.
pub open spec fn x25519_share(shares: Seq<u8>) -> Option<Seq<u8>>
    decreases shares.len(),
{
    if shares.len() < 4 || shares.len() < 4 + u16_at(shares, 2) {
        None
    } else if u16_at(shares, 0) == 0x1d && u16_at(shares, 2) == 32 {
        Some(shares.subrange(4, 36))
    } else {
        x25519_share(shares.skip(4 + u16_at(shares, 2)))
    }
}

/// The list that an extension's data holds behind the list's length.
pub open spec fn inner_list(data: Seq<u8>) -> Option<Seq<u8>> {
    if data.len() < 2 || data.len() < 2 + u16_at(data, 0) {
        None
    } else {
        Some(data.subrange(2, 2 + u16_at(data, 0)))
    }
}

/// The key after an extension.
pub open spec fn key_after(kind: int, data: Seq<u8>, key: Option<Seq<u8>>) -> Option<Seq<u8>> {
    if kind == 0x33 && inner_list(data) is Some && x25519_share(inner_list(data)->0) is Some {
        x25519_share(inner_list(data)->0)
    } else {
        key
    }
}

/// The name after an extension.
pub open spec fn name_after(kind: int, data: Seq<u8>, name: Option<Seq<char>>) -> Option<Seq<char>> {
    if kind == 0 && inner_list(data) is Some && host_name(inner_list(data)->0) is Some {
        host_name(inner_list(data)->0)
    } else {
        name
    }
}

/// The key and the name that extensions hold, given those that stood before them. Reading ends
/// once both are known, or where an extension is cut short.
pub open spec fn extensions_of(
    extensions: Seq<u8>,
    key: Option<Seq<u8>>,
    name: Option<Seq<char>>,
) -> (Option<Seq<u8>>, Option<Seq<char>>)
    decreases extensions.len(),
{
    if extensions.len() < 4 || extensions.len() < 4 + u16_at(extensions, 2) {
        (key, name)
    } else {
        let kind = u16_at(extensions, 0);
        let end = 4 + u16_at(extensions, 2);
        let data = extensions.subrange(4, end);
        let next_key = key_after(kind, data, key);
        let next_name = name_after(kind, data, name);
        if next_key is Some && next_name is Some {
            (next_key, next_name)
        } else {
            extensions_of(extensions.skip(end), next_key, next_name)
        }
    }
}

/// What a hello says, once its fixed fields have been read.
pub open spec fn hello_extensions(
    client_random: Seq<u8>,
    session_id: Seq<u8>,
    rest: Seq<u8>,
) -> core::result::Result<Option<HelloView>, Seq<char>> {
    if rest.len() < 2 {
        Ok(Some(HelloView { session_id, client_random, public_key: None, server_name: None }))
    } else if rest.len() < 2 + u16_at(rest, 0) {
        Err("short extensions"@)
    } else {
        let (public_key, server_name) = extensions_of(rest.subrange(2, 2 + u16_at(rest, 0)), None, None);
        Ok(Some(HelloView { session_id, client_random, public_key, server_name }))
    }
}

/// What a hello says behind its session identifier.
pub open spec fn hello_suites(
    client_random: Seq<u8>,
    session_id: Seq<u8>,
    rest: Seq<u8>,
) -> core::result::Result<Option<HelloView>, Seq<char>> {
    if rest.len() < 2 {
        Err("missing cipher suites length"@)
    } else if rest.len() < 2 + u16_at(rest, 0) {
        Err("short cipher suites"@)
    } else {
        let methods = rest.skip(2 + u16_at(rest, 0));
        if methods.len() < 1 {
            Err("missing compression methods length"@)
        } else if methods.len() < 1 + methods[0] {
            Err("short compression methods"@)
        } else {
            hello_extensions(client_random, session_id, methods.skip(1 + methods[0]))
        }
    }
}

/// What a hello says behind the header of its message.
pub open spec fn hello_body(body: Seq<u8>) -> core::result::Result<Option<HelloView>, Seq<char>> {
    if body.len() < 34 {
        Err("short client hello body"@)
    } else {
        let client_random = body.subrange(2, 34);
        let rest = body.skip(34);
        if rest.len() < 1 {
            Err("missing session id length"@)
        } else if rest.len() < 1 + rest[0] {
            Err("short session id"@)
        } else {
            hello_suites(client_random, rest.subrange(1, 1 + rest[0]), rest.skip(1 + rest[0]))
        }
    }
}

/// What the bytes at the start of a connection say: nothing, where they are no whole handshake
/// record or no client's hello; what the hello says; or why it cannot be read.
pub open spec fn hello_of(buf: Seq<u8>) -> core::result::Result<Option<HelloView>, Seq<char>> {
    if buf.len() < 5 || buf[0] != 0x16 || buf.len() < 5 + u16_at(buf, 3) {
        Ok(None)
    } else {
        let message = buf.skip(5);
        if message.len() < 4 {
            Err("short handshake buffer"@)
        } else if message[0] != 1 {
            Ok(None)
        } else {
            hello_body(message.skip(4))
        }
    }
}

/// The bytes from `start` on.
fn rest_from<'a>(s: &'a [u8], start: usize) -> (rest: &'a [u8])
    requires
        start <= s@.len(),
    ensures
        rest@ == s@.skip(start as int),
{
    let rest = slice_subrange(s, start, s.len());
    assert(rest@ =~= s@.skip(start as int));
    rest
}

fn read_u16(s: &[u8], i: usize) -> (value: usize)
    requires
        i + 2 <= s@.len(),
    ensures
        value == u16_at(s@, i as int),
        value < 0x1_0000,
{
    proof {
        lemma_pow256_values();
        assert(s@.len() == s.len());
    }
    read_be(s, i, i + 2) as usize
}

fn find_host_name(list: &[u8]) -> (name: Option<String>)
    ensures
        match name {
            Some(name) => host_name(list@) == Some(name@),
            None => host_name(list@) is None,
        },
{
    let mut rest: &[u8] = list;
    while rest.len() >= 3
        invariant
            host_name(rest@) == host_name(list@),
        decreases rest@.len(),
    {
        let end: usize = 3 + read_u16(rest, 1);
        if rest.len() < end {
            return None;
        }
        if rest[0] == 0 {
            return utf8_text(slice_to_vec(slice_subrange(rest, 3, end)));
        }
        rest = rest_from(rest, end);
    }
    None
}

fn find_x25519_share(shares: &[u8]) -> (key: Option<Vec<u8>>)
    ensures
        match key {
            Some(key) => x25519_share(shares@) == Some(key@) && key@.len() == 32,
            None => x25519_share(shares@) is None,
        },
{
    let mut rest: &[u8] = shares;
    while rest.len() >= 4
        invariant
            x25519_share(rest@) == x25519_share(shares@),
        decreases rest@.len(),
    {
        let len = read_u16(rest, 2);
        let end: usize = 4 + len;
        if rest.len() < end {
            return None;
        }
        if read_u16(rest, 0) == 0x1d && len == 32 {
            return Some(slice_to_vec(slice_subrange(rest, 4, 36)));
        }
        rest = rest_from(rest, end);
    }
    None
}

fn inner_list_of<'a>(data: &'a [u8]) -> (list: Option<&'a [u8]>)
    ensures
        match list {
            Some(list) => inner_list(data@) == Some(list@),
            None => inner_list(data@) is None,
        },
{
    if data.len() < 2 {
        return None;
    }
    let end: usize = 2 + read_u16(data, 0);
    if data.len() < end {
        return None;
    }
    Some(slice_subrange(data, 2, end))
}

/// The mathematical value of an optional key.
pub open spec fn key_view(key: Option<Vec<u8>>) -> Option<Seq<u8>> {
    match key {
        Some(key) => Some(key@),
        None => None,
    }
}

/// The mathematical value of an optional name.
pub open spec fn name_view(name: Option<String>) -> Option<Seq<char>> {
    match name {
        Some(name) => Some(name@),
        None => None,
    }
}

fn read_extensions(extensions: &[u8]) -> (found: (Option<Vec<u8>>, Option<String>))
    ensures
        (key_view(found.0), name_view(found.1)) == extensions_of(extensions@, None, None),
        found.0 is Some ==> found.0->0@.len() == 32,
{
    let mut rest: &[u8] = extensions;
    let mut key: Option<Vec<u8>> = None;
    let mut name: Option<String> = None;
    let ghost all = extensions_of(extensions@, None, None);
    loop
        invariant_except_break
            extensions_of(rest@, key_view(key), name_view(name)) == all,
            key is Some ==> key->0@.len() == 32,
        ensures
            (key_view(key), name_view(name)) == all,
            key is Some ==> key->0@.len() == 32,
        decreases rest@.len(),
    {
        if rest.len() < 4 {
            break;
        }
        let kind = read_u16(rest, 0);
        let end: usize = 4 + read_u16(rest, 2);
        if rest.len() < end {
            break;
        }
        let data = slice_subrange(rest, 4, end);
        if kind == 0 {
            if let Some(list) = inner_list_of(data) {
                if let Some(found) = find_host_name(list) {
                    name = Some(found);
                }
            }
        }
        if kind == 0x33 {
            if let Some(list) = inner_list_of(data) {
                if let Some(found) = find_x25519_share(list) {
                    key = Some(found);
                }
            }
        }
        if key.is_some() && name.is_some() {
            break;
        }
        rest = rest_from(rest, end);
    }
    (key, name)
}

/// The mathematical value of what [`parse_client_hello`] returns.
pub open spec fn parsed_view(
    parsed: core::result::Result<Option<ClientHelloInfo>, RealityError>,
) -> core::result::Result<Option<HelloView>, Seq<char>> {
    match parsed {
        Ok(Some(info)) => Ok(Some(info@)),
        Ok(None) => Ok(None),
        Err(err) => Err(err.message@),
    }
}

/// Reads what a client's first message says about the client.
pub fn parse_client_hello(buf: &[u8]) -> (parsed: core::result::Result<Option<ClientHelloInfo>, RealityError>)
    ensures
        parsed_view(parsed) == hello_of(buf@),
        parsed matches Ok(Some(info)) ==> info.session_id@.len() <= 255 && (info.public_key is Some
            ==> info.public_key->0@.len() == 32),
{
    if buf.len() < 5 || buf[0] != 0x16 {
        return Ok(None);
    }
    if buf.len() < 5 + read_u16(buf, 3) {
        return Ok(None);
    }
    let message = rest_from(buf, 5);
    if message.len() < 4 {
        return Err(reality_error("short handshake buffer"));
    }
    if message[0] != 1 {
        return Ok(None);
    }
    let body = rest_from(message, 4);
    if body.len() < 34 {
        return Err(reality_error("short client hello body"));
    }
    let client_random = array_32(slice_subrange(body, 2, 34));
    let rest = rest_from(body, 34);
    if rest.len() < 1 {
        return Err(reality_error("missing session id length"));
    }
    let id_end: usize = 1 + rest[0] as usize;
    if rest.len() < id_end {
        return Err(reality_error("short session id"));
    }
    let session_id = slice_to_vec(slice_subrange(rest, 1, id_end));
    let suites = rest_from(rest, id_end);
    if suites.len() < 2 {
        return Err(reality_error("missing cipher suites length"));
    }
    let suites_end: usize = 2 + read_u16(suites, 0);
    if suites.len() < suites_end {
        return Err(reality_error("short cipher suites"));
    }
    let methods = rest_from(suites, suites_end);
    if methods.len() < 1 {
        return Err(reality_error("missing compression methods length"));
    }
    let methods_end: usize = 1 + methods[0] as usize;
    if methods.len() < methods_end {
        return Err(reality_error("short compression methods"));
    }
    let last = rest_from(methods, methods_end);
    if last.len() < 2 {
        return Ok(Some(ClientHelloInfo { session_id, client_random, public_key: None, server_name: None }));
    }
    let extensions_end: usize = 2 + read_u16(last, 0);
    if last.len() < extensions_end {
        return Err(reality_error("short extensions"));
    }
    let (public_key, server_name) = read_extensions(slice_subrange(last, 2, extensions_end));
    Ok(Some(ClientHelloInfo { session_id, client_random, public_key, server_name }))
}

/// A number of two bytes has its high byte first.
pub proof fn lemma_u16_at(s: Seq<u8>, i: int)
    requires
        0 <= i,
        i + 2 <= s.len(),
    ensures
        u16_at(s, i) == s[i] * 256 + s[i + 1],
        0 <= u16_at(s, i) < 0x1_0000,
{
    let part = s.subrange(i, i + 2);
    reveal_with_fuel(be_value, 3);
    assert(part.drop_last().drop_last() =~= Seq::empty());
    assert(part.drop_last().last() == s[i]);
    assert(part.last() == s[i + 1]);
}

/// A number in two bytes, the high one first.
pub open spec fn two_bytes(n: nat) -> Seq<u8> {
    seq![(n / 256 % 256) as u8, (n % 256) as u8]
}

/// What a hello puts behind its session identifier: the cipher suites, the compression methods and
/// the extensions, each behind its length, and whatever follows.
pub open spec fn hello_lists(suites: Seq<u8>, methods: Seq<u8>, extensions: Seq<u8>, rest: Seq<u8>) -> Seq<u8> {
    two_bytes(suites.len()) + suites + (seq![methods.len() as u8] + methods + (two_bytes(extensions.len()) + extensions
        + rest))
}

/// A client's hello in a record: the record's header and length, the message's header, the version,
/// the random bytes, the session identifier behind its length, and the rest.
pub open spec fn hello_record(
    version: (u8, u8),
    length: nat,
    header: (u8, u8, u8),
    legacy: (u8, u8),
    client_random: Seq<u8>,
    session_id: Seq<u8>,
    lists: Seq<u8>,
) -> Seq<u8> {
    seq![0x16u8, version.0, version.1] + two_bytes(length) + (seq![1u8, header.0, header.1, header.2] + (seq![
        legacy.0,
        legacy.1,
    ] + client_random + (seq![session_id.len() as u8] + session_id + lists)))
}

#[verifier::rlimit(40)]
proof fn lemma_hello_extensions(client_random: Seq<u8>, session_id: Seq<u8>, extensions: Seq<u8>, rest: Seq<u8>)
    requires
        extensions.len() < 0x1_0000,
    ensures
        ({
            let found = extensions_of(extensions, None, None);
            hello_extensions(client_random, session_id, two_bytes(extensions.len()) + extensions + rest) == Ok::<
                Option<HelloView>,
                Seq<char>,
            >(Some(HelloView { session_id, client_random, public_key: found.0, server_name: found.1 }))
        }),
{
    let last = two_bytes(extensions.len()) + extensions + rest;
    lemma_two_bytes(extensions.len());
    assert(last[0] == two_bytes(extensions.len())[0] && last[1] == two_bytes(extensions.len())[1]);
    lemma_u16_at(last, 0);
    assert(u16_at(last, 0) == extensions.len());
    assert(last.subrange(2, 2 + extensions.len() as int) =~= extensions);
}

#[verifier::rlimit(40)]
proof fn lemma_hello_lists(
    client_random: Seq<u8>,
    session_id: Seq<u8>,
    suites: Seq<u8>,
    methods: Seq<u8>,
    extensions: Seq<u8>,
    rest: Seq<u8>,
)
    requires
        suites.len() < 0x1_0000,
        methods.len() < 256,
    ensures
        hello_suites(client_random, session_id, hello_lists(suites, methods, extensions, rest)) == hello_extensions(
            client_random,
            session_id,
            two_bytes(extensions.len()) + extensions + rest,
        ),
{
    let last = two_bytes(extensions.len()) + extensions + rest;
    let behind_suites = seq![methods.len() as u8] + methods + last;
    let behind_id = hello_lists(suites, methods, extensions, rest);
    lemma_two_bytes(suites.len());
    assert(behind_id[0] == two_bytes(suites.len())[0] && behind_id[1] == two_bytes(suites.len())[1]);
    lemma_u16_at(behind_id, 0);
    assert(u16_at(behind_id, 0) == suites.len());
    assert(behind_id.skip(2 + suites.len() as int) =~= behind_suites);
    assert(behind_suites[0] == methods.len());
    assert(behind_suites.skip(1 + methods.len() as int) =~= last);
}

#[verifier::rlimit(40)]
proof fn lemma_hello_record(
    version: (u8, u8),
    length: nat,
    header: (u8, u8, u8),
    legacy: (u8, u8),
    client_random: Seq<u8>,
    session_id: Seq<u8>,
    lists: Seq<u8>,
)
    requires
        client_random.len() == 32,
        session_id.len() < 256,
        length < 0x1_0000,
        length <= 39 + session_id.len() + lists.len(),
    ensures
        hello_of(hello_record(version, length, header, legacy, client_random, session_id, lists)) == hello_suites(
            client_random,
            session_id,
            lists,
        ),
{
    let behind_random = seq![session_id.len() as u8] + session_id + lists;
    let body = seq![legacy.0, legacy.1] + client_random + behind_random;
    let message = seq![1u8, header.0, header.1, header.2] + body;
    let buffer = hello_record(version, length, header, legacy, client_random, session_id, lists);
    lemma_two_bytes(length);
    assert(buffer[3] == two_bytes(length)[0] && buffer[4] == two_bytes(length)[1]);
    lemma_u16_at(buffer, 3);
    assert(u16_at(buffer, 3) == length);
    assert(buffer.skip(5) =~= message);
    assert(message.skip(4) =~= body);
    assert(body.subrange(2, 34) =~= client_random);
    assert(body.skip(34) =~= behind_random);
    assert(behind_random.subrange(1, 1 + session_id.len() as int) =~= session_id);
    assert(behind_random.skip(1 + session_id.len() as int) =~= lists);
}

/// A hello says what its client put into it, whatever the record's version, the cipher suites and
/// the compression methods are and whatever follows: the random bytes and the session identifier,
/// and what its extensions hold.
pub proof fn hellos_are_read(
    version: (u8, u8),
    length: nat,
    header: (u8, u8, u8),
    legacy: (u8, u8),
    client_random: Seq<u8>,
    session_id: Seq<u8>,
    suites: Seq<u8>,
    methods: Seq<u8>,
    extensions: Seq<u8>,
    rest: Seq<u8>,
)
    requires
        client_random.len() == 32,
        session_id.len() < 256,
        suites.len() < 0x1_0000,
        methods.len() < 256,
        extensions.len() < 0x1_0000,
        length < 0x1_0000,
        length <= 39 + session_id.len() + hello_lists(suites, methods, extensions, rest).len(),
    ensures
        ({
            let lists = hello_lists(suites, methods, extensions, rest);
            let found = extensions_of(extensions, None, None);
            hello_of(hello_record(version, length, header, legacy, client_random, session_id, lists)) == Ok::<
                Option<HelloView>,
                Seq<char>,
            >(Some(HelloView { session_id, client_random, public_key: found.0, server_name: found.1 }))
        }),
{
    let lists = hello_lists(suites, methods, extensions, rest);
    lemma_hello_record(version, length, header, legacy, client_random, session_id, lists);
    lemma_hello_lists(client_random, session_id, suites, methods, extensions, rest);
    lemma_hello_extensions(client_random, session_id, extensions, rest);
}

/// A record that is not whole, that is no handshake, or whose message is no hello, says nothing.
pub proof fn other_records_say_nothing(buffer: Seq<u8>)
    requires
        buffer.len() < 5 || buffer[0] != 0x16 || buffer.len() < 5 + buffer[3] * 256 + buffer[4] || (buffer.len() >= 9
            && buffer[5] != 1),
    ensures
        hello_of(buffer) == Ok::<Option<HelloView>, Seq<char>>(None),
{
    if buffer.len() >= 5 {
        lemma_u16_at(buffer, 3);
    }
}

/// An extension: its kind, and its data behind their length.
pub open spec fn extension_bytes(kind: nat, data: Seq<u8>) -> Seq<u8> {
    two_bytes(kind) + two_bytes(data.len()) + data
}

/// Extensions, one after the other.
pub open spec fn extension_list(extensions: Seq<(nat, Seq<u8>)>) -> Seq<u8>
    decreases extensions.len(),
{
    if extensions.len() == 0 {
        Seq::empty()
    } else {
        extension_bytes(extensions[0].0, extensions[0].1) + extension_list(extensions.drop_first())
    }
}

/// The data of the extension that asks for a server by its name, behind entries of other kinds.
pub open spec fn name_extension(others: Seq<(u8, Seq<u8>)>, name: Seq<char>) -> Seq<u8> {
    let list = name_entries(others) + seq![0u8] + two_bytes(encode_utf8(name).len()) + encode_utf8(name);
    two_bytes(list.len()) + list
}

/// Entries of a list of server names: a kind, and the name behind its length.
pub open spec fn name_entries(entries: Seq<(u8, Seq<u8>)>) -> Seq<u8>
    decreases entries.len(),
{
    if entries.len() == 0 {
        Seq::empty()
    } else {
        seq![entries[0].0] + two_bytes(entries[0].1.len()) + entries[0].1 + name_entries(entries.drop_first())
    }
}

/// The data of the extension that holds an X25519 key, behind shares of other groups.
pub open spec fn key_extension(others: Seq<(nat, Seq<u8>)>, key: Seq<u8>) -> Seq<u8> {
    let list = extension_list(others) + two_bytes(0x1d) + two_bytes(32) + key;
    two_bytes(list.len()) + list
}

#[verifier::rlimit(40)]
proof fn lemma_host_name(others: Seq<(u8, Seq<u8>)>, name: Seq<char>)
    requires
        forall|i: int| 0 <= i < others.len() ==> (#[trigger] others[i]).0 != 0 && others[i].1.len() < 0x1_0000,
        encode_utf8(name).len() < 0x1_0000,
    ensures
        host_name(name_entries(others) + seq![0u8] + two_bytes(encode_utf8(name).len()) + encode_utf8(name)) == Some(
            name,
        ),
    decreases others.len(),
{
    let spelled = encode_utf8(name);
    let list = name_entries(others) + seq![0u8] + two_bytes(spelled.len()) + spelled;
    if others.len() == 0 {
        encode_utf8_valid_utf8(name);
        encode_utf8_decode_utf8(name);
        lemma_u16_at(list, 1);
        assert(list.subrange(3, 3 + spelled.len() as int) =~= spelled);
    } else {
        let rest = others.drop_first();
        assert(others[0].0 != 0);
        assert forall|i: int| 0 <= i < rest.len() implies (#[trigger] rest[i]).0 != 0 && rest[i].1.len() < 0x1_0000 by {
            assert(rest[i] == others[i + 1]);
        }
        lemma_host_name(rest, name);
        lemma_u16_at(list, 1);
        assert(list.skip(3 + others[0].1.len() as int) =~= name_entries(rest) + seq![0u8] + two_bytes(spelled.len())
            + spelled);
    }
}

#[verifier::rlimit(40)]
proof fn lemma_share(others: Seq<(nat, Seq<u8>)>, key: Seq<u8>)
    requires
        forall|i: int|
            0 <= i < others.len() ==> (#[trigger] others[i]).0 < 0x1_0000 && (others[i].0 != 0x1d || others[i].1.len() != 32) && others[i].1.len()
                < 0x1_0000,
        key.len() == 32,
    ensures
        x25519_share(extension_list(others) + two_bytes(0x1d) + two_bytes(32) + key) == Some(key),
    decreases others.len(),
{
    let list = extension_list(others) + two_bytes(0x1d) + two_bytes(32) + key;
    lemma_u16_at(list, 0);
    lemma_u16_at(list, 2);
    if others.len() == 0 {
        assert(list.subrange(4, 36) =~= key);
    } else {
        let rest = others.drop_first();
        assert(others[0].0 != 0x1d || others[0].1.len() != 32);
        assert forall|i: int| 0 <= i < rest.len() implies (#[trigger] rest[i]).0 < 0x1_0000 && (rest[i].0 != 0x1d || rest[i].1.len() != 32)
            && rest[i].1.len() < 0x1_0000 by {
            assert(rest[i] == others[i + 1]);
        }
        lemma_share(rest, key);
        assert(list.skip(4 + others[0].1.len() as int) =~= extension_list(rest) + two_bytes(0x1d) + two_bytes(32)
            + key);
    }
}

/// The name that a client asks for is found in its extension, whatever else the list there holds.
pub proof fn names_are_found(others: Seq<(u8, Seq<u8>)>, name: Seq<char>, before: Option<Seq<char>>)
    requires
        forall|i: int| 0 <= i < others.len() ==> (#[trigger] others[i]).0 != 0 && others[i].1.len() < 0x1_0000,
        name_extension(others, name).len() < 0x1_0000,
    ensures
        name_after(0, name_extension(others, name), before) == Some(name),
        forall|kind: int| kind != 0 ==> #[trigger] name_after(kind, name_extension(others, name), before) == before,
{
    let list = name_entries(others) + seq![0u8] + two_bytes(encode_utf8(name).len()) + encode_utf8(name);
    let data = name_extension(others, name);
    lemma_host_name(others, name);
    lemma_u16_at(data, 0);
    assert(data.subrange(2, 2 + list.len() as int) =~= list);
}

/// A client's X25519 key is found in its extension, whatever other shares stand before it.
pub proof fn keys_are_found(others: Seq<(nat, Seq<u8>)>, key: Seq<u8>, before: Option<Seq<u8>>)
    requires
        forall|i: int|
            0 <= i < others.len() ==> (#[trigger] others[i]).0 < 0x1_0000 && (others[i].0 != 0x1d || others[i].1.len() != 32) && others[i].1.len()
                < 0x1_0000,
        key.len() == 32,
        key_extension(others, key).len() < 0x1_0000,
    ensures
        key_after(0x33, key_extension(others, key), before) == Some(key),
        forall|kind: int| kind != 0x33 ==> #[trigger] key_after(kind, key_extension(others, key), before) == before,
{
    let list = extension_list(others) + two_bytes(0x1d) + two_bytes(32) + key;
    let data = key_extension(others, key);
    lemma_share(others, key);
    lemma_u16_at(data, 0);
    assert(data.subrange(2, 2 + list.len() as int) =~= list);
}

/// The entry of an extension that is read first decides what it says, and the others are read as
/// they would be without it.
#[verifier::rlimit(40)]
proof fn lemma_first_extension(kind: nat, data: Seq<u8>, rest: Seq<u8>, key: Option<Seq<u8>>, name: Option<Seq<char>>)
    requires
        kind < 0x1_0000,
        data.len() < 0x1_0000,
    ensures
        ({
            let next_key = key_after(kind as int, data, key);
            let next_name = name_after(kind as int, data, name);
            extensions_of(extension_bytes(kind, data) + rest, key, name) == if next_key is Some && next_name is Some {
                (next_key, next_name)
            } else {
                extensions_of(rest, next_key, next_name)
            }
        }),
{
    let all = extension_bytes(kind, data) + rest;
    lemma_extension(kind, data, rest);
    assert(all.len() >= 4 + data.len());
}

/// An extension is parted into its kind, its data and what follows.
proof fn lemma_extension(kind: nat, data: Seq<u8>, rest: Seq<u8>)
    requires
        kind < 0x1_0000,
        data.len() < 0x1_0000,
    ensures
        ({
            let all = extension_bytes(kind, data) + rest;
            &&& all.len() == 4 + data.len() + rest.len()
            &&& u16_at(all, 0) == kind
            &&& u16_at(all, 2) == data.len()
            &&& all.subrange(4, 4 + data.len() as int) == data
            &&& all.skip(4 + data.len() as int) == rest
        }),
{
    let all = extension_bytes(kind, data) + rest;
    lemma_two_bytes(kind);
    lemma_two_bytes(data.len());
    assert(all[0] == two_bytes(kind)[0] && all[1] == two_bytes(kind)[1]);
    assert(all[2] == two_bytes(data.len())[0] && all[3] == two_bytes(data.len())[1]);
    lemma_u16_at(all, 0);
    lemma_u16_at(all, 2);
    assert(all.subrange(4, 4 + data.len() as int) =~= data);
    assert(all.skip(4 + data.len() as int) =~= rest);
}

proof fn lemma_two_bytes(n: nat)
    requires
        n < 0x1_0000,
    ensures
        two_bytes(n).len() == 2,
        two_bytes(n)[0] * 256 + two_bytes(n)[1] == n,
{
    assert(n / 256 < 256);
    assert(n / 256 % 256 == n / 256);
}

/// A hello's key and name are found wherever among its extensions they stand, in either order.
#[verifier::rlimit(40)]
pub proof fn extensions_may_stand_anywhere(
    extensions: Seq<(nat, Seq<u8>)>,
    key: Option<Seq<u8>>,
    name: Option<Seq<char>>,
    key_at: int,
    name_at: int,
    shares: Seq<(nat, Seq<u8>)>,
    the_key: Seq<u8>,
    names: Seq<(u8, Seq<u8>)>,
    the_name: Seq<char>,
)
    requires
        forall|i: int|
            0 <= i < extensions.len() ==> (#[trigger] extensions[i]).0 < 0x1_0000 && extensions[i].1.len() < 0x1_0000,
        forall|i: int|
            0 <= i < extensions.len() && i != key_at && i != name_at ==> (#[trigger] extensions[i]).0 != 0
                && extensions[i].0 != 0x33,
        key is None ==> 0 <= key_at < extensions.len() && extensions[key_at] == (0x33nat, key_extension(shares, the_key)),
        key is Some ==> key == Some(the_key) && !(0 <= key_at < extensions.len()),
        name is None ==> 0 <= name_at < extensions.len() && extensions[name_at] == (
            0nat,
            name_extension(names, the_name),
        ),
        name is Some ==> name == Some(the_name) && !(0 <= name_at < extensions.len()),
        key is None || name is None,
        forall|i: int|
            0 <= i < shares.len() ==> (#[trigger] shares[i]).0 < 0x1_0000 && (shares[i].0 != 0x1d || shares[i].1.len() != 32) && shares[i].1.len()
                < 0x1_0000,
        forall|i: int| 0 <= i < names.len() ==> (#[trigger] names[i]).0 != 0 && names[i].1.len() < 0x1_0000,
        the_key.len() == 32,
        key_extension(shares, the_key).len() < 0x1_0000,
        name_extension(names, the_name).len() < 0x1_0000,
    ensures
        extensions_of(extension_list(extensions), key, name) == (Some(the_key), Some(the_name)),
    decreases extensions.len(),
{
    let rest = extensions.drop_first();
    let (kind, data) = extensions[0];
    keys_are_found(shares, the_key, key);
    names_are_found(names, the_name, name);
    lemma_first_extension(kind, data, extension_list(rest), key, name);
    let next_key = key_after(kind as int, data, key);
    let next_name = name_after(kind as int, data, name);
    if !(next_key is Some && next_name is Some) {
        assert forall|i: int| 0 <= i < rest.len() implies (#[trigger] rest[i]).0 < 0x1_0000 && rest[i].1.len()
            < 0x1_0000 by {
            assert(rest[i] == extensions[i + 1]);
        }
        assert forall|i: int| 0 <= i < rest.len() && i != key_at - 1 && i != name_at - 1 implies (#[trigger] rest[i]).0
            != 0 && rest[i].0 != 0x33 by {
            assert(rest[i] == extensions[i + 1]);
        }
        extensions_may_stand_anywhere(
            rest,
            next_key,
            next_name,
            key_at - 1,
            name_at - 1,
            shares,
            the_key,
            names,
            the_name,
        );
    }
}

/// Extensions of other kinds say nothing about key and name.
pub proof fn other_extensions_say_nothing(extensions: Seq<(nat, Seq<u8>)>)
    requires
        forall|i: int|
            0 <= i < extensions.len() ==> (#[trigger] extensions[i]).0 < 0x1_0000 && extensions[i].1.len() < 0x1_0000
                && extensions[i].0 != 0 && extensions[i].0 != 0x33,
    ensures
        extensions_of(extension_list(extensions), None, None) == (None::<Seq<u8>>, None::<Seq<char>>),
    decreases extensions.len(),
{
    if extensions.len() > 0 {
        let rest = extensions.drop_first();
        assert(extensions[0].0 != 0);
        assert forall|i: int| 0 <= i < rest.len() implies (#[trigger] rest[i]).0 < 0x1_0000 && rest[i].1.len()
            < 0x1_0000 && rest[i].0 != 0 && rest[i].0 != 0x33 by {
            assert(rest[i] == extensions[i + 1]);
        }
        lemma_first_extension(extensions[0].0, extensions[0].1, extension_list(rest), None, None);
        other_extensions_say_nothing(rest);
    }
}

/// A hello that ends before one of its fields does is reported, and one that ends before its extensions
/// has none.
pub proof fn cut_hellos_are_reported(body: Seq<u8>, rest: Seq<u8>, client_random: Seq<u8>, session_id: Seq<u8>)
    ensures
        hello_body(body) is Ok ==> body.len() >= 35 && body.len() >= 35 + body[34],
        body.len() < 34 ==> hello_body(body) == Err::<Option<HelloView>, Seq<char>>("short client hello body"@),
        body.len() == 34 ==> hello_body(body) == Err::<Option<HelloView>, Seq<char>>("missing session id length"@),
        35 <= body.len() < 35 + body[34] ==> hello_body(body) == Err::<Option<HelloView>, Seq<char>>(
            "short session id"@,
        ),
        rest.len() < 2 ==> hello_suites(client_random, session_id, rest) == Err::<Option<HelloView>, Seq<char>>(
            "missing cipher suites length"@,
        ),
        2 <= rest.len() < 2 + rest[0] * 256 + rest[1] ==> hello_suites(client_random, session_id, rest) == Err::<
            Option<HelloView>,
            Seq<char>,
        >("short cipher suites"@),
        2 <= rest.len() == 2 + rest[0] * 256 + rest[1] ==> hello_suites(client_random, session_id, rest) == Err::<
            Option<HelloView>,
            Seq<char>,
        >("missing compression methods length"@),
        rest.len() < 2 ==> hello_extensions(client_random, session_id, rest) == Ok::<Option<HelloView>, Seq<char>>(
            Some(HelloView { session_id, client_random, public_key: None, server_name: None }),
        ),
        2 <= rest.len() < 2 + rest[0] * 256 + rest[1] ==> hello_extensions(client_random, session_id, rest) == Err::<
            Option<HelloView>,
            Seq<char>,
        >("short extensions"@),
{
    if rest.len() >= 2 {
        lemma_u16_at(rest, 0);
    }
    if body.len() >= 35 {
        assert(body.skip(34)[0] == body[34]);
    }
}

/// A name that is not UTF-8 is none, and neither is one that is cut short; a key share that is cut
/// short, or of another length, is no key.
pub proof fn bad_names_and_keys_are_none(list: Seq<u8>)
    requires
        list.len() >= 4,
    ensures
        list[0] == 0 && list.len() < 3 + list[1] * 256 + list[2] ==> host_name(list) is None,
        list[0] == 0 && list.len() >= 3 + list[1] * 256 + list[2] && !valid_utf8(
            list.subrange(3, 3 + list[1] * 256 + list[2]),
        ) ==> host_name(list) is None,
        list.len() < 4 + list[2] * 256 + list[3] ==> x25519_share(list) is None,
        x25519_share(list) is Some ==> x25519_share(list)->0.len() == 32,
{
    lemma_u16_at(list, 1);
    lemma_u16_at(list, 2);
    lemma_share_len(list);
}

proof fn lemma_share_len(shares: Seq<u8>)
    ensures
        x25519_share(shares) is Some ==> x25519_share(shares)->0.len() == 32,
    decreases shares.len(),
{
    if shares.len() >= 4 {
        lemma_u16_at(shares, 2);
        if shares.len() >= 4 + u16_at(shares, 2) {
            lemma_share_len(shares.skip(4 + u16_at(shares, 2)));
        }
    }
}

} // verus!
