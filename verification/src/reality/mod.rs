//! Reality: a server that shows another site to whoever does not know its key.

pub mod cert;
pub mod hello_parser;
pub mod server_rustls;

pub use server_rustls::PrefixedStream;

use vstd::prelude::*;

use crate::crypto::{random_bytes, x25519_public, x25519_public_key};
use crate::digits::{dec, dec_text};
use crate::encoding::{
    base64_standard_decoded, base64_url, base64_url_decoded, decode_base64, decode_base64_url, encode_base64_url,
};
use crate::wire::array_32;
use server_rustls::{short_ids_of, text_views, RealityServerRustls, ServerView};

verus! {

/// Why a Reality connection or its settings were refused.
#[derive(Clone, Debug)]
pub struct RealityError {
    pub message: String,
}

pub(crate) fn reality_error(message: &str) -> (err: RealityError)
    ensures
        err.message@ == message@,
{
    RealityError { message: message.to_owned() }
}

/// The settings of a Reality server.
#[derive(Clone, Debug)]
pub struct RealityConfig {
    /// The site that strangers are shown.
    pub dest: String,
    /// The names that clients may ask for. With none here, any will do.
    pub server_names: Vec<String>,
    pub private_key: String,
    pub public_key: Option<String>,
    /// The identifiers by which clients are known, in hexadecimal.
    pub short_ids: Vec<String>,
    pub fingerprint: String,
}

/// A Reality server.
pub struct RealityServer {
    inner: RealityServerRustls,
}

/// The private key that a text stands for. It is base64, of either alphabet, for 32 bytes.
pub open spec fn private_key_of(text: Seq<char>) -> core::result::Result<Seq<u8>, Seq<char>> {
    let decoded = match base64_url_decoded(text) {
        Some(bytes) => Ok(bytes),
        None => base64_standard_decoded(text),
    };
    match decoded {
        Err(err) => Err("failed to decode Reality private key: "@ + err),
        Ok(bytes) => if bytes.len() != 32 {
            Err("Reality privateKey must be 32 bytes, got "@ + dec(bytes.len()))
        } else {
            Ok(bytes)
        },
    }
}

/// The public key that belongs to the private key that a text stands for.
pub open spec fn public_key_of(text: Seq<char>) -> core::result::Result<Seq<char>, Seq<char>> {
    match private_key_of(text) {
        Err(err) => Err(err),
        Ok(key) => Ok(base64_url(x25519_public_key(key))),
    }
}

/// The server that settings describe, or why there is none.
pub open spec fn server_of(config: RealityConfig) -> core::result::Result<ServerView, Seq<char>> {
    if config.dest@.len() == 0 {
        Err("Reality dest cannot be empty"@)
    } else if config.private_key@.len() == 0 {
        Err("Reality privateKey cannot be empty"@)
    } else {
        match private_key_of(config.private_key@) {
            Err(err) => Err(err),
            Ok(private_key) => match short_ids_of(text_views(config.short_ids@)) {
                Err(err) => Err(err),
                Ok(short_ids) => Ok(
                    ServerView {
                        private_key,
                        dest: Some(config.dest@),
                        short_ids,
                        server_names: text_views(config.server_names@),
                    },
                ),
            },
        }
    }
}

/// The private key that a text stands for.
pub fn decode_private_key(private_key: &str) -> (key: core::result::Result<[u8; 32], RealityError>)
    ensures
        match key {
            Ok(key) => private_key_of(private_key@) == Ok::<Seq<u8>, Seq<char>>(key@),
            Err(err) => private_key_of(private_key@) == Err::<Seq<u8>, Seq<char>>(err.message@),
        },
{
    let decoded = match decode_base64_url(private_key) {
        Some(bytes) => bytes,
        None => match decode_base64(private_key) {
            Ok(bytes) => bytes,
            Err(err) => {
                let text = String::from_str("failed to decode Reality private key: ").concat(err.as_str());
                return Err(RealityError { message: text });
            },
        },
    };
    if decoded.len() != 32 {
        let text = String::from_str("Reality privateKey must be 32 bytes, got ").concat(
            dec_text(decoded.len() as u64).as_str(),
        );
        return Err(RealityError { message: text });
    }
    Ok(array_32(decoded.as_slice()))
}

/// The public key that belongs to a private key, in base64.
pub fn public_key_from_private_key(private_key: &str) -> (public_key: core::result::Result<String, RealityError>)
    ensures
        match public_key {
            Ok(text) => public_key_of(private_key@) == Ok::<Seq<char>, Seq<char>>(text@),
            Err(err) => public_key_of(private_key@) == Err::<Seq<char>, Seq<char>>(err.message@),
        },
{
    match decode_private_key(private_key) {
        Ok(key) => Ok(encode_base64_url(&x25519_public(&key))),
        Err(err) => Err(err),
    }
}

/// A key pair in base64, private key first, from 32 bytes that serve as the private key. The
/// private key leads back to the public one.
pub fn keypair_from(private_key: [u8; 32]) -> (pair: (String, String))
    ensures
        pair.0@ == base64_url(private_key@),
        pair.1@ == base64_url(x25519_public_key(private_key@)),
        public_key_of(pair.0@) == Ok::<Seq<char>, Seq<char>>(pair.1@),
{
    (encode_base64_url(&private_key), encode_base64_url(&x25519_public(&private_key)))
}

/// A new key pair in base64, private key first. The private key leads back to the public one.
pub fn generate_keypair() -> (pair: (String, String))
    ensures
        exists|key: Seq<u8>|
            key.len() == 32 && pair.0@ == #[trigger] base64_url(key) && pair.1@ == base64_url(x25519_public_key(key)),
        public_key_of(pair.0@) == Ok::<Seq<char>, Seq<char>>(pair.1@),
{
    let bytes = random_bytes(32);
    let private_key = array_32(bytes.as_slice());
    assert(private_key@.len() == 32);
    keypair_from(private_key)
}

/// The client that is imitated where none is named.
pub fn default_fingerprint() -> (fingerprint: String)
    ensures
        fingerprint@ == "chrome"@,
{
    String::from_str("chrome")
}

impl View for RealityServer {
    type V = ServerView;

    closed spec fn view(&self) -> ServerView {
        self.inner@
    }
}

impl RealityServer {
    /// The server that settings describe.
    pub fn new(config: RealityConfig) -> (server: core::result::Result<Self, RealityError>)
        ensures
            match server {
                Ok(server) => server_of(config) == Ok::<ServerView, Seq<char>>(server@),
                Err(err) => server_of(config) == Err::<ServerView, Seq<char>>(err.message@),
            },
    {
        if config.dest.as_str().is_empty() {
            return Err(reality_error("Reality dest cannot be empty"));
        }
        if config.private_key.as_str().is_empty() {
            return Err(reality_error("Reality privateKey cannot be empty"));
        }
        let private_key = match decode_private_key(config.private_key.as_str()) {
            Ok(key) => key,
            Err(err) => {
                return Err(err);
            },
        };
        match RealityServerRustls::new(private_key, Some(config.dest), config.short_ids, config.server_names) {
            Ok(inner) => Ok(RealityServer { inner }),
            Err(err) => Err(err),
        }
    }

    /// What the server does with its connections.
    pub fn inner(&self) -> (inner: &RealityServerRustls)
        ensures
            inner@ == self@,
    {
        &self.inner
    }
}

/// A private key is read in the alphabet for URLs, and in the other where it is none in that. It has 32
/// bytes, and every text for 32 bytes is one.
pub proof fn private_keys_have_32_bytes(text: Seq<char>, bytes: Seq<u8>)
    ensures
        base64_url_decoded(text) == Some(bytes) ==> (private_key_of(text) is Ok <==> bytes.len() == 32),
        base64_url_decoded(text) == Some(bytes) && bytes.len() == 32 ==> private_key_of(text) == Ok::<
            Seq<u8>,
            Seq<char>,
        >(bytes),
        base64_url_decoded(text) is None && base64_standard_decoded(text) == Ok::<Seq<u8>, Seq<char>>(bytes)
            && bytes.len() == 32 ==> private_key_of(text) == Ok::<Seq<u8>, Seq<char>>(bytes),
        base64_url_decoded(text) is None && base64_standard_decoded(text) == Ok::<Seq<u8>, Seq<char>>(bytes)
            && bytes.len() != 32 ==> private_key_of(text) is Err,
        base64_url_decoded(text) is None && base64_standard_decoded(text) is Err ==> private_key_of(text) is Err,
        private_key_of(text) == Ok::<Seq<u8>, Seq<char>>(bytes) ==> public_key_of(text) == Ok::<Seq<char>, Seq<char>>(
            base64_url(x25519_public_key(bytes)),
        ),
        private_key_of(text) is Err ==> public_key_of(text) is Err,
{
}

/// A server is what its settings say. Settings without a site, without a key that is one, or with an
/// identifier that is none, make no server.
pub proof fn servers_are_what_their_settings_say(config: RealityConfig)
    ensures
        server_of(config) is Ok <==> config.dest@.len() > 0 && config.private_key@.len() > 0 && private_key_of(
            config.private_key@,
        ) is Ok && short_ids_of(text_views(config.short_ids@)) is Ok,
        server_of(config) matches Ok(server) ==> ({
            &&& server.dest == Some(config.dest@)
            &&& private_key_of(config.private_key@) == Ok::<Seq<u8>, Seq<char>>(server.private_key)
            &&& short_ids_of(text_views(config.short_ids@)) == Ok::<Seq<Seq<u8>>, Seq<char>>(server.short_ids)
            &&& server.server_names == text_views(config.server_names@)
        }),
        config.dest@.len() == 0 ==> server_of(config) == Err::<ServerView, Seq<char>>(
            "Reality dest cannot be empty"@,
        ),
        config.dest@.len() > 0 && config.private_key@.len() == 0 ==> server_of(config) == Err::<ServerView, Seq<char>>(
            "Reality privateKey cannot be empty"@,
        ),
{
}

} // verus!
