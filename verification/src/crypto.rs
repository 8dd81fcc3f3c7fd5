//! Digests, keys and randomness, which other crates compute.

use vstd::prelude::*;

use aes_gcm::{AeadInPlace as _, KeyInit as _};
use md5::Digest as _;
use rand::{Rng as _, RngCore as _};

verus! {

/// The MD5 digest of these bytes.
pub uninterp spec fn md5_digest(bytes: Seq<u8>) -> Seq<u8>;

/// Calls `Md5::digest`. The digest goes by the name [`md5_digest`].
#[verifier::external_body]
pub(crate) fn md5(bytes: &[u8]) -> (digest: [u8; 16])
    ensures
        digest@ == md5_digest(bytes@),
{
    md5::Md5::digest(bytes).into()
}

/// The SHA-256 digest of these bytes.
pub uninterp spec fn sha256_digest(bytes: Seq<u8>) -> Seq<u8>;

/// Calls `Sha256::digest`. The digest goes by the name [`sha256_digest`].
#[verifier::external_body]
pub(crate) fn sha256(bytes: &[u8]) -> (digest: [u8; 32])
    ensures
        digest@ == sha256_digest(bytes@),
{
    sha2::Sha256::digest(bytes).into()
}

/// Calls `gen_range` on `rand`'s generator of the running thread, which draws a number from `min`
/// on and below `max`. Which one is drawn is left to chance.
#[verifier::external_body]
pub(crate) fn random_between(min: i64, max: i64) -> (drawn: i64)
    requires
        min < max,
    ensures
        min <= drawn < max,
{
    rand::thread_rng().gen_range(min..max)
}

/// Calls `fill_bytes` on the operating system's generator, which leaves the bytes to chance.
#[verifier::external_body]
pub(crate) fn random_bytes(n: usize) -> (bytes: Vec<u8>)
    requires
        n <= isize::MAX,
    ensures
        bytes@.len() == n,
{
    let mut bytes = vec![0u8; n];
    rand::rngs::OsRng.fill_bytes(&mut bytes);
    bytes
}

/// The X25519 public key that belongs to a private key.
pub uninterp spec fn x25519_public_key(private_key: Seq<u8>) -> Seq<u8>;

/// The secret that the holder of a private key shares with the holder of a public key.
pub uninterp spec fn x25519_shared_secret(private_key: Seq<u8>, public_key: Seq<u8>) -> Seq<u8>;

/// Calls `PublicKey::from` of `x25519-dalek` on a private key. The public key goes by the name
/// [`x25519_public_key`].
#[verifier::external_body]
pub(crate) fn x25519_public(private_key: &[u8; 32]) -> (public_key: [u8; 32])
    ensures
        public_key@ == x25519_public_key(private_key@),
{
    let secret = x25519_dalek::StaticSecret::from(*private_key);
    *x25519_dalek::PublicKey::from(&secret).as_bytes()
}

/// Calls `StaticSecret::diffie_hellman` of `x25519-dalek`. The secret goes by the name
/// [`x25519_shared_secret`].
#[verifier::external_body]
pub(crate) fn x25519_shared(private_key: &[u8; 32], public_key: &[u8; 32]) -> (secret: [u8; 32])
    ensures
        secret@ == x25519_shared_secret(private_key@, public_key@),
{
    let private_key = x25519_dalek::StaticSecret::from(*private_key);
    private_key.diffie_hellman(&x25519_dalek::PublicKey::from(*public_key)).to_bytes()
}

/// The first 32 bytes that HKDF with SHA-256 derives from key material, for this purpose.
pub uninterp spec fn hkdf_sha256_key(salt: Seq<u8>, material: Seq<u8>, info: Seq<u8>) -> Seq<u8>;

/// Calls `Hkdf::<Sha256>::expand` for 32 bytes, which is within the length that it can give. The
/// bytes go by the name [`hkdf_sha256_key`].
#[verifier::external_body]
pub(crate) fn hkdf_sha256(salt: &[u8], material: &[u8], info: &[u8]) -> (key: Option<[u8; 32]>)
    ensures
        key is Some,
        key->0@ == hkdf_sha256_key(salt@, material@, info@),
{
    let mut key = [0u8; 32];
    hkdf::Hkdf::<sha2::Sha256>::new(Some(salt), material).expand(info, &mut key).ok().map(|()| key)
}

/// What AES-256-GCM opens of a sealed message, if the message and the data beside it are genuine.
pub uninterp spec fn aes256_gcm_opened(
    key: Seq<u8>,
    nonce: Seq<u8>,
    beside: Seq<u8>,
    sealed: Seq<u8>,
) -> Option<Seq<u8>>;

/// Calls `Aes256Gcm::decrypt_in_place`, which takes the tag of 16 bytes off the end of a message.
/// What it gives goes by the name [`aes256_gcm_opened`].
#[verifier::external_body]
pub(crate) fn aes256_gcm_open(key: &[u8; 32], nonce: &[u8], beside: &[u8], sealed: &[u8]) -> (opened: Option<
    Vec<u8>,
>)
    requires
        nonce@.len() == 12,
    ensures
        match opened {
            Some(opened) => aes256_gcm_opened(key@, nonce@, beside@, sealed@) == Some(opened@) && opened@.len() + 16
                == sealed@.len(),
            None => aes256_gcm_opened(key@, nonce@, beside@, sealed@) is None,
        },
{
    let cipher = aes_gcm::Aes256Gcm::new(key.into());
    let mut message = sealed.to_vec();
    cipher.decrypt_in_place(nonce.into(), beside, &mut message).ok().map(|()| message)
}

/// The HMAC with SHA-512 of a message under a key.
pub uninterp spec fn hmac_sha512_tag(key: Seq<u8>, message: Seq<u8>) -> Seq<u8>;

/// Calls `ring::hmac::sign` for SHA-512, whose tags have 64 bytes. The tag goes by the name
/// [`hmac_sha512_tag`].
#[verifier::external_body]
pub(crate) fn hmac_sha512(key: &[u8], message: &[u8]) -> (tag: Vec<u8>)
    ensures
        tag@ == hmac_sha512_tag(key@, message@),
        tag@.len() == 64,
{
    let key = ring::hmac::Key::new(ring::hmac::HMAC_SHA512, key);
    ring::hmac::sign(&key, message).as_ref().to_vec()
}

} // verus!
