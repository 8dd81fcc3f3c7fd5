//! How a client proves that it knows the password: the password's hash, and padding.

use vstd::prelude::*;
use vstd::slice::{slice_subrange, slice_to_vec};
use vstd::utf8::encode_utf8;

use crate::crypto::{sha256, sha256_digest};
use crate::error::{AnyTlsError, ErrorView, Result};
use crate::padding::{items_allow, scheme_items, PaddingFactory};
use crate::wire::{
    be_bytes, be_value, decoded, lemma_be_bytes_len, lemma_be_round_trip, lemma_pow256_values, push_be, push_zeros,
    read_be, same_bytes, short_numbers_byte_by_byte, zeros, Decoded, Progress,
};

verus! {

pub const PASSWORD_HASH_LEN: usize = 32;

/// How much padding an authentication request carries: the first of the sizes that the scheme
/// has for packet zero.
pub open spec fn auth_padding(sizes: Seq<i32>) -> nat {
    if sizes.len() > 0 && sizes[0] > 0 {
        sizes[0] as nat
    } else {
        0
    }
}

/// An authentication request. Its length field holds the low 16 bits of the padding's length.
pub open spec fn auth_bytes(hash: Seq<u8>, padding_len: nat) -> Seq<u8> {
    hash + be_bytes(padding_len % 0x1_0000, 2) + zeros(padding_len)
}

/// What the bytes at the start of a connection make: an authenticated client, or the need for
/// more bytes, or a refusal.
pub open spec fn decode_auth(bytes: Seq<u8>, expected: Seq<u8>) -> Decoded<()> {
    if bytes.len() < PASSWORD_HASH_LEN {
        Decoded::Need(PASSWORD_HASH_LEN as int)
    } else if bytes.take(PASSWORD_HASH_LEN as int) != expected {
        Decoded::Failed(ErrorView::AuthenticationFailed)
    } else if bytes.len() < PASSWORD_HASH_LEN + 2 {
        Decoded::Need(PASSWORD_HASH_LEN + 2)
    } else {
        let total = PASSWORD_HASH_LEN + 2 + be_value(bytes.subrange(32, 34));
        if bytes.len() < total {
            Decoded::Need(total)
        } else {
            Decoded::Done((), total)
        }
    }
}

proof fn lemma_auth_bytes(hash: Seq<u8>, padding_len: nat)
    requires
        hash.len() == PASSWORD_HASH_LEN,
    ensures
        auth_bytes(hash, padding_len).len() == PASSWORD_HASH_LEN + 2 + padding_len,
        auth_bytes(hash, padding_len).take(PASSWORD_HASH_LEN as int) == hash,
        be_value(auth_bytes(hash, padding_len).subrange(32, 34)) == padding_len % 0x1_0000,
{
    let length = padding_len % 0x1_0000;
    lemma_be_bytes_len(length, 2);
    lemma_pow256_values();
    lemma_be_round_trip(length, 2);
    let bytes = auth_bytes(hash, padding_len);
    assert(bytes.take(PASSWORD_HASH_LEN as int) =~= hash);
    assert(bytes.subrange(32, 34) =~= be_bytes(length, 2));
}

/// A request with the right hash is accepted, and read to its end and no further.
pub proof fn right_password_is_accepted(hash: Seq<u8>, padding_len: nat, rest: Seq<u8>)
    requires
        hash.len() == PASSWORD_HASH_LEN,
        padding_len < 0x1_0000,
    ensures
        decode_auth(auth_bytes(hash, padding_len) + rest, hash) == Decoded::Done(
            (),
            auth_bytes(hash, padding_len).len() as int,
        ),
{
    let request = auth_bytes(hash, padding_len);
    let bytes = request + rest;
    lemma_auth_bytes(hash, padding_len);
    assert(bytes.take(PASSWORD_HASH_LEN as int) =~= request.take(PASSWORD_HASH_LEN as int));
    assert(bytes.subrange(32, 34) =~= request.subrange(32, 34));
}

/// A part of a request with the right hash is neither accepted nor refused, and never more is
/// asked for than the request has.
pub proof fn partial_request_waits(hash: Seq<u8>, padding_len: nat, n: int)
    requires
        hash.len() == PASSWORD_HASH_LEN,
        padding_len < 0x1_0000,
        0 <= n < auth_bytes(hash, padding_len).len(),
    ensures
        decode_auth(auth_bytes(hash, padding_len).take(n), hash) matches Decoded::Need(total) && n < total
            <= auth_bytes(hash, padding_len).len(),
{
    let request = auth_bytes(hash, padding_len);
    let part = request.take(n);
    lemma_auth_bytes(hash, padding_len);
    if n >= PASSWORD_HASH_LEN {
        assert(part.take(PASSWORD_HASH_LEN as int) =~= request.take(PASSWORD_HASH_LEN as int));
    }
    if n >= PASSWORD_HASH_LEN + 2 {
        assert(part.subrange(32, 34) =~= request.subrange(32, 34));
    }
}

/// A request with any other hash is refused.
pub proof fn wrong_password_is_refused(hash: Seq<u8>, expected: Seq<u8>, padding_len: nat, rest: Seq<u8>)
    requires
        hash.len() == PASSWORD_HASH_LEN,
        hash != expected,
    ensures
        decode_auth(auth_bytes(hash, padding_len) + rest, expected) == Decoded::<()>::Failed(
            ErrorView::AuthenticationFailed,
        ),
{
    let bytes = auth_bytes(hash, padding_len) + rest;
    lemma_auth_bytes(hash, padding_len);
    assert(bytes.take(PASSWORD_HASH_LEN as int) =~= hash);
}

/// The hash by which a password is known: its SHA-256 digest.
pub fn password_hash(password: &str) -> (hash: [u8; 32])
    ensures
        hash@ == sha256_digest(encode_utf8(password@)),
{
    sha256(password.as_bytes())
}

/// The request that a client sends first, given the sizes that were drawn for packet zero.
pub fn auth_request(password_hash: &[u8; 32], sizes: &[i32]) -> (request: Vec<u8>)
    ensures
        request@ == auth_bytes(password_hash@, auth_padding(sizes@)),
{
    let padding_len: usize = if sizes.len() > 0 && sizes[0] > 0 { sizes[0] as usize } else { 0 };
    let mut request = slice_to_vec(password_hash.as_slice());
    push_be(&mut request, (padding_len % 0x1_0000) as u128, 2);
    push_zeros(&mut request, padding_len);
    request
}

/// The request that a client sends first. The size of its padding is drawn anew.
pub fn build_auth_request(password_hash: &[u8; 32], padding: &PaddingFactory) -> (request: Vec<u8>)
    ensures
        exists|sizes: Seq<i32>| #[trigger]
            items_allow(scheme_items(padding@, 0), sizes) && request@ == auth_bytes(
                password_hash@,
                auth_padding(sizes),
            ),
{
    let sizes = padding.generate_record_payload_sizes(0);
    auth_request(password_hash, sizes.as_slice())
}

/// Checks the request at the start of what has come in. Until it is all there, the result says
/// how many bytes are needed.
pub fn read_and_verify_auth(bytes: &[u8], expected_hash: &[u8; 32]) -> (result: Result<Progress<()>>)
    ensures
        decoded(result) == decode_auth(bytes@, expected_hash@),
{
    if bytes.len() < PASSWORD_HASH_LEN {
        return Ok(Progress::Need { total: PASSWORD_HASH_LEN });
    }
    let actual = slice_subrange(bytes, 0, PASSWORD_HASH_LEN);
    assert(actual@ =~= bytes@.take(PASSWORD_HASH_LEN as int));
    if !same_bytes(actual, expected_hash.as_slice()) {
        return Err(AnyTlsError::AuthenticationFailed);
    }
    if bytes.len() < PASSWORD_HASH_LEN + 2 {
        return Ok(Progress::Need { total: PASSWORD_HASH_LEN + 2 });
    }
    proof {
        lemma_pow256_values();
    }
    let total: usize = PASSWORD_HASH_LEN + 2 + read_be(bytes, 32, 34) as usize;
    if bytes.len() < total {
        return Ok(Progress::Need { total });
    }
    Ok(Progress::Done { value: (), consumed: total })
}

/// A request is laid out as the hash, the length of the padding in two bytes, the high one first,
/// and as many zeros.
pub proof fn requests_have_this_layout(hash: Seq<u8>, padding_len: nat)
    requires
        padding_len <= 65535,
    ensures
        auth_bytes(hash, padding_len) == hash + seq![(padding_len / 256) as u8, (padding_len % 256) as u8] + Seq::new(
            padding_len,
            |i: int| 0u8,
        ),
{
    short_numbers_byte_by_byte(padding_len);
    assert(zeros(padding_len) =~= Seq::new(padding_len, |i: int| 0u8));
}

/// A hash is refused as soon as it is there, unless it is the expected one. One that is expected is
/// never refused.
pub proof fn the_hash_decides(bytes: Seq<u8>, expected: Seq<u8>)
    requires
        expected.len() == 32,
    ensures
        decode_auth(bytes, expected) is Failed <==> bytes.len() >= 32 && bytes.subrange(0, 32) != expected,
        decode_auth(bytes, expected) is Done <==> bytes.len() >= 34 && bytes.subrange(0, 32) == expected && bytes.len()
            >= 34 + bytes[32] * 256 + bytes[33],
        decode_auth(bytes, expected) matches Decoded::Done(_, n) ==> n == 34 + bytes[32] * 256 + bytes[33],
{
    if bytes.len() >= 32 {
        assert(bytes.subrange(0, 32) =~= bytes.take(32));
    }
    if bytes.len() >= 34 {
        let length = bytes.subrange(32, 34);
        reveal_with_fuel(be_value, 3);
        assert(length.drop_last().drop_last() =~= Seq::empty());
        assert(length.drop_last().last() == bytes[32] && length.last() == bytes[33]);
    }
}

/// The first size decides how much padding a request has, and sizes below zero count as none.
pub proof fn the_first_size_is_the_padding(size: i32, rest: Seq<i32>)
    ensures
        size >= 0 ==> auth_padding(seq![size] + rest) == size,
        size < 0 ==> auth_padding(seq![size] + rest) == 0,
        auth_padding(Seq::empty()) == 0,
{
}

} // verus!
