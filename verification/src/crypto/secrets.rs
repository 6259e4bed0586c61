//! Keys out of passwords, and nonces out of the random number generator.
use sha2::Digest;
use vstd::prelude::*;
use vstd::utf8::encode_utf8;

use crate::crypto::model::header_bytes;
use crate::crypto::CYPTO_HEADER_SIZE;

verus! {

/// The SHA-256 digest of a message.
pub uninterp spec fn sha256(message: Seq<u8>) -> Seq<u8>;

/// `sha2::Sha256::digest`: the digest of the message, which depends on the
/// message alone.
#[verifier::external_body]
pub(crate) fn sha256_digest(message: &[u8]) -> (r: [u8; 32])
    ensures
        r@ == sha256(message@),
{
    sha2::Sha256::digest(message).into()
}

/// `rand::random`: an array of random bytes. Nothing is promised of them.
#[verifier::external_body]
pub(crate) fn random_bytes<const N: usize>() -> [u8; N] {
    rand::random()
}

/// What is derived from a password for the use that the label names.
pub open spec fn derived(label: Seq<char>, password: Seq<u8>) -> Seq<u8> {
    sha256(encode_utf8(label) + password)
}

/// Derives 32 bytes from a password for the use that the label names.
pub fn derive_bytes(label: &str, password: &[u8]) -> (r: [u8; 32])
    ensures
        r@ == derived(label@, password@),
{
    let mut message: Vec<u8> = Vec::new();
    message.extend_from_slice(label.as_bytes());
    message.extend_from_slice(password);
    assert(message@ == encode_utf8(label@) + password@);
    sha256_digest(&message)
}

/// The first bytes of an array, as an array of their own.
pub fn first_bytes<const N: usize>(bytes: &[u8]) -> (r: [u8; N])
    requires
        N <= bytes@.len(),
    ensures
        r@ == bytes@.take(N as int),
{
    let mut out: [u8; N] = [0u8; N];
    let mut i: usize = 0;
    while i < N
        invariant
            i <= N <= bytes@.len(),
            forall|k: int| 0 <= k < i ==> out@[k] == bytes@[k],
        decreases N - i,
    {
        out[i] = bytes[i];
        i += 1;
    }
    assert(out@ =~= bytes@.take(N as int));
    out
}

/// The bytes that a cipher with the given nonce puts into a header.
pub fn padded_header(nonce: &[u8]) -> (r: [u8; CYPTO_HEADER_SIZE])
    requires
        nonce@.len() <= CYPTO_HEADER_SIZE,
    ensures
        r@ == header_bytes(nonce@),
{
    let mut header: [u8; CYPTO_HEADER_SIZE] = [0u8; CYPTO_HEADER_SIZE];
    let mut i: usize = 0;
    while i < CYPTO_HEADER_SIZE
        invariant
            i <= CYPTO_HEADER_SIZE,
            nonce@.len() <= CYPTO_HEADER_SIZE,
            forall|k: int| 0 <= k < i ==> header@[k] == header_bytes(nonce@)[k],
        decreases CYPTO_HEADER_SIZE - i,
    {
        header[i] = if i < nonce.len() {
            nonce[i]
        } else {
            0
        };
        i += 1;
    }
    assert(header@ =~= header_bytes(nonce@));
    header
}

} // verus!
