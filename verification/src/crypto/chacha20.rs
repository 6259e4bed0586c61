//! ChaCha20 as a stream cipher.
use chacha20::cipher::{KeyIvInit, StreamCipher as _, StreamCipherSeek};
use vstd::prelude::*;

use crate::crypto::secrets::{derive_bytes, first_bytes, padded_header, random_bytes};
use crate::crypto::model::{lemma_xored_twice, CipherState};
use crate::crypto::{Cipher, EncType, StreamCipher, CYPTO_HEADER_SIZE, CYPTO_META_SIZE};

verus! {

/// A byte of the keystream that ChaCha20, in the version of RFC 8439, draws
/// from a key and a nonce of 96 bits.
pub uninterp spec fn chacha20_keystream(key: Seq<u8>, nonce: Seq<u8>, at: nat) -> u8;

/// `chacha20::ChaCha20`: made with a key and a nonce, moved to a position by
/// `seek`, `apply_keystream` combines each byte with the byte of the keystream
/// at its position by exclusive or. The keystream depends on the key, the
/// nonce and the position alone. Its counter of 32 bits ends it after
/// 64 * (2^32 - 1) bytes: to go further is a panic.
#[verifier::external_body]
fn chacha20_apply(key: &[u8; 32], nonce: &[u8; 12], at: u64, data: &[u8]) -> (r: Vec<u8>)
    requires
        at + data@.len() <= 64 * 0xffff_ffff,
    ensures
        r@ == Seq::new(
            data@.len(),
            |i: int| data@[i] ^ chacha20_keystream(key@, nonce@, (at + i) as nat),
        ),
{
    let mut cipher = chacha20::ChaCha20::new(key.into(), nonce.into());
    cipher.seek(at);
    let mut buf: Vec<u8> = data.to_vec();
    cipher.apply_keystream(&mut buf);
    buf
}

pub struct ChaCha20 {
    key: [u8; 32],
    nonce: [u8; 12],
    at: u64,
}

impl ChaCha20 {
    /// The cipher for a file with the given nonce, at its beginning.
    pub fn with_nonce(password: &[u8], nonce: [u8; 12]) -> (r: Self)
        ensures
            r.state() == CipherState::start(EncType::ChaCha20, password@, nonce@),
    {
        let key: [u8; 32] = derive_bytes("chacha20-key-v1", password);
        ChaCha20 { key, nonce, at: 0 }
    }
}

impl Cipher for ChaCha20 {
    closed spec fn state(&self) -> CipherState {
        CipherState {
            enc_type: EncType::ChaCha20,
            key: self.key@,
            iv: self.nonce@,
            nonce: self.nonce@,
            at: self.at as nat,
        }
    }

    fn gen_header(&self) -> (r: [u8; CYPTO_HEADER_SIZE]) {
        padded_header(&self.nonce)
    }

    fn encrypt(&mut self, data: &[u8]) -> (r: Vec<u8>) {
        let out: Vec<u8> = chacha20_apply(&self.key, &self.nonce, self.at, data);
        proof {
            assert(out@ =~= self.state().xored(data@));
            lemma_xored_twice(self.state(), data@);
        }
        self.at = self.at + data.len() as u64;
        out
    }

    fn decrypt(&mut self, data: &[u8]) -> (r: Vec<u8>) {
        self.encrypt(data)
    }

    fn plaintext_len_of(&self, cipher_len: u64) -> (r: Option<u64>) {
        cipher_len.checked_sub(CYPTO_META_SIZE as u64)
    }

    fn map_plain_to_cipher(&self, plain_start: u64) -> (r: (u64, usize)) {
        (CYPTO_META_SIZE as u64 + plain_start, 0)
    }
}

impl StreamCipher for ChaCha20 {
    proof fn lemma_is_stream(&self) {
    }

    fn new_stream_cipher(password: &[u8]) -> (r: Self)
        ensures
            r.state().enc_type == EncType::ChaCha20,
    {
        ChaCha20::with_nonce(password, random_bytes::<12>())
    }

    fn parse_stream_cipher(password: &[u8], header: [u8; CYPTO_HEADER_SIZE]) -> (r: Self)
        ensures
            r.state().enc_type == EncType::ChaCha20,
    {
        ChaCha20::with_nonce(password, first_bytes::<12>(&header))
    }

    fn position(&self) -> (r: u64) {
        self.at
    }

    fn limit(&self) -> (r: u64) {
        64 * 0xffff_ffff
    }

    fn skip_bytes(&mut self, n: u64) {
        self.at = self.at + n;
    }
}

} // verus!
