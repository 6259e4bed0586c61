//! AES-256 in counter mode.
use aes::cipher::{KeyIvInit, StreamCipher as _, StreamCipherSeek};
use vstd::prelude::*;

use crate::crypto::secrets::{derive_bytes, first_bytes, padded_header, random_bytes};
use crate::crypto::model::{lemma_xored_twice, CipherState};
use crate::crypto::{Cipher, EncType, StreamCipher, CYPTO_HEADER_SIZE, CYPTO_META_SIZE};

verus! {

/// A byte of the keystream that AES-256 in counter mode, with a big-endian
/// counter of 128 bits, draws from a key and an initial counter block.
pub uninterp spec fn aes256_ctr_keystream(key: Seq<u8>, iv: Seq<u8>, at: nat) -> u8;

/// `ctr::Ctr128BE::<aes::Aes256>`: made with a key and an initial counter
/// block, moved to a position by `seek`, `apply_keystream` combines each byte
/// with the byte of the keystream at its position by exclusive or. The
/// keystream depends on the key, the counter block and the position alone.
#[verifier::external_body]
fn aes256_ctr_apply(key: &[u8; 32], iv: &[u8; 16], at: u64, data: &[u8]) -> (r: Vec<u8>)
    ensures
        r@ == Seq::new(
            data@.len(),
            |i: int| data@[i] ^ aes256_ctr_keystream(key@, iv@, (at + i) as nat),
        ),
{
    let mut cipher = ctr::Ctr128BE::<aes::Aes256>::new(key.into(), iv.into());
    cipher.seek(at);
    let mut buf: Vec<u8> = data.to_vec();
    cipher.apply_keystream(&mut buf);
    buf
}

pub struct AesCtr {
    key: [u8; 32],
    iv: [u8; 16],
    nonce: [u8; 16],
    at: u64,
}

impl AesCtr {
    /// The cipher for a file with the given nonce, at its beginning.
    pub fn with_nonce(password: &[u8], nonce: [u8; 16]) -> (r: Self)
        ensures
            r.state() == CipherState::start(EncType::AesCtr, password@, nonce@),
    {
        let key: [u8; 32] = derive_bytes("aesctr-key-v1", password);
        let digest: [u8; 32] = derive_bytes("aesctr-iv-v1", password);
        let iv: [u8; 16] = first_bytes::<16>(&digest);
        AesCtr { key, iv, nonce, at: 0 }
    }
}

impl Cipher for AesCtr {
    closed spec fn state(&self) -> CipherState {
        CipherState {
            enc_type: EncType::AesCtr,
            key: self.key@,
            iv: self.iv@,
            nonce: self.nonce@,
            at: self.at as nat,
        }
    }

    fn gen_header(&self) -> (r: [u8; CYPTO_HEADER_SIZE]) {
        padded_header(&self.nonce)
    }

    fn encrypt(&mut self, data: &[u8]) -> (r: Vec<u8>) {
        let out: Vec<u8> = aes256_ctr_apply(&self.key, &self.iv, self.at, data);
        proof {
            assert(out@ =~= self.state().xored(data@));
            lemma_xored_twice(self.state(), data@);
        }
        self.at = self.at + data.len() as u64;
        out
    }

    fn decrypt(&mut self, data: &[u8]) -> (r: Vec<u8>) {
        self.encrypt(data)
    }

    fn plaintext_len_of(&self, cipher_len: u64) -> (r: Option<u64>) {
        cipher_len.checked_sub(CYPTO_META_SIZE as u64)
    }

    fn map_plain_to_cipher(&self, plain_start: u64) -> (r: (u64, usize)) {
        (CYPTO_META_SIZE as u64 + plain_start, 0)
    }
}

impl StreamCipher for AesCtr {
    proof fn lemma_is_stream(&self) {
    }

    fn new_stream_cipher(password: &[u8]) -> (r: Self)
        ensures
            r.state().enc_type == EncType::AesCtr,
    {
        AesCtr::with_nonce(password, random_bytes::<16>())
    }

    fn parse_stream_cipher(password: &[u8], header: [u8; CYPTO_HEADER_SIZE]) -> (r: Self)
        ensures
            r.state().enc_type == EncType::AesCtr,
    {
        AesCtr::with_nonce(password, first_bytes::<16>(&header))
    }

    fn position(&self) -> (r: u64) {
        self.at
    }

    fn limit(&self) -> (r: u64) {
        u64::MAX
    }

    fn skip_bytes(&mut self, n: u64) {
        self.at = self.at + n;
    }
}

} // verus!
