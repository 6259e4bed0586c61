//! AES-256-GCM over blocks of a file.
use aes_gcm::aead::{Aead, KeyInit};
use vstd::prelude::*;

use crate::crypto::secrets::{derive_bytes, first_bytes, padded_header, random_bytes};
use crate::crypto::model::{frame_nonce, opt_bytes, CipherState};
use crate::crypto::{BlockCipher, Cipher, EncType, CYPTO_HEADER_SIZE, CYPTO_META_SIZE};

verus! {

pub const GCM_BLOCK_SIZE: usize = 65536;

pub const GCM_TAG_SIZE: usize = 16;

pub const GCM_FRAME_SIZE: usize = GCM_BLOCK_SIZE + GCM_TAG_SIZE;

/// What AES-256-GCM seals a message to under a key and a nonce of 96 bits.
pub uninterp spec fn aes256_gcm_seal(key: Seq<u8>, nonce: Seq<u8>, plain: Seq<u8>) -> Option<
    Seq<u8>,
>;

/// What AES-256-GCM opens a sealed message to.
pub uninterp spec fn aes256_gcm_open(key: Seq<u8>, nonce: Seq<u8>, frame: Seq<u8>) -> Option<
    Seq<u8>,
>;

/// `aes_gcm::Aes256Gcm`'s `encrypt`, without associated data. It fails exactly
/// on messages of more than 2^36 bytes; else it appends a tag of 16 bytes, and
/// the result opens to the message under the same key and nonce. The result
/// depends on the arguments alone.
#[verifier::external_body]
fn aes256_gcm_encrypt(key: &[u8; 32], nonce: &[u8; 12], plain: &[u8]) -> (r: Option<Vec<u8>>)
    requires
        plain@.len() + 16 <= isize::MAX,
    ensures
        opt_bytes(r) == aes256_gcm_seal(key@, nonce@, plain@),
        r is Some <==> plain@.len() <= 0x10_0000_0000,
        r matches Some(frame) ==> frame@.len() == plain@.len() + 16,
        r matches Some(frame) ==> aes256_gcm_open(key@, nonce@, frame@) == Some(plain@),
{
    aes_gcm::Aes256Gcm::new(key.into()).encrypt(nonce.into(), plain).ok()
}

/// `aes_gcm::Aes256Gcm`'s `decrypt`, without associated data. Where it
/// succeeds, the tag of 16 bytes is gone. The result depends on the arguments
/// alone.
#[verifier::external_body]
fn aes256_gcm_decrypt(key: &[u8; 32], nonce: &[u8; 12], frame: &[u8]) -> (r: Option<Vec<u8>>)
    ensures
        opt_bytes(r) == aes256_gcm_open(key@, nonce@, frame@),
        r matches Some(plain) ==> plain@.len() + 16 == frame@.len(),
{
    aes_gcm::Aes256Gcm::new(key.into()).decrypt(nonce.into(), frame).ok()
}

pub struct AesGcm {
    key: [u8; 32],
    nonce: [u8; 16],
    counter: u32,
}

impl AesGcm {
    /// The cipher for a file with the given nonce, at its beginning.
    pub fn with_nonce(password: &[u8], nonce: [u8; 16]) -> (r: Self)
        ensures
            r.state() == CipherState::start(EncType::AesGcm, password@, nonce@),
    {
        let key: [u8; 32] = derive_bytes("aesgcm-key-v1", password);
        AesGcm { key, nonce, counter: 0 }
    }

    /// Counts one block on and gives its nonce.
    fn next_nonce(&mut self) -> (r: [u8; 12])
        requires
            old(self).state().at < u32::MAX,
        ensures
            r@ == old(self).state().next_nonce(),
            final(self).state() == (CipherState {
                at: old(self).state().at + 1,
                ..old(self).state()
            }),
    {
        self.counter = self.counter + 1;
        let mut n: [u8; 12] = [0u8; 12];
        let number: Vec<u8> = vstd::bytes::u32_to_le_bytes(self.counter);
        let mut i: usize = 0;
        while i < 8
            invariant
                i <= 8,
                forall|k: int| 0 <= k < i ==> n@[k] == self.nonce@[k],
            decreases 8 - i,
        {
            n[i] = self.nonce[i];
            i += 1;
        }
        n[8] = number[0];
        n[9] = number[1];
        n[10] = number[2];
        n[11] = number[3];
        assert(n@ =~= frame_nonce(self.nonce@, self.counter));
        n
    }
}

impl Cipher for AesGcm {
    closed spec fn state(&self) -> CipherState {
        CipherState {
            enc_type: EncType::AesGcm,
            key: self.key@,
            iv: Seq::empty(),
            nonce: self.nonce@,
            at: self.counter as nat,
        }
    }

    fn gen_header(&self) -> (r: [u8; CYPTO_HEADER_SIZE]) {
        padded_header(&self.nonce)
    }

    fn encrypt(&mut self, data: &[u8]) -> (r: Vec<u8>) {
        let n: [u8; 12] = self.next_nonce();
        match aes256_gcm_encrypt(&self.key, &n, data) {
            Some(frame) => frame,
            None => Vec::new(),
        }
    }

    fn decrypt(&mut self, data: &[u8]) -> (r: Vec<u8>) {
        let n: [u8; 12] = self.next_nonce();
        match aes256_gcm_decrypt(&self.key, &n, data) {
            Some(plain) => plain,
            None => Vec::new(),
        }
    }

    fn plaintext_len_of(&self, cipher_len: u64) -> (r: Option<u64>) {
        if cipher_len < CYPTO_META_SIZE as u64 {
            return None;
        }
        let data: u64 = cipher_len - CYPTO_META_SIZE as u64;
        let fs: u64 = GCM_FRAME_SIZE as u64;
        let bs: u64 = GCM_BLOCK_SIZE as u64;
        let tag: u64 = GCM_TAG_SIZE as u64;
        let n: u64 = data / fs;
        let r: u64 = data % fs;
        if r == 0 {
            Some(n * bs)
        } else if r >= tag {
            Some(n * bs + r - tag)
        } else {
            None
        }
    }

    fn map_plain_to_cipher(&self, plain_start: u64) -> (r: (u64, usize)) {
        let bs: u64 = GCM_BLOCK_SIZE as u64;
        let fs: u64 = GCM_FRAME_SIZE as u64;
        let block: u64 = plain_start / bs;

        let cipher_off: u64 = CYPTO_META_SIZE as u64 + block * fs;
        let skip: usize = (plain_start - block * bs) as usize;
        (cipher_off, skip)
    }
}

impl BlockCipher for AesGcm {
    proof fn lemma_is_block(&self) {
    }

    fn new_block_cipher(password: &[u8]) -> (r: Self)
        ensures
            r.state().enc_type == EncType::AesGcm,
    {
        AesGcm::with_nonce(password, random_bytes::<16>())
    }

    fn parse_block_cipher(password: &[u8], header: [u8; CYPTO_HEADER_SIZE]) -> (r: Self)
        ensures
            r.state().enc_type == EncType::AesGcm,
    {
        AesGcm::with_nonce(password, first_bytes::<16>(&header))
    }

    fn position(&self) -> (r: u32) {
        self.counter
    }

    fn frame_size(&self) -> (r: usize) {
        GCM_FRAME_SIZE
    }

    fn plain_block_size(&self) -> (r: usize) {
        GCM_BLOCK_SIZE
    }

    fn seek_to_block(&mut self, block: u64) {
        self.counter = block as u32;
    }
}

} // verus!
