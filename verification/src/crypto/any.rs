//! A cipher of either kind whose algorithm is known only when the program runs.
use vstd::prelude::*;

use crate::crypto::aes_ctr::AesCtr;
use crate::crypto::aes_gcm::AesGcm;
use crate::crypto::aes_gcm_siv::AesGcmSiv;
use crate::crypto::chacha20::ChaCha20;
use crate::crypto::chacha20_poly1305::ChaCha20Poly1305;
use crate::crypto::model::{keystream_limit, nonce_size, CipherState, BLOCK_SIZE, FRAME_SIZE};
use crate::crypto::{BlockCipher, Cipher, CipherKind, EncType, StreamCipher, CYPTO_HEADER_SIZE};

verus! {

/// One of the ciphers that work on blocks.
pub enum AnyBlockCipher {
    AesGcm(AesGcm),
    ChaCha20Poly1305(ChaCha20Poly1305),
    AesGcmSiv(AesGcmSiv),
}

/// One of the ciphers that work on a stream.
pub enum AnyStreamCipher {
    AesCtr(AesCtr),
    ChaCha20(ChaCha20),
}

impl Cipher for AnyBlockCipher {
    open spec fn state(&self) -> CipherState {
        match self {
            AnyBlockCipher::AesGcm(c) => c.state(),
            AnyBlockCipher::ChaCha20Poly1305(c) => c.state(),
            AnyBlockCipher::AesGcmSiv(c) => c.state(),
        }
    }

    fn gen_header(&self) -> (r: [u8; CYPTO_HEADER_SIZE]) {
        match self {
            AnyBlockCipher::AesGcm(c) => c.gen_header(),
            AnyBlockCipher::ChaCha20Poly1305(c) => c.gen_header(),
            AnyBlockCipher::AesGcmSiv(c) => c.gen_header(),
        }
    }

    fn encrypt(&mut self, data: &[u8]) -> (r: Vec<u8>) {
        match self {
            AnyBlockCipher::AesGcm(c) => c.encrypt(data),
            AnyBlockCipher::ChaCha20Poly1305(c) => c.encrypt(data),
            AnyBlockCipher::AesGcmSiv(c) => c.encrypt(data),
        }
    }

    fn decrypt(&mut self, data: &[u8]) -> (r: Vec<u8>) {
        match self {
            AnyBlockCipher::AesGcm(c) => c.decrypt(data),
            AnyBlockCipher::ChaCha20Poly1305(c) => c.decrypt(data),
            AnyBlockCipher::AesGcmSiv(c) => c.decrypt(data),
        }
    }

    fn plaintext_len_of(&self, cipher_len: u64) -> (r: Option<u64>) {
        match self {
            AnyBlockCipher::AesGcm(c) => c.plaintext_len_of(cipher_len),
            AnyBlockCipher::ChaCha20Poly1305(c) => c.plaintext_len_of(cipher_len),
            AnyBlockCipher::AesGcmSiv(c) => c.plaintext_len_of(cipher_len),
        }
    }

    fn map_plain_to_cipher(&self, plain_start: u64) -> (r: (u64, usize)) {
        match self {
            AnyBlockCipher::AesGcm(c) => c.map_plain_to_cipher(plain_start),
            AnyBlockCipher::ChaCha20Poly1305(c) => c.map_plain_to_cipher(plain_start),
            AnyBlockCipher::AesGcmSiv(c) => c.map_plain_to_cipher(plain_start),
        }
    }
}

impl AnyBlockCipher {
    /// Whichever cipher it is, it works on blocks.
    pub proof fn lemma_is_block(&self)
        ensures
            self.state().enc_type.spec_kind() == CipherKind::Block,
            self.state().is_block(),
            self.state().at <= u32::MAX,
    {
        match self {
            AnyBlockCipher::AesGcm(c) => c.lemma_is_block(),
            AnyBlockCipher::ChaCha20Poly1305(c) => c.lemma_is_block(),
            AnyBlockCipher::AesGcmSiv(c) => c.lemma_is_block(),
        }
    }

    /// How many pieces have been worked on.
    pub fn position(&self) -> (r: u32)
        ensures
            r == self.state().at,
    {
        match self {
            AnyBlockCipher::AesGcm(c) => c.position(),
            AnyBlockCipher::ChaCha20Poly1305(c) => c.position(),
            AnyBlockCipher::AesGcmSiv(c) => c.position(),
        }
    }

    /// The length of a sealed block.
    pub fn frame_size(&self) -> (r: usize)
        ensures
            r == FRAME_SIZE,
    {
        match self {
            AnyBlockCipher::AesGcm(c) => c.frame_size(),
            AnyBlockCipher::ChaCha20Poly1305(c) => c.frame_size(),
            AnyBlockCipher::AesGcmSiv(c) => c.frame_size(),
        }
    }

    /// The length of a block before it is sealed.
    pub fn plain_block_size(&self) -> (r: usize)
        ensures
            r == BLOCK_SIZE,
    {
        match self {
            AnyBlockCipher::AesGcm(c) => c.plain_block_size(),
            AnyBlockCipher::ChaCha20Poly1305(c) => c.plain_block_size(),
            AnyBlockCipher::AesGcmSiv(c) => c.plain_block_size(),
        }
    }

    /// Goes to the point at which the given number of pieces has been worked
    /// on. The number is kept in 32 bits.
    pub fn seek_to_block(&mut self, block: u64)
        ensures
            final(self).state() == (CipherState { at: (block as u32) as nat, ..old(self).state() }),
    {
        match self {
            AnyBlockCipher::AesGcm(c) => c.seek_to_block(block),
            AnyBlockCipher::ChaCha20Poly1305(c) => c.seek_to_block(block),
            AnyBlockCipher::AesGcmSiv(c) => c.seek_to_block(block),
        }
    }
}

impl Cipher for AnyStreamCipher {
    open spec fn state(&self) -> CipherState {
        match self {
            AnyStreamCipher::AesCtr(c) => c.state(),
            AnyStreamCipher::ChaCha20(c) => c.state(),
        }
    }

    fn gen_header(&self) -> (r: [u8; CYPTO_HEADER_SIZE]) {
        match self {
            AnyStreamCipher::AesCtr(c) => c.gen_header(),
            AnyStreamCipher::ChaCha20(c) => c.gen_header(),
        }
    }

    fn encrypt(&mut self, data: &[u8]) -> (r: Vec<u8>) {
        match self {
            AnyStreamCipher::AesCtr(c) => c.encrypt(data),
            AnyStreamCipher::ChaCha20(c) => c.encrypt(data),
        }
    }

    fn decrypt(&mut self, data: &[u8]) -> (r: Vec<u8>) {
        match self {
            AnyStreamCipher::AesCtr(c) => c.decrypt(data),
            AnyStreamCipher::ChaCha20(c) => c.decrypt(data),
        }
    }

    fn plaintext_len_of(&self, cipher_len: u64) -> (r: Option<u64>) {
        match self {
            AnyStreamCipher::AesCtr(c) => c.plaintext_len_of(cipher_len),
            AnyStreamCipher::ChaCha20(c) => c.plaintext_len_of(cipher_len),
        }
    }

    fn map_plain_to_cipher(&self, plain_start: u64) -> (r: (u64, usize)) {
        match self {
            AnyStreamCipher::AesCtr(c) => c.map_plain_to_cipher(plain_start),
            AnyStreamCipher::ChaCha20(c) => c.map_plain_to_cipher(plain_start),
        }
    }
}

impl AnyStreamCipher {
    /// Whichever cipher it is, it works on a stream.
    pub proof fn lemma_is_stream(&self)
        ensures
            self.state().enc_type.spec_kind() == CipherKind::Stream,
            !self.state().is_block(),
            self.state().at <= u64::MAX,
    {
        match self {
            AnyStreamCipher::AesCtr(c) => c.lemma_is_stream(),
            AnyStreamCipher::ChaCha20(c) => c.lemma_is_stream(),
        }
    }

    /// How many bytes have been worked on.
    pub fn position(&self) -> (r: u64)
        ensures
            r == self.state().at,
    {
        match self {
            AnyStreamCipher::AesCtr(c) => c.position(),
            AnyStreamCipher::ChaCha20(c) => c.position(),
        }
    }

    /// How many bytes can be worked on.
    pub fn limit(&self) -> (r: u64)
        ensures
            r == keystream_limit(self.state().enc_type),
    {
        match self {
            AnyStreamCipher::AesCtr(c) => c.limit(),
            AnyStreamCipher::ChaCha20(c) => c.limit(),
        }
    }

    /// Goes on by `n` bytes without working on any.
    pub fn skip_bytes(&mut self, n: u64)
        requires
            old(self).state().can_decrypt(n as nat),
        ensures
            final(self).state() == old(self).state().advanced(n as nat),
    {
        match self {
            AnyStreamCipher::AesCtr(c) => c.skip_bytes(n),
            AnyStreamCipher::ChaCha20(c) => c.skip_bytes(n),
        }
    }
}

impl EncType {
    /// A block cipher for a new file, with a nonce drawn at random.
    pub fn new_block_cipher(&self, password: &[u8]) -> (r: AnyBlockCipher)
        requires
            self.spec_kind() == CipherKind::Block,
        ensures
            r.state().nonce.len() == nonce_size(*self),
            r.state() == CipherState::start(*self, password@, r.state().nonce),
    {
        match self {
            EncType::AesGcm => AnyBlockCipher::AesGcm(AesGcm::new_block_cipher(password)),
            EncType::ChaCha20Poly1305 => AnyBlockCipher::ChaCha20Poly1305(
                ChaCha20Poly1305::new_block_cipher(password),
            ),
            _ => AnyBlockCipher::AesGcmSiv(AesGcmSiv::new_block_cipher(password)),
        }
    }

    /// A stream cipher for a new file, with a nonce drawn at random.
    pub fn new_stream_cipher(&self, password: &[u8]) -> (r: AnyStreamCipher)
        requires
            self.spec_kind() == CipherKind::Stream,
        ensures
            r.state().nonce.len() == nonce_size(*self),
            r.state() == CipherState::start(*self, password@, r.state().nonce),
    {
        match self {
            EncType::AesCtr => AnyStreamCipher::AesCtr(AesCtr::new_stream_cipher(password)),
            _ => AnyStreamCipher::ChaCha20(ChaCha20::new_stream_cipher(password)),
        }
    }

    /// The block cipher for a file whose header is given.
    pub fn parse_block_header(&self, password: &[u8], header: [u8; CYPTO_HEADER_SIZE]) -> (r:
        AnyBlockCipher)
        requires
            self.spec_kind() == CipherKind::Block,
        ensures
            r.state() == CipherState::start(
                *self,
                password@,
                header@.take(nonce_size(*self) as int),
            ),
    {
        match self {
            EncType::AesGcm => AnyBlockCipher::AesGcm(AesGcm::parse_block_cipher(password, header)),
            EncType::ChaCha20Poly1305 => AnyBlockCipher::ChaCha20Poly1305(
                ChaCha20Poly1305::parse_block_cipher(password, header),
            ),
            _ => AnyBlockCipher::AesGcmSiv(AesGcmSiv::parse_block_cipher(password, header)),
        }
    }

    /// The stream cipher for a file whose header is given.
    pub fn parse_stream_header(&self, password: &[u8], header: [u8; CYPTO_HEADER_SIZE]) -> (r:
        AnyStreamCipher)
        requires
            self.spec_kind() == CipherKind::Stream,
        ensures
            r.state() == CipherState::start(
                *self,
                password@,
                header@.take(nonce_size(*self) as int),
            ),
    {
        match self {
            EncType::AesCtr => AnyStreamCipher::AesCtr(
                AesCtr::parse_stream_cipher(password, header),
            ),
            _ => AnyStreamCipher::ChaCha20(ChaCha20::parse_stream_cipher(password, header)),
        }
    }
}

} // verus!
