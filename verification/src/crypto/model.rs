//! What the ciphers compute, over sequences of bytes.
use vstd::bytes::spec_u32_to_le_bytes;
use vstd::prelude::*;
use vstd::utf8::encode_utf8;

use crate::crypto::aes_ctr::aes256_ctr_keystream;
use crate::crypto::aes_gcm::{aes256_gcm_open, aes256_gcm_seal};
use crate::crypto::aes_gcm_siv::{aes256_gcm_siv_open, aes256_gcm_siv_seal};
use crate::crypto::chacha20::chacha20_keystream;
use crate::crypto::chacha20_poly1305::{chacha20_poly1305_open, chacha20_poly1305_seal};
use crate::crypto::secrets::{derived, sha256};
use crate::crypto::{CipherKind, EncType, CYPTO_HEADER_SIZE, CYPTO_META_SIZE};

verus! {

/// The length of a block before it is sealed.
pub const BLOCK_SIZE: usize = 65536;

/// How much longer a block is once it is sealed.
pub const TAG_SIZE: usize = 16;

/// The length of a sealed block: a block and its tag.
pub const FRAME_SIZE: usize = 65552;

/// The number of bytes of nonce that a file's header holds.
pub open spec fn nonce_size(t: EncType) -> nat {
    if t == EncType::ChaCha20 {
        12
    } else {
        16
    }
}

/// The bytes of a cipher in a header: its nonce, then zeros.
pub open spec fn header_bytes(nonce: Seq<u8>) -> Seq<u8> {
    nonce + Seq::new((CYPTO_HEADER_SIZE - nonce.len()) as nat, |i: int| 0u8)
}

/// The label under which an algorithm derives its key from a password.
pub open spec fn key_label(t: EncType) -> Seq<char> {
    match t {
        EncType::AesCtr => "aesctr-key-v1"@,
        EncType::ChaCha20 => "chacha20-key-v1"@,
        EncType::AesGcm => "aesgcm-key-v1"@,
        EncType::ChaCha20Poly1305 => "c20p1305-key-v1"@,
        EncType::AesGcmSiv => "aesgcmsiv-key-v1"@,
    }
}

/// One byte of the keystream of a stream cipher.
pub open spec fn keystream(t: EncType, key: Seq<u8>, iv: Seq<u8>, at: nat) -> u8 {
    if t == EncType::ChaCha20 {
        chacha20_keystream(key, iv, at)
    } else {
        aes256_ctr_keystream(key, iv, at)
    }
}

/// How many bytes of a keystream can be used.
pub open spec fn keystream_limit(t: EncType) -> nat {
    if t == EncType::ChaCha20 {
        64 * 0xffff_ffff
    } else {
        u64::MAX as nat
    }
}

/// A block sealed under a key and a nonce, if it is not too long for that.
pub open spec fn sealed(t: EncType, key: Seq<u8>, nonce: Seq<u8>, plain: Seq<u8>) -> Option<
    Seq<u8>,
> {
    match t {
        EncType::AesGcm => aes256_gcm_seal(key, nonce, plain),
        EncType::ChaCha20Poly1305 => chacha20_poly1305_seal(key, nonce, plain),
        _ => aes256_gcm_siv_seal(key, nonce, plain),
    }
}

/// What a sealed block holds, if it was sealed under this key and nonce.
pub open spec fn opened(t: EncType, key: Seq<u8>, nonce: Seq<u8>, frame: Seq<u8>) -> Option<
    Seq<u8>,
> {
    match t {
        EncType::AesGcm => aes256_gcm_open(key, nonce, frame),
        EncType::ChaCha20Poly1305 => chacha20_poly1305_open(key, nonce, frame),
        _ => aes256_gcm_siv_open(key, nonce, frame),
    }
}

/// The longest block that an algorithm seals.
pub open spec fn seal_limit(t: EncType) -> nat {
    if t == EncType::ChaCha20Poly1305 {
        64 * 0xffff_fffe
    } else {
        0x10_0000_0000
    }
}

/// Whether a block of this length brings ChaCha20-Poly1305 to the last block
/// of its keystream, at which it panics.
pub open spec fn exhausts(t: EncType, n: int) -> bool {
    t == EncType::ChaCha20Poly1305 && 64 * 0xffff_fffe < n < 64 * 0xffff_ffff
}

/// The nonce of a block: half of the file's nonce and the block's number.
pub open spec fn frame_nonce(nonce: Seq<u8>, number: u32) -> Seq<u8> {
    nonce.take(8) + spec_u32_to_le_bytes(number)
}

/// The bytes of an optional vector.
pub open spec fn opt_bytes(v: Option<Vec<u8>>) -> Option<Seq<u8>> {
    match v {
        Some(v) => Some(v@),
        None => None,
    }
}

/// A cipher at some point of its work on a file.
pub struct CipherState {
    pub enc_type: EncType,
    pub key: Seq<u8>,
    /// What a stream cipher draws its keystream with beside the key.
    pub iv: Seq<u8>,
    /// What the file's header holds.
    pub nonce: Seq<u8>,
    /// How many bytes (of a stream) or pieces (of a block cipher) have been
    /// worked on.
    pub at: nat,
}

impl CipherState {
    /// A cipher that has not begun.
    pub open spec fn start(t: EncType, password: Seq<u8>, nonce: Seq<u8>) -> CipherState {
        CipherState {
            enc_type: t,
            key: derived(key_label(t), password),
            iv: match t {
                EncType::AesCtr => derived("aesctr-iv-v1"@, password).take(16),
                EncType::ChaCha20 => nonce,
                _ => Seq::empty(),
            },
            nonce,
            at: 0,
        }
    }

    /// Whether the cipher works on blocks.
    pub open spec fn is_block(self) -> bool {
        self.enc_type.spec_kind() == CipherKind::Block
    }

    /// How much longer a piece gets when it is encrypted.
    pub open spec fn overhead(self) -> nat {
        if self.is_block() {
            TAG_SIZE as nat
        } else {
            0
        }
    }

    /// The cipher after it has worked on `n` bytes.
    pub open spec fn advanced(self, n: nat) -> CipherState {
        CipherState {
            at: if self.is_block() {
                self.at + 1
            } else {
                self.at + n
            },
            ..self
        }
    }

    /// The nonce of the next block.
    pub open spec fn next_nonce(self) -> Seq<u8> {
        frame_nonce(self.nonce, (self.at + 1) as u32)
    }

    /// A piece of a stream combined with the keystream from here on.
    pub open spec fn xored(self, data: Seq<u8>) -> Seq<u8> {
        Seq::new(
            data.len(),
            |i: int| data[i] ^ keystream(self.enc_type, self.key, self.iv, (self.at + i) as nat),
        )
    }

    /// What the next piece is encrypted to. A block that is too long to be
    /// sealed leaves nothing.
    pub open spec fn encrypted(self, data: Seq<u8>) -> Seq<u8> {
        if self.is_block() {
            match sealed(self.enc_type, self.key, self.next_nonce(), data) {
                Some(frame) => frame,
                None => Seq::empty(),
            }
        } else {
            self.xored(data)
        }
    }

    /// What the next piece is decrypted to. A block that was not sealed with
    /// this key and nonce leaves nothing.
    pub open spec fn decrypted(self, data: Seq<u8>) -> Seq<u8> {
        if self.is_block() {
            match opened(self.enc_type, self.key, self.next_nonce(), data) {
                Some(plain) => plain,
                None => Seq::empty(),
            }
        } else {
            self.xored(data)
        }
    }

    /// Whether a piece of `n` bytes can be encrypted so that it can be
    /// decrypted again.
    pub open spec fn seals(self, n: nat) -> bool {
        self.is_block() ==> n <= seal_limit(self.enc_type)
    }

    /// Whether the cipher can go on by a piece of `n` bytes to encrypt.
    pub open spec fn can_encrypt(self, n: nat) -> bool {
        if self.is_block() {
            self.at < u32::MAX && n + TAG_SIZE <= isize::MAX && !exhausts(self.enc_type, n as int)
        } else {
            self.at + n <= keystream_limit(self.enc_type)
        }
    }

    /// Whether the cipher can go on by a piece of `n` bytes to decrypt.
    pub open spec fn can_decrypt(self, n: nat) -> bool {
        if self.is_block() {
            self.at < u32::MAX && !exhausts(self.enc_type, n - TAG_SIZE)
        } else {
            self.at + n <= keystream_limit(self.enc_type)
        }
    }
}

/// The length of the contents of an encrypted file of the given length: what
/// follows the header, less the tags. There is none when the last block is
/// shorter than a tag.
pub open spec fn plaintext_len(t: EncType, cipher_len: u64) -> Option<u64> {
    let data = cipher_len - CYPTO_META_SIZE;
    if data < 0 {
        None
    } else if t.spec_kind() == CipherKind::Stream {
        Some(data as u64)
    } else {
        let full = data / (FRAME_SIZE as int);
        let rest = data % (FRAME_SIZE as int);
        if rest == 0 {
            Some((full * BLOCK_SIZE) as u64)
        } else if rest >= TAG_SIZE {
            Some((full * BLOCK_SIZE + rest - TAG_SIZE) as u64)
        } else {
            None
        }
    }
}

/// Where in an encrypted file the piece begins that holds byte `start` of the
/// contents.
pub open spec fn cipher_offset(t: EncType, start: nat) -> int {
    if t.spec_kind() == CipherKind::Stream {
        CYPTO_META_SIZE + start
    } else {
        CYPTO_META_SIZE + (start / BLOCK_SIZE as nat) * FRAME_SIZE
    }
}

/// How many bytes of that piece's contents stand before byte `start`.
pub open spec fn plain_skip(t: EncType, start: nat) -> int {
    if t.spec_kind() == CipherKind::Stream {
        0
    } else {
        (start % BLOCK_SIZE as nat) as int
    }
}

/// Combining a byte with the keystream twice gives it back.
pub proof fn lemma_xored_twice(s: CipherState, data: Seq<u8>)
    ensures
        s.xored(s.xored(data)) == data,
{
    assert forall|i: int| 0 <= i < data.len() implies s.xored(s.xored(data))[i] == data[i] by {
        let k = keystream(s.enc_type, s.key, s.iv, (s.at + i) as nat);
        let d = data[i];
        assert((d ^ k) ^ k == d) by (bit_vector);
    }
    assert(s.xored(s.xored(data)) =~= data);
}

/// The blocks of a file are sealed under different nonces.
pub proof fn law_block_nonces_differ(nonce: Seq<u8>, a: u32, b: u32)
    requires
        nonce.len() >= 8,
        a != b,
    ensures
        frame_nonce(nonce, a) != frame_nonce(nonce, b),
{
    vstd::bytes::lemma_auto_spec_u32_to_from_le_bytes();
    let bytes_a = spec_u32_to_le_bytes(a);
    let bytes_b = spec_u32_to_le_bytes(b);
    if frame_nonce(nonce, a) == frame_nonce(nonce, b) {
        assert(frame_nonce(nonce, a).skip(8) =~= bytes_a);
        assert(frame_nonce(nonce, b).skip(8) =~= bytes_b);
    }
}

/// The key of a file is the digest of a label, which each algorithm has for
/// itself, and the password. AES-CTR starts its keystream by another such digest,
/// ChaCha20 by the nonce of the file.
pub proof fn law_keys(t: EncType, password: Seq<u8>, nonce: Seq<u8>)
    ensures
        ({
            let s = CipherState::start(t, password, nonce);
            &&& s.enc_type == t && s.nonce == nonce && s.at == 0
            &&& t == EncType::AesCtr ==> s.key == sha256(encode_utf8("aesctr-key-v1"@) + password)
                && s.iv == sha256(encode_utf8("aesctr-iv-v1"@) + password).take(16)
            &&& t == EncType::ChaCha20 ==> s.key == sha256(
                encode_utf8("chacha20-key-v1"@) + password,
            ) && s.iv == nonce
            &&& t == EncType::AesGcm ==> s.key == sha256(encode_utf8("aesgcm-key-v1"@) + password)
            &&& t == EncType::ChaCha20Poly1305 ==> s.key == sha256(
                encode_utf8("c20p1305-key-v1"@) + password,
            )
            &&& t == EncType::AesGcmSiv ==> s.key == sha256(
                encode_utf8("aesgcmsiv-key-v1"@) + password,
            )
        }),
{
}

/// Each byte of a stream is combined with the byte of the keystream at its place,
/// both ways.
pub proof fn law_stream_bytes(s: CipherState, data: Seq<u8>, i: int)
    requires
        0 <= i < data.len(),
    ensures
        s.enc_type == EncType::AesCtr ==> s.encrypted(data)[i] == data[i] ^ aes256_ctr_keystream(
            s.key,
            s.iv,
            (s.at + i) as nat,
        ),
        s.enc_type == EncType::ChaCha20 ==> s.encrypted(data)[i] == data[i] ^ chacha20_keystream(
            s.key,
            s.iv,
            (s.at + i) as nat,
        ),
        s.enc_type == EncType::AesCtr || s.enc_type == EncType::ChaCha20 ==> s.encrypted(data)
            == s.decrypted(data) && s.encrypted(data).len() == data.len(),
{
}

/// A piece is sealed and opened under the key of the file and a nonce made of the
/// first half of the file's nonce and the number of the piece, which counts from 1
/// on. What cannot be sealed or opened leaves nothing.
pub proof fn law_sealed_pieces(s: CipherState, data: Seq<u8>)
    requires
        s.enc_type != EncType::AesCtr && s.enc_type != EncType::ChaCha20,
    ensures
        ({
            let nonce = s.nonce.take(8) + spec_u32_to_le_bytes((s.at + 1) as u32);
            let frame = match s.enc_type {
                EncType::AesGcm => aes256_gcm_seal(s.key, nonce, data),
                EncType::ChaCha20Poly1305 => chacha20_poly1305_seal(s.key, nonce, data),
                _ => aes256_gcm_siv_seal(s.key, nonce, data),
            };
            let plain = match s.enc_type {
                EncType::AesGcm => aes256_gcm_open(s.key, nonce, data),
                EncType::ChaCha20Poly1305 => chacha20_poly1305_open(s.key, nonce, data),
                _ => aes256_gcm_siv_open(s.key, nonce, data),
            };
            &&& frame matches Some(f) ==> s.encrypted(data) == f
            &&& frame is None ==> s.encrypted(data).len() == 0
            &&& plain matches Some(p) ==> s.decrypted(data) == p
            &&& plain is None ==> s.decrypted(data).len() == 0
        }),
{
}

/// A piece moves a block cipher on by one, and a stream cipher by its bytes.
pub proof fn law_advanced(s: CipherState, n: nat)
    ensures
        s.advanced(n) == (CipherState {
            at: if s.enc_type == EncType::AesCtr || s.enc_type == EncType::ChaCha20 {
                s.at + n
            } else {
                s.at + 1
            },
            ..s
        }),
{
}

/// ChaCha20 ends after 2^32 - 1 pieces of 64 bytes of its keystream, AES-CTR with
/// the numbers of 64 bits, and a block cipher with those of 32 bits.
pub proof fn law_cipher_limits(s: CipherState, n: nat)
    requires
        n < 0x1_0000_0000,
    ensures
        s.enc_type == EncType::ChaCha20 ==> (s.can_encrypt(n) <==> s.at + n <= 274877906880)
            && (s.can_decrypt(n) <==> s.at + n <= 274877906880),
        s.enc_type == EncType::AesCtr ==> (s.can_encrypt(n) <==> s.at + n
            <= 0xffff_ffff_ffff_ffff) && (s.can_decrypt(n) <==> s.at + n <= 0xffff_ffff_ffff_ffff),
        s.is_block() && n + 16 <= isize::MAX ==> (s.can_encrypt(n) <==> s.at < 0xffff_ffff),
        s.is_block() ==> (s.can_decrypt(n) <==> s.at < 0xffff_ffff),
{
}

/// The length that clients are told for an encrypted file: what is left of it
/// without the header and, with a block cipher, without a tag for each frame that
/// has begun. None is told for what is shorter than the header, or ends within a
/// tag.
pub proof fn law_plaintext_len(t: EncType, cipher_len: u64)
    ensures
        ({
            let block = t != EncType::AesCtr && t != EncType::ChaCha20;
            let data = cipher_len - 64;
            let begun = (data + 65551) / 65552;
            let last = data - (begun - 1) * 65552;
            &&& data < 0 ==> plaintext_len(t, cipher_len) is None
            &&& data >= 0 && !block ==> plaintext_len(t, cipher_len) == Some(data as u64)
            &&& data > 0 && block && last < 16 ==> plaintext_len(t, cipher_len) is None
            &&& data > 0 && block && last >= 16 ==> plaintext_len(t, cipher_len) == Some(
                (data - 16 * begun) as u64,
            )
            &&& data == 0 ==> plaintext_len(t, cipher_len) == Some(0u64)
        }),
{
    let data = cipher_len - 64;
    if data > 0 {
        let full = data / 65552;
        let rest = data % 65552;
        let begun = (data + 65551) / 65552;
        assert(begun == if rest == 0 {
            full
        } else {
            full + 1
        });
    }
}

} // verus!
