//! The header at the beginning of an encrypted file.
use vstd::prelude::*;
use vstd::utf8::encode_utf8;

use crate::crypto::model::{header_bytes, nonce_size};
use crate::crypto::{lemma_magic_bytes, EncType, CYPTO_HEADER_SIZE, CYPTO_META_SIZE};
use crate::text::bytes_eq;

verus! {

/// What the header of an encrypted file says.
pub struct CryptoMeta {
    pub enc_type: EncType,
    pub append_data: [u8; CYPTO_HEADER_SIZE],
}

/// The bytes of a header: the magic of the algorithm, then the bytes of its
/// cipher.
pub open spec fn meta_bytes(t: EncType, append_data: Seq<u8>) -> Seq<u8> {
    encode_utf8(t.magic()) + append_data
}

/// The algorithm whose magic the first eight bytes are.
pub open spec fn magic_at(data: Seq<u8>) -> Option<EncType> {
    let magic = data.take(8);
    if magic == encode_utf8(EncType::AesCtr.magic()) {
        Some(EncType::AesCtr)
    } else if magic == encode_utf8(EncType::ChaCha20.magic()) {
        Some(EncType::ChaCha20)
    } else if magic == encode_utf8(EncType::AesGcm.magic()) {
        Some(EncType::AesGcm)
    } else if magic == encode_utf8(EncType::ChaCha20Poly1305.magic()) {
        Some(EncType::ChaCha20Poly1305)
    } else if magic == encode_utf8(EncType::AesGcmSiv.magic()) {
        Some(EncType::AesGcmSiv)
    } else {
        None
    }
}

impl CryptoMeta {
    /// Reads the header at the beginning of a file. There is none when the
    /// file is too short, or begins with no magic that is known.
    pub fn parse_header(data: &[u8]) -> (r: Option<Self>)
        ensures
            match r {
                Some(meta) => data@.len() >= CYPTO_META_SIZE && magic_at(data@) == Some(
                    meta.enc_type,
                ) && meta.append_data@ == data@.subrange(8, CYPTO_META_SIZE as int),
                None => data@.len() < CYPTO_META_SIZE || magic_at(data@) is None,
            },
    {
        if data.len() < CYPTO_META_SIZE {
            return None;
        }
        let magic: &[u8] = vstd::slice::slice_subrange(data, 0, 8);
        assert(magic@ == data@.take(8));
        let enc_type: EncType = if bytes_eq(magic, EncType::AesCtr.magic_bytes()) {
            EncType::AesCtr
        } else if bytes_eq(magic, EncType::ChaCha20.magic_bytes()) {
            EncType::ChaCha20
        } else if bytes_eq(magic, EncType::AesGcm.magic_bytes()) {
            EncType::AesGcm
        } else if bytes_eq(magic, EncType::ChaCha20Poly1305.magic_bytes()) {
            EncType::ChaCha20Poly1305
        } else if bytes_eq(magic, EncType::AesGcmSiv.magic_bytes()) {
            EncType::AesGcmSiv
        } else {
            return None;
        };
        let mut append_data: [u8; CYPTO_HEADER_SIZE] = [0u8; CYPTO_HEADER_SIZE];
        let mut i: usize = 0;
        while i < CYPTO_HEADER_SIZE
            invariant
                i <= CYPTO_HEADER_SIZE,
                data@.len() >= CYPTO_META_SIZE,
                forall|k: int| 0 <= k < i ==> append_data@[k] == data@[8 + k],
            decreases CYPTO_HEADER_SIZE - i,
        {
            append_data[i] = data[8 + i];
            i += 1;
        }
        assert(append_data@ =~= data@.subrange(8, CYPTO_META_SIZE as int));
        Some(CryptoMeta { enc_type, append_data })
    }

    /// Writes the header.
    pub fn gen_header(&self) -> (r: [u8; CYPTO_META_SIZE])
        ensures
            r@ == meta_bytes(self.enc_type, self.append_data@),
    {
        let magic: &[u8] = self.enc_type.magic_bytes();
        let mut header: [u8; CYPTO_META_SIZE] = [0u8; CYPTO_META_SIZE];
        let mut i: usize = 0;
        while i < 8
            invariant
                i <= 8,
                magic@.len() == 8,
                forall|k: int| 0 <= k < i ==> header@[k] == magic@[k],
            decreases 8 - i,
        {
            header[i] = magic[i];
            i += 1;
        }
        let mut j: usize = 0;
        while j < CYPTO_HEADER_SIZE
            invariant
                j <= CYPTO_HEADER_SIZE,
                magic@.len() == 8,
                forall|k: int| 0 <= k < 8 ==> header@[k] == magic@[k],
                forall|k: int| 0 <= k < j ==> header@[8 + k] == self.append_data@[k],
            decreases CYPTO_HEADER_SIZE - j,
        {
            header[8 + j] = self.append_data[j];
            j += 1;
        }
        assert forall|k: int| 8 <= k < CYPTO_META_SIZE implies header@[k]
            == self.append_data@[k - 8] by {
            assert(header@[8 + (k - 8)] == self.append_data@[k - 8]);
        }
        assert(header@ =~= meta_bytes(self.enc_type, self.append_data@));
        header
    }
}

/// What is read of a header is what was written: reading any data that begins
/// with the bytes of a header gives its algorithm and the bytes of its cipher.
pub proof fn law_header_round_trip(t: EncType, append_data: Seq<u8>, rest: Seq<u8>)
    requires
        append_data.len() == CYPTO_HEADER_SIZE,
    ensures
        (meta_bytes(t, append_data) + rest).len() >= CYPTO_META_SIZE,
        magic_at(meta_bytes(t, append_data) + rest) == Some(t),
        (meta_bytes(t, append_data) + rest).subrange(8, CYPTO_META_SIZE as int) == append_data,
{
    lemma_magic_bytes(t);
    lemma_magic_bytes_differ();
    assert((meta_bytes(t, append_data) + rest).take(8) =~= encode_utf8(t.magic()));
    assert((meta_bytes(t, append_data) + rest).subrange(8, CYPTO_META_SIZE as int)
        =~= append_data);
}

/// The magics differ as bytes too.
proof fn lemma_magic_bytes_differ()
    ensures
        forall|t: EncType, u: EncType|
            #[trigger] encode_utf8(t.magic()) == #[trigger] encode_utf8(u.magic()) ==> t == u,
{
    assert forall|t: EncType, u: EncType| #[trigger]
        encode_utf8(t.magic()) == #[trigger] encode_utf8(u.magic()) implies t == u by {
        vstd::utf8::encode_utf8_decode_utf8(t.magic());
        vstd::utf8::encode_utf8_decode_utf8(u.magic());
        crate::crypto::law_magic_names_its_algorithm(t);
        crate::crypto::law_magic_names_its_algorithm(u);
    }
}

/// The nonce that a cipher puts into a header is the one that is read back.
pub proof fn law_header_keeps_nonce(t: EncType, nonce: Seq<u8>)
    requires
        nonce.len() == nonce_size(t),
    ensures
        header_bytes(nonce).len() == CYPTO_HEADER_SIZE,
        header_bytes(nonce).take(nonce_size(t) as int) == nonce,
{
    assert(header_bytes(nonce).take(nonce_size(t) as int) =~= nonce);
}

/// A file is taken for one of an algorithm exactly if it begins with the eight
/// bytes of that algorithm.
pub proof fn law_magic_at(data: Seq<u8>, t: EncType)
    ensures
        magic_at(data) == Some(t) <==> data.take(8) == encode_utf8(
            match t {
                EncType::AesCtr => "AES--CTR"@,
                EncType::ChaCha20 => "CHACHA20"@,
                EncType::AesGcm => "AES-GCM1"@,
                EncType::ChaCha20Poly1305 => "C20P1305"@,
                EncType::AesGcmSiv => "AES-SIV1"@,
            },
        ),
{
    lemma_magic_bytes_differ();
    assert(encode_utf8(EncType::AesCtr.magic()) == encode_utf8("AES--CTR"@));
    assert(encode_utf8(EncType::ChaCha20.magic()) == encode_utf8("CHACHA20"@));
    assert(encode_utf8(EncType::AesGcm.magic()) == encode_utf8("AES-GCM1"@));
    assert(encode_utf8(EncType::ChaCha20Poly1305.magic()) == encode_utf8("C20P1305"@));
    assert(encode_utf8(EncType::AesGcmSiv.magic()) == encode_utf8("AES-SIV1"@));
}

} // verus!
