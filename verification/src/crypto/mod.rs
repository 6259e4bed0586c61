//! The ciphers that protect file contents, and what they have in common.
pub mod aes_ctr;
pub mod aes_gcm;
pub mod aes_gcm_siv;
pub mod any;
pub mod chacha20;
pub mod chacha20_poly1305;
pub mod crypto_meta;
pub mod filename;
pub mod mix64;
pub mod model;
pub mod secrets;

pub use crypto_meta::CryptoMeta;
pub use filename::FileNameConverter;

use vstd::prelude::*;
use vstd::utf8::{encode_utf8, is_ascii_chars};

use crate::crypto::model::{cipher_offset, header_bytes, plain_skip, plaintext_len, CipherState};
use crate::text::str_eq;

verus! {

/// How many bytes stand before the encrypted data of a file.
pub const CYPTO_META_SIZE: usize = 64;

/// How many of those bytes belong to the cipher: all but the magic.
pub const CYPTO_HEADER_SIZE: usize = CYPTO_META_SIZE - 8;

/// The algorithm that a file is encrypted with.
#[derive(Debug, Clone, Copy, PartialEq, Eq, Structural)]
pub enum EncType {
    AesCtr,
    ChaCha20,
    AesGcm,
    ChaCha20Poly1305,
    AesGcmSiv,
}

/// Whether an algorithm works on a continuous stream of bytes or on blocks.
#[derive(Debug, Clone, Copy, PartialEq, Eq, Structural)]
pub enum CipherKind {
    Block,
    Stream,
}

/// What `str::to_uppercase` makes of a text that is not in ASCII.
pub uninterp spec fn str_uppercase(s: Seq<char>) -> Seq<char>;

/// A text with the letters `a` to `z` in upper case.
pub open spec fn ascii_uppercase(s: Seq<char>) -> Seq<char> {
    Seq::new(
        s.len(),
        |i: int|
            if 'a' <= s[i] <= 'z' {
                (s[i] as u32 - 32) as char
            } else {
                s[i]
            },
    )
}

/// A text in upper case.
pub open spec fn upper(s: Seq<char>) -> Seq<char> {
    if is_ascii_chars(s) {
        ascii_uppercase(s)
    } else {
        str_uppercase(s)
    }
}

/// `str::to_uppercase`: of a text in ASCII it changes the letters `a` to `z`
/// and nothing else. Of another text it makes what Unicode defines, which
/// depends on the text alone.
#[verifier::external_body]
fn uppercased(s: &str) -> (r: String)
    ensures
        r@ == if is_ascii_chars(s@) {
            ascii_uppercase(s@)
        } else {
            str_uppercase(s@)
        },
{
    s.to_uppercase()
}

impl EncType {
    /// The algorithm that a name in upper case stands for.
    pub open spec fn named(upper: Seq<char>) -> Option<EncType> {
        if upper == "AESCTR"@ {
            Some(EncType::AesCtr)
        } else if upper == "CHACHA20"@ {
            Some(EncType::ChaCha20)
        } else if upper == "AESGCM"@ {
            Some(EncType::AesGcm)
        } else if upper == "CHACHA20POLY1305"@ || upper == "CHACHA20-POLY1305"@ {
            Some(EncType::ChaCha20Poly1305)
        } else if upper == "AESGCMSIV"@ || upper == "AES-GCM-SIV"@ {
            Some(EncType::AesGcmSiv)
        } else {
            None
        }
    }

    /// The eight characters that a file of this kind begins with.
    pub open spec fn magic(self) -> Seq<char> {
        match self {
            EncType::AesCtr => "AES--CTR"@,
            EncType::ChaCha20 => "CHACHA20"@,
            EncType::AesGcm => "AES-GCM1"@,
            EncType::ChaCha20Poly1305 => "C20P1305"@,
            EncType::AesGcmSiv => "AES-SIV1"@,
        }
    }

    /// The algorithm whose magic is given.
    pub open spec fn of_magic(magic: Seq<char>) -> Option<EncType> {
        if magic == EncType::AesCtr.magic() {
            Some(EncType::AesCtr)
        } else if magic == EncType::ChaCha20.magic() {
            Some(EncType::ChaCha20)
        } else if magic == EncType::AesGcm.magic() {
            Some(EncType::AesGcm)
        } else if magic == EncType::ChaCha20Poly1305.magic() {
            Some(EncType::ChaCha20Poly1305)
        } else if magic == EncType::AesGcmSiv.magic() {
            Some(EncType::AesGcmSiv)
        } else {
            None
        }
    }

    /// Which of the two kinds the algorithm is of.
    pub open spec fn spec_kind(self) -> CipherKind {
        match self {
            EncType::AesCtr | EncType::ChaCha20 => CipherKind::Stream,
            _ => CipherKind::Block,
        }
    }

    /// The algorithm that a name in the configuration stands for; upper and
    /// lower case are the same.
    pub fn from_str(enc_str: &str) -> (r: Option<Self>)
        ensures
            r == EncType::named(upper(enc_str@)),
    {
        let upper: String = uppercased(enc_str);
        EncType::from_upper(&upper)
    }

    /// The algorithm that a name in upper case stands for.
    pub fn from_upper(upper: &str) -> (r: Option<Self>)
        ensures
            r == EncType::named(upper@),
    {
        if str_eq(upper, "AESCTR") {
            Some(EncType::AesCtr)
        } else if str_eq(upper, "CHACHA20") {
            Some(EncType::ChaCha20)
        } else if str_eq(upper, "AESGCM") {
            Some(EncType::AesGcm)
        } else if str_eq(upper, "CHACHA20POLY1305") || str_eq(upper, "CHACHA20-POLY1305") {
            Some(EncType::ChaCha20Poly1305)
        } else if str_eq(upper, "AESGCMSIV") || str_eq(upper, "AES-GCM-SIV") {
            Some(EncType::AesGcmSiv)
        } else {
            None
        }
    }

    /// The eight bytes that a file of this kind begins with.
    pub fn magic_bytes(&self) -> (r: &'static [u8])
        ensures
            r@ == encode_utf8(self.magic()),
            r@.len() == 8,
    {
        proof {
            lemma_magic_bytes(*self);
        }
        match self {
            EncType::AesCtr => "AES--CTR".as_bytes(),
            EncType::ChaCha20 => "CHACHA20".as_bytes(),
            EncType::AesGcm => "AES-GCM1".as_bytes(),
            EncType::ChaCha20Poly1305 => "C20P1305".as_bytes(),
            EncType::AesGcmSiv => "AES-SIV1".as_bytes(),
        }
    }

    /// The algorithm whose magic is given.
    pub fn from_magic(magic: &str) -> (r: Option<Self>)
        ensures
            r == EncType::of_magic(magic@),
    {
        if str_eq(magic, "AES--CTR") {
            Some(EncType::AesCtr)
        } else if str_eq(magic, "CHACHA20") {
            Some(EncType::ChaCha20)
        } else if str_eq(magic, "AES-GCM1") {
            Some(EncType::AesGcm)
        } else if str_eq(magic, "C20P1305") {
            Some(EncType::ChaCha20Poly1305)
        } else if str_eq(magic, "AES-SIV1") {
            Some(EncType::AesGcmSiv)
        } else {
            None
        }
    }

    /// Which of the two kinds the algorithm is of.
    pub fn kind(&self) -> (r: CipherKind)
        ensures
            r == self.spec_kind(),
    {
        match self {
            EncType::AesGcm | EncType::ChaCha20Poly1305 | EncType::AesGcmSiv => CipherKind::Block,
            EncType::AesCtr | EncType::ChaCha20 => CipherKind::Stream,
        }
    }
}

/// A magic is eight ASCII characters, so it takes eight bytes.
pub proof fn lemma_magic_bytes(t: EncType)
    ensures
        is_ascii_chars(t.magic()),
        encode_utf8(t.magic()).len() == 8,
{
    reveal_strlit("AES--CTR");
    reveal_strlit("CHACHA20");
    reveal_strlit("AES-GCM1");
    reveal_strlit("C20P1305");
    reveal_strlit("AES-SIV1");
    vstd::utf8::is_ascii_chars_encode_utf8(t.magic());
}

/// The five magics differ from each other, so each names its own algorithm.
pub proof fn law_magic_names_its_algorithm(t: EncType)
    ensures
        EncType::of_magic(t.magic()) == Some(t),
{
    reveal_strlit("AES--CTR");
    reveal_strlit("CHACHA20");
    reveal_strlit("AES-GCM1");
    reveal_strlit("C20P1305");
    reveal_strlit("AES-SIV1");
    assert("AES--CTR"@[0] != "CHACHA20"@[0]);
    assert("AES--CTR"@[4] != "AES-GCM1"@[4]);
    assert("AES--CTR"@[0] != "C20P1305"@[0]);
    assert("AES--CTR"@[4] != "AES-SIV1"@[4]);
    assert("CHACHA20"@[0] != "AES-GCM1"@[0]);
    assert("CHACHA20"@[1] != "C20P1305"@[1]);
    assert("CHACHA20"@[0] != "AES-SIV1"@[0]);
    assert("AES-GCM1"@[0] != "C20P1305"@[0]);
    assert("AES-GCM1"@[4] != "AES-SIV1"@[4]);
    assert("C20P1305"@[0] != "AES-SIV1"@[0]);
}

/// Which algorithms work on a stream and which on blocks, and which magics and
/// names they have.
pub proof fn law_algorithms(s: Seq<char>)
    ensures
        EncType::AesCtr.spec_kind() == CipherKind::Stream,
        EncType::ChaCha20.spec_kind() == CipherKind::Stream,
        EncType::AesGcm.spec_kind() == CipherKind::Block,
        EncType::ChaCha20Poly1305.spec_kind() == CipherKind::Block,
        EncType::AesGcmSiv.spec_kind() == CipherKind::Block,
        EncType::named(s) == Some(EncType::AesCtr) <==> s == "AESCTR"@,
        EncType::named(s) == Some(EncType::ChaCha20) <==> s == "CHACHA20"@,
        EncType::named(s) == Some(EncType::AesGcm) <==> s == "AESGCM"@,
        EncType::named(s) == Some(EncType::ChaCha20Poly1305) <==> s == "CHACHA20POLY1305"@ || s
            == "CHACHA20-POLY1305"@,
        EncType::named(s) == Some(EncType::AesGcmSiv) <==> s == "AESGCMSIV"@ || s
            == "AES-GCM-SIV"@,
        EncType::of_magic(s) == Some(EncType::AesCtr) <==> s == "AES--CTR"@,
        EncType::of_magic(s) == Some(EncType::ChaCha20) <==> s == "CHACHA20"@,
        EncType::of_magic(s) == Some(EncType::AesGcm) <==> s == "AES-GCM1"@,
        EncType::of_magic(s) == Some(EncType::ChaCha20Poly1305) <==> s == "C20P1305"@,
        EncType::of_magic(s) == Some(EncType::AesGcmSiv) <==> s == "AES-SIV1"@,
{
    reveal_strlit("AESCTR");
    reveal_strlit("CHACHA20");
    reveal_strlit("AESGCM");
    reveal_strlit("CHACHA20POLY1305");
    reveal_strlit("CHACHA20-POLY1305");
    reveal_strlit("AESGCMSIV");
    reveal_strlit("AES-GCM-SIV");
    assert("AESCTR"@[3] != "AESGCM"@[3]);
    assert("AESCTR"@.len() == 6 && "CHACHA20"@.len() == 8 && "AESGCM"@.len() == 6);
    assert("CHACHA20POLY1305"@.len() == 16 && "CHACHA20-POLY1305"@.len() == 17);
    assert("AESGCMSIV"@.len() == 9 && "AES-GCM-SIV"@.len() == 11);
    law_magic_names_its_algorithm(EncType::AesCtr);
    law_magic_names_its_algorithm(EncType::ChaCha20);
    law_magic_names_its_algorithm(EncType::AesGcm);
    law_magic_names_its_algorithm(EncType::ChaCha20Poly1305);
    law_magic_names_its_algorithm(EncType::AesGcmSiv);
}

/// Upper and lower case in the name of an algorithm are the same.
pub proof fn law_case_does_not_matter(a: Seq<char>, b: Seq<char>)
    requires
        is_ascii_chars(a) && is_ascii_chars(b),
        a.len() == b.len(),
        forall|i: int|
            0 <= i < a.len() ==> #[trigger] a[i] == b[i] || ('a' <= a[i] <= 'z' && b[i] as int
                == a[i] as int - 32) || ('a' <= b[i] <= 'z' && a[i] as int == b[i] as int - 32),
    ensures
        EncType::named(upper(a)) == EncType::named(upper(b)),
{
    assert forall|i: int| 0 <= i < a.len() implies ascii_uppercase(a)[i] == ascii_uppercase(
        b,
    )[i] by {
        assert(a[i] == a[i]);
    }
    assert(ascii_uppercase(a) =~= ascii_uppercase(b));
}

/// A cipher at some point of its work on a file.
pub trait Cipher: Send {
    /// The key, the nonce and how far the cipher has come.
    spec fn state(&self) -> CipherState;

    /// What the cipher puts into the header of a file.
    fn gen_header(&self) -> (r: [u8; CYPTO_HEADER_SIZE])
        ensures
            r@ == header_bytes(self.state().nonce),
    ;

    /// Encrypts the next piece of a file. What comes out decrypts, from the
    /// same point, to what went in.
    fn encrypt(&mut self, data: &[u8]) -> (r: Vec<u8>)
        requires
            old(self).state().can_encrypt(data@.len()),
        ensures
            final(self).state() == old(self).state().advanced(data@.len()),
            r@ == old(self).state().encrypted(data@),
            old(self).state().seals(data@.len()) ==> r@.len() == data@.len()
                + old(self).state().overhead() && old(self).state().decrypted(r@) == data@,
    ;

    /// Decrypts the next piece of a file.
    fn decrypt(&mut self, data: &[u8]) -> (r: Vec<u8>)
        requires
            old(self).state().can_decrypt(data@.len()),
        ensures
            final(self).state() == old(self).state().advanced(data@.len()),
            r@ == old(self).state().decrypted(data@),
            r@.len() > 0 ==> r@.len() + old(self).state().overhead() == data@.len(),
    ;

    /// How long the contents of an encrypted file of the given length are.
    fn plaintext_len_of(&self, cipher_len: u64) -> (r: Option<u64>)
        ensures
            r == plaintext_len(self.state().enc_type, cipher_len),
    ;

    /// Where in an encrypted file the piece begins that holds a byte of the
    /// contents, and how many bytes of that piece stand before it.
    fn map_plain_to_cipher(&self, plain_start: u64) -> (r: (u64, usize))
        requires
            cipher_offset(self.state().enc_type, plain_start as nat) <= u64::MAX,
        ensures
            r.0 == cipher_offset(self.state().enc_type, plain_start as nat),
            r.1 == plain_skip(self.state().enc_type, plain_start as nat),
    ;
}

/// A cipher that seals a file block by block.
pub trait BlockCipher: Cipher {
    /// The cipher is of the kind that it claims to be.
    proof fn lemma_is_block(&self)
        ensures
            self.state().enc_type.spec_kind() == CipherKind::Block,
            self.state().at <= u32::MAX,
    ;

    /// A cipher for a new file, with a nonce drawn at random.
    fn new_block_cipher(password: &[u8]) -> (r: Self)
        where Self: Sized,
        ensures
            r.state().nonce.len() == 16,
            r.state() == CipherState::start(r.state().enc_type, password@, r.state().nonce),
    ;

    /// The cipher for a file whose header is given.
    fn parse_block_cipher(password: &[u8], header: [u8; CYPTO_HEADER_SIZE]) -> (r: Self)
        where Self: Sized,
        ensures
            r.state() == CipherState::start(r.state().enc_type, password@, header@.take(16)),
    ;

    /// How many pieces have been worked on.
    fn position(&self) -> (r: u32)
        ensures
            r == self.state().at,
    ;

    /// The length of a sealed block.
    fn frame_size(&self) -> (r: usize)
        ensures
            r == model::FRAME_SIZE,
    ;

    /// The length of a block before it is sealed.
    fn plain_block_size(&self) -> (r: usize)
        ensures
            r == model::BLOCK_SIZE,
    ;

    /// Goes to the point at which the given number of pieces has been worked
    /// on. The number is kept in 32 bits.
    fn seek_to_block(&mut self, block: u64)
        ensures
            final(self).state() == (CipherState { at: (block as u32) as nat, ..old(self).state() }),
    ;
}

/// A cipher that works on a file byte by byte.
pub trait StreamCipher: Cipher {
    /// The cipher is of the kind that it claims to be.
    proof fn lemma_is_stream(&self)
        ensures
            self.state().enc_type.spec_kind() == CipherKind::Stream,
            self.state().at <= u64::MAX,
    ;

    /// A cipher for a new file, with a nonce drawn at random.
    fn new_stream_cipher(password: &[u8]) -> (r: Self)
        where Self: Sized,
        ensures
            r.state().nonce.len() == model::nonce_size(r.state().enc_type),
            r.state() == CipherState::start(r.state().enc_type, password@, r.state().nonce),
    ;

    /// The cipher for a file whose header is given.
    fn parse_stream_cipher(password: &[u8], header: [u8; CYPTO_HEADER_SIZE]) -> (r: Self)
        where Self: Sized,
        ensures
            r.state() == CipherState::start(
                r.state().enc_type,
                password@,
                header@.take(model::nonce_size(r.state().enc_type) as int),
            ),
    ;

    /// How many bytes have been worked on.
    fn position(&self) -> (r: u64)
        ensures
            r == self.state().at,
    ;

    /// How many bytes can be worked on.
    fn limit(&self) -> (r: u64)
        ensures
            r == model::keystream_limit(self.state().enc_type),
    ;

    /// Goes on by `n` bytes without working on any.
    fn skip_bytes(&mut self, n: u64)
        requires
            old(self).state().can_decrypt(n as nat),
        ensures
            final(self).state() == old(self).state().advanced(n as nat),
    ;
}

} // verus!
