use whim_dav_proxy::crypto::aes_ctr::AesCtr;
use whim_dav_proxy::crypto::aes_gcm::AesGcm;
use whim_dav_proxy::crypto::aes_gcm_siv::AesGcmSiv;
use whim_dav_proxy::crypto::any::{AnyBlockCipher, AnyStreamCipher};
use whim_dav_proxy::crypto::chacha20::ChaCha20;
use whim_dav_proxy::crypto::chacha20_poly1305::ChaCha20Poly1305;
use whim_dav_proxy::crypto::{
    BlockCipher, Cipher, CipherKind, CryptoMeta, EncType, StreamCipher, CYPTO_META_SIZE,
};

fn hex(bytes: &[u8]) -> String {
    bytes.iter().map(|b| format!("{:02x}", b)).collect()
}

fn nonce16() -> [u8; 16] {
    [0, 1, 2, 3, 4, 5, 6, 7, 8, 9, 10, 11, 12, 13, 14, 15]
}

#[test]
fn aes_ctr_vectors() {
    let mut c = AesCtr::with_nonce(b"secret", nonce16());
    assert_eq!(hex(&c.encrypt(b"hello, world")), "1d2d731ac40c8d830cd426fb");
    let mut c = AesCtr::with_nonce(b"secret", nonce16());
    c.decrypt(&[0; 64]);
    assert_eq!(hex(&c.encrypt(b"hello, world")), "8b83009b05098e14d3849dd4");
    let mut c = AesCtr::with_nonce(b"secret", nonce16());
    c.skip_bytes(64);
    assert_eq!(hex(&c.encrypt(b"hello,")), "8b83009b0509");
    assert_eq!(hex(&c.encrypt(b" world")), "8e14d3849dd4");
}

#[test]
fn chacha20_vectors() {
    let nonce = [0, 1, 2, 3, 4, 5, 6, 7, 8, 9, 10, 11];
    let mut c = ChaCha20::with_nonce(b"secret", nonce);
    assert_eq!(hex(&c.encrypt(b"hello, world")), "4726c55c7ee4475163fe026f");
    let mut c = ChaCha20::with_nonce(b"secret", nonce);
    c.skip_bytes(64);
    assert_eq!(hex(&c.encrypt(b"hello, world")), "94e856d8957fe527d2c1fd25");
}

#[test]
fn aes_gcm_vectors() {
    let mut c = AesGcm::with_nonce(b"secret", nonce16());
    assert_eq!(
        hex(&c.encrypt(b"hello, world")),
        "431459a177a83bffbdc189ee6421326fe582d9f9ae185f366e11b02d"
    );
    assert_eq!(
        hex(&c.encrypt(b"hello, world")),
        "c30a213c2789716063a07645c0dbbe3851048af9ab0ad999f899a6a0"
    );
}

#[test]
fn chacha20_poly1305_vectors() {
    let mut c = ChaCha20Poly1305::with_nonce(b"secret", nonce16());
    assert_eq!(
        hex(&c.encrypt(b"hello, world")),
        "fc8f05469d2dcbb7c95f86e266d80e144c43aa16119576b8e39cd1c6"
    );
    assert_eq!(
        hex(&c.encrypt(b"hello, world")),
        "8c6c50a59e7044ce219a456408491ba5f3b2500194bd54138b1241f3"
    );
}

#[test]
fn aes_gcm_siv_vectors() {
    let mut c = AesGcmSiv::with_nonce(b"secret", nonce16());
    assert_eq!(
        hex(&c.encrypt(b"hello, world")),
        "4dd32006be28b12c455846b325f7247b102cdae0972ceea4ca996818"
    );
    assert_eq!(
        hex(&c.encrypt(b"hello, world")),
        "61e3ea90a33f36b97a5acb633397a8826e8f47912f4ccfeff97b1c03"
    );
}

#[test]
fn blocks_come_back_in_order_only() {
    let mut seal = AesGcm::with_nonce(b"pw", nonce16());
    let first = seal.encrypt(b"first");
    let second = seal.encrypt(b"second");
    let mut open = AesGcm::with_nonce(b"pw", nonce16());
    assert_eq!(open.decrypt(&first), b"first");
    assert_eq!(open.decrypt(&second), b"second");
    let mut open = AesGcm::with_nonce(b"pw", nonce16());
    assert!(open.decrypt(&second).is_empty());
    let mut other = AesGcm::with_nonce(b"other", nonce16());
    assert!(other.decrypt(&first).is_empty());
    let mut open = AesGcm::with_nonce(b"pw", nonce16());
    open.seek_to_block(1);
    assert_eq!(open.position(), 1);
    assert_eq!(open.decrypt(&second), b"second");
}

#[test]
fn tampered_blocks_do_not_open() {
    for t in [EncType::AesGcm, EncType::ChaCha20Poly1305, EncType::AesGcmSiv] {
        let mut seal: AnyBlockCipher = t.new_block_cipher(b"pw");
        let header = seal.gen_header();
        let mut frame = seal.encrypt(b"contents");
        assert_eq!(frame.len(), 8 + 16);
        assert_eq!(t.parse_block_header(b"pw", header).decrypt(&frame), b"contents");
        frame[3] ^= 1;
        assert!(t.parse_block_header(b"pw", header).decrypt(&frame).is_empty());
        assert!(t.parse_block_header(b"pw", header).decrypt(&[1, 2, 3]).is_empty());
    }
}

#[test]
fn streams_come_back() {
    for t in [EncType::AesCtr, EncType::ChaCha20] {
        let mut one: AnyStreamCipher = t.new_stream_cipher(b"pw");
        let header = one.gen_header();
        let cipher = one.encrypt(b"contents");
        assert_ne!(cipher, b"contents");
        assert_eq!(t.parse_stream_header(b"pw", header).decrypt(&cipher), b"contents");
    }
}

#[test]
fn new_files_get_new_nonces() {
    let a = EncType::AesGcm.new_block_cipher(b"pw").gen_header();
    let b = EncType::AesGcm.new_block_cipher(b"pw").gen_header();
    assert_ne!(a, b);
    assert_eq!(&a[16..], &[0u8; 40]);
}

#[test]
fn names_of_algorithms() {
    assert_eq!(EncType::from_str("aesctr"), Some(EncType::AesCtr));
    assert_eq!(EncType::from_str("ChaCha20"), Some(EncType::ChaCha20));
    assert_eq!(EncType::from_str("AESGCM"), Some(EncType::AesGcm));
    assert_eq!(EncType::from_str("chacha20poly1305"), Some(EncType::ChaCha20Poly1305));
    assert_eq!(EncType::from_str("chacha20-poly1305"), Some(EncType::ChaCha20Poly1305));
    assert_eq!(EncType::from_str("aesgcmsiv"), Some(EncType::AesGcmSiv));
    assert_eq!(EncType::from_str("aes-gcm-siv"), Some(EncType::AesGcmSiv));
    assert_eq!(EncType::from_str("aes_gcm"), None);
    assert_eq!(EncType::from_str(""), None);
    assert_eq!(EncType::from_str("aesctr\u{df}"), None);
    assert_eq!(EncType::from_str("ae\u{17f}ctr"), Some(EncType::AesCtr));
}

#[test]
fn magics_name_their_algorithms() {
    for t in [
        EncType::AesCtr,
        EncType::ChaCha20,
        EncType::AesGcm,
        EncType::ChaCha20Poly1305,
        EncType::AesGcmSiv,
    ] {
        let magic = std::str::from_utf8(t.magic_bytes()).unwrap();
        assert_eq!(magic.len(), 8);
        assert_eq!(EncType::from_magic(magic), Some(t));
    }
    assert_eq!(EncType::AesCtr.magic_bytes(), b"AES--CTR");
    assert_eq!(EncType::from_magic("AES--CTX"), None);
    assert_eq!(EncType::AesCtr.kind(), CipherKind::Stream);
    assert_eq!(EncType::AesGcmSiv.kind(), CipherKind::Block);
}

#[test]
fn headers_come_back() {
    let mut append_data = [0u8; 56];
    append_data[0] = 7;
    append_data[55] = 9;
    let meta = CryptoMeta { enc_type: EncType::ChaCha20Poly1305, append_data };
    let mut file = meta.gen_header().to_vec();
    assert_eq!(file.len(), CYPTO_META_SIZE);
    assert_eq!(&file[..8], b"C20P1305");
    file.extend_from_slice(b"rest");
    let read = CryptoMeta::parse_header(&file).unwrap();
    assert_eq!(read.enc_type, EncType::ChaCha20Poly1305);
    assert_eq!(read.append_data, append_data);
    assert!(CryptoMeta::parse_header(&file[..63]).is_none());
    file[0] = b'X';
    assert!(CryptoMeta::parse_header(&file).is_none());
}

#[test]
fn lengths_and_places() {
    let gcm = EncType::AesGcm.new_block_cipher(b"pw");
    assert_eq!(gcm.plaintext_len_of(63), None);
    assert_eq!(gcm.plaintext_len_of(64), Some(0));
    assert_eq!(gcm.plaintext_len_of(64 + 15), None);
    assert_eq!(gcm.plaintext_len_of(64 + 16), Some(0));
    assert_eq!(gcm.plaintext_len_of(64 + 17), Some(1));
    assert_eq!(gcm.plaintext_len_of(64 + 65552), Some(65536));
    assert_eq!(gcm.plaintext_len_of(64 + 65552 + 20), Some(65540));
    assert_eq!(gcm.map_plain_to_cipher(65535), (64, 65535));
    assert_eq!(gcm.map_plain_to_cipher(65536), (64 + 65552, 0));
    assert_eq!(gcm.frame_size(), 65552);
    assert_eq!(gcm.plain_block_size(), 65536);
    let ctr = EncType::AesCtr.new_stream_cipher(b"pw");
    assert_eq!(ctr.plaintext_len_of(63), None);
    assert_eq!(ctr.plaintext_len_of(70), Some(6));
    assert_eq!(ctr.map_plain_to_cipher(10), (74, 0));
}
