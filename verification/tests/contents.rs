use whim_dav_proxy::crypto::{CryptoMeta, EncType, CYPTO_META_SIZE};
use whim_dav_proxy::service::cipher_engine::{
    CipherBox, CipherEngine, DecryptJob, EncryptJob, FlowStatus,
};

const ALL: [EncType; 5] = [
    EncType::AesCtr,
    EncType::ChaCha20,
    EncType::AesGcm,
    EncType::ChaCha20Poly1305,
    EncType::AesGcmSiv,
];

fn contents(n: usize) -> Vec<u8> {
    (0..n).map(|i| (i * 7 + i / 251) as u8).collect()
}

fn upload(t: EncType, plain: &[u8], piece: usize) -> Vec<u8> {
    let (cipher, mut file) = CipherBox::new_for_upload(t, b"pw");
    let mut job: EncryptJob = CipherEngine::for_type(t).encrypt_job(cipher);
    for chunk in plain.chunks(piece) {
        assert!(job.can_push(chunk.len()));
        file.extend(job.push(chunk).concat());
    }
    assert!(job.can_finish());
    file.extend(job.finish().concat());
    file
}

fn lengths(items: &[Vec<u8>]) -> Vec<usize> {
    items.iter().map(|item| item.len()).collect()
}

fn upload_items(t: EncType, plain: &[u8], piece: usize) -> (CipherBox, Vec<Vec<u8>>) {
    let (_, header) = CipherBox::new_for_upload(t, b"pw");
    let (_, cipher) = past_header(&header, b"pw");
    let mut job: EncryptJob = CipherEngine::for_type(t).encrypt_job(cipher);
    let mut items = Vec::new();
    for chunk in plain.chunks(piece) {
        items.extend(job.push(chunk));
    }
    items.extend(job.finish());
    let (_, cipher) = past_header(&header, b"pw");
    (cipher, items)
}

fn run(mut job: DecryptJob, body: &[u8], piece: usize) -> (Vec<u8>, DecryptJob) {
    let mut out = Vec::new();
    for chunk in body.chunks(piece) {
        if job.is_running() {
            assert!(job.can_push(chunk.len()));
        }
        out.extend(job.push(chunk).concat());
    }
    assert!(!job.is_running() || job.can_finish());
    out.extend(job.finish().concat());
    (out, job)
}

fn past_header(file: &[u8], password: &[u8]) -> (EncType, CipherBox) {
    let meta = CryptoMeta::parse_header(file).unwrap();
    let mut cipher = CipherBox::from_meta(&meta, password);
    cipher.skip_header();
    (meta.enc_type, cipher)
}

#[test]
fn downloads_give_back_uploads() {
    for t in ALL {
        for n in [0, 1, 100, 65535, 65536, 65537, 200000] {
            let plain = contents(n);
            let file = upload(t, &plain, 1000);
            let (found, cipher) = past_header(&file, b"pw");
            assert_eq!(found, t);
            assert_eq!(cipher.plaintext_len_of(file.len() as u64), Some(n as u64));
            let job = CipherEngine::for_type(t).decrypt_job(cipher, CYPTO_META_SIZE, 0, None);
            let (out, job) = run(job, &file, 777);
            assert_eq!(out, plain);
            assert!(matches!(job.status(), FlowStatus::Done));
        }
    }
}

#[test]
fn pieces_do_not_matter() {
    for t in ALL {
        let plain = contents(150000);
        let file = upload(t, &plain, 150000);
        for piece in [13, 64, 65, 65552, 100000, 1000000] {
            let (_, cipher) = past_header(&file, b"pw");
            let job = CipherEngine::for_type(t).decrypt_job(cipher, CYPTO_META_SIZE, 5, Some(70000));
            let (out, _) = run(job, &file, piece);
            assert_eq!(out, &plain[5..70005]);
        }
    }
}

#[test]
fn uploads_do_not_hold_the_contents() {
    for t in ALL {
        let plain = b"a text that must not be found in the file".to_vec();
        let file = upload(t, &plain, 10);
        assert!(!file.windows(10).any(|w| w == &plain[..10]));
    }
}

#[test]
fn parts_can_be_downloaded_alone() {
    for t in ALL {
        let plain = contents(200000);
        let file = upload(t, &plain, 5000);
        let meta = CryptoMeta::parse_header(&file).unwrap();
        for (start, want) in [(0u64, 1u64), (0, 200000), (65536, 10), (65530, 20), (131072, 1), (199999, 1)] {
            let mut cipher = CipherBox::from_meta(&meta, b"pw");
            let (from, skip) = cipher.map_plain_to_cipher(start);
            let to = cipher.cipher_end_for(start, want).min(file.len() as u64 - 1);
            cipher.seek_to_plain(start);
            let job = CipherEngine::for_type(t).range_decrypt_job(cipher, start, skip as u64, Some(want));
            let (out, job) = run(job, &file[from as usize..=to as usize], 3000);
            assert_eq!(out, &plain[start as usize..(start + want) as usize]);
            assert!(matches!(job.status(), FlowStatus::Done));
        }
    }
}

#[test]
fn parts_can_be_cut_out_of_the_whole() {
    for t in ALL {
        let plain = contents(100000);
        let file = upload(t, &plain, 100000);
        let meta = CryptoMeta::parse_header(&file).unwrap();
        let mut cipher = CipherBox::from_meta(&meta, b"pw").reparse(&meta, b"pw");
        cipher.skip_header();
        let job = CipherEngine::for_type(t).decrypt_job(cipher, CYPTO_META_SIZE, 70000, Some(20));
        let (out, _) = run(job, &file, 4096);
        assert_eq!(out, &plain[70000..70020]);
    }
}

#[test]
fn ends_of_parts() {
    let gcm = CipherBox::from_type_new(EncType::AesGcm, b"pw");
    assert_eq!(gcm.cipher_end_for(0, 0), 64 + 65552 - 1);
    assert_eq!(gcm.cipher_end_for(0, 65536), 64 + 65552 - 1);
    assert_eq!(gcm.cipher_end_for(0, 65537), 64 + 2 * 65552 - 1);
    let ctr = CipherBox::from_type_new(EncType::AesCtr, b"pw");
    assert_eq!(ctr.cipher_end_for(10, 5), 64 + 14);
}

#[test]
fn a_wrong_password_fails() {
    for t in [EncType::AesGcm, EncType::ChaCha20Poly1305, EncType::AesGcmSiv] {
        let file = upload(t, &contents(70000), 70000);
        let (_, cipher) = past_header(&file, b"other");
        let job = CipherEngine::for_type(t).decrypt_job(cipher, CYPTO_META_SIZE, 0, None);
        let (out, job) = run(job, &file, 10000);
        assert!(out.is_empty());
        match job.status() {
            FlowStatus::Failed(e) => assert_eq!(
                e.message(),
                "proxy error: GCM auth failed: encrypted data corrupted or wrong password"
            ),
            _ => panic!("the download must fail"),
        }
    }
}

#[test]
fn a_damaged_end_fails() {
    let t = EncType::AesGcm;
    let plain = contents(65536 + 10);
    let mut file = upload(t, &plain, 10000);
    let last = file.len() - 1;
    file[last] ^= 1;
    let (_, cipher) = past_header(&file, b"pw");
    let job = CipherEngine::for_type(t).decrypt_job(cipher, CYPTO_META_SIZE, 0, None);
    let (out, job) = run(job, &file, 10000);
    assert_eq!(out, &plain[..65536]);
    match job.status() {
        FlowStatus::Failed(e) => assert_eq!(
            e.message(),
            "proxy error: GCM auth failed: final block corrupted or wrong password"
        ),
        _ => panic!("the download must fail"),
    }
}

#[test]
fn nothing_wanted_ends_at_once() {
    let t = EncType::AesCtr;
    let file = upload(t, &contents(100), 100);
    let (_, cipher) = past_header(&file, b"pw");
    let mut job = CipherEngine::for_type(t).decrypt_job(cipher, CYPTO_META_SIZE, 0, Some(0));
    assert!(job.push(&file[..64]).is_empty());
    assert!(job.is_running());
    assert!(job.push(&file[64..]).is_empty());
    assert!(!job.is_running());
}

#[test]
fn blocks_end() {
    let mut cipher = CipherBox::from_type_new(EncType::AesGcm, b"pw");
    cipher.seek_to_plain((0xffff_fffe) * 65536);
    let job = CipherEngine::Block.decrypt_job(cipher, 0, 0, None);
    assert!(job.can_push(65551));
    assert!(!job.can_push(65552));
    let mut cipher = CipherBox::from_type_new(EncType::AesGcm, b"pw");
    cipher.seek_to_plain((0xffff_fffd) * 65536);
    let mut job = CipherEngine::Block.encrypt_job(cipher);
    assert!(job.can_push(65536));
    assert!(!job.can_push(2 * 65536));
    assert_eq!(lengths(&job.push(&[0; 65537])), [65552]);
    assert!(!job.can_finish());
}

#[test]
fn keystreams_end() {
    let mut cipher = CipherBox::from_type_new(EncType::ChaCha20, b"pw");
    cipher.skip_header();
    let start = 64 * 0xffff_ffffu64 - 64 - 64 - 10;
    let mut job = CipherEngine::Stream.range_decrypt_job(cipher, start, 0, None);
    assert!(job.can_push(10));
    assert!(!job.can_push(11));
    assert_eq!(lengths(&job.push(&[0; 10])), [10]);
    assert!(job.can_push(0));
    assert!(!job.can_push(1));
    assert!(job.push(&[]).is_empty());
}

#[test]
fn each_block_is_an_item() {
    for t in [EncType::AesGcm, EncType::ChaCha20Poly1305, EncType::AesGcmSiv] {
        let cases: [(usize, &[usize]); 7] = [
            (0, &[]),
            (1, &[17]),
            (65535, &[65551]),
            (65536, &[65552]),
            (65537, &[65552, 17]),
            (131072, &[65552, 65552]),
            (200000, &[65552, 65552, 65552, 3408]),
        ];
        for (n, expected) in cases {
            for piece in [999, 65536, 150000, 300000] {
                let plain = contents(n);
                let (cipher, items) = upload_items(t, &plain, piece);
                assert_eq!(lengths(&items), expected);
                assert_eq!(items.concat().len(), n + 16 * n.div_ceil(65536));
                let job = CipherEngine::for_type(t).decrypt_job(cipher, 0, 0, None);
                let (out, _) = run(job, &items.concat(), 70000);
                assert_eq!(out, plain);
            }
        }
    }
}

#[test]
fn items_do_not_depend_on_the_pieces() {
    let plain = contents(200000);
    for t in [EncType::AesGcm, EncType::ChaCha20Poly1305, EncType::AesGcmSiv] {
        let (_, header) = CipherBox::new_for_upload(t, b"pw");
        let items = |piece: usize| {
            let (_, cipher) = past_header(&header, b"pw");
            let mut job = CipherEngine::for_type(t).encrypt_job(cipher);
            let mut items = Vec::new();
            for chunk in plain.chunks(piece) {
                items.extend(job.push(chunk));
            }
            items.extend(job.finish());
            items
        };
        assert_eq!(items(1000), items(200000));
        assert_eq!(items(65536), items(199999));
    }
}

#[test]
fn a_stream_is_sent_as_it_comes() {
    for t in [EncType::AesCtr, EncType::ChaCha20] {
        let (cipher, _) = CipherBox::new_for_upload(t, b"pw");
        let mut job = CipherEngine::for_type(t).encrypt_job(cipher);
        assert_eq!(lengths(&job.push(&contents(70000))), [70000]);
        assert_eq!(lengths(&job.push(&[])), [0]);
        assert_eq!(lengths(&job.push(&contents(3))), [3]);
        assert!(job.finish().is_empty());
    }
}

#[test]
fn pieces_are_handed_on_from_the_window() {
    let plain = contents(1000);
    for t in [EncType::AesCtr, EncType::ChaCha20] {
        let file = upload(t, &plain, 1000);
        for (skip, want) in
            [(0, None), (250, None), (1500, None), (0, Some(300)), (250, Some(300)), (990, Some(20))]
        {
            let (_, cipher) = past_header(&file, b"pw");
            let mut job = CipherEngine::for_type(t).decrypt_job(cipher, 0, skip, want);
            let mut sent = Vec::new();
            for piece in file[CYPTO_META_SIZE..].chunks(100) {
                if !job.is_running() {
                    break;
                }
                let chunks = job.push(piece);
                assert!(chunks.iter().all(|chunk| !chunk.is_empty()));
                sent.extend(chunks.concat());
                assert_eq!(job.is_running(), !want.is_some_and(|w| sent.len() as u64 >= w));
            }
            let from = skip.min(1000);
            let to = want.map_or(1000, |w| (skip + w).min(1000));
            assert_eq!(sent, &plain[from as usize..to as usize]);
        }
    }
}

#[test]
fn each_frame_is_a_chunk() {
    let t = EncType::AesGcm;
    let file = upload(t, &contents(200000), 200000);
    let chunks = |skip, want| {
        let (_, cipher) = past_header(&file, b"pw");
        let mut job = CipherEngine::Block.decrypt_job(cipher, CYPTO_META_SIZE, skip, want);
        let first = lengths(&job.push(&file));
        (first, lengths(&job.finish()))
    };
    assert_eq!(chunks(0, None), (vec![65536, 65536, 65536], vec![3392]));
    assert_eq!(chunks(65536, None), (vec![65536, 65536], vec![3392]));
    assert_eq!(chunks(100, Some(65536)), (vec![65436, 100], vec![]));
    assert_eq!(chunks(0, Some(65536)), (vec![65536], vec![]));
    assert_eq!(chunks(200000, None), (vec![], vec![]));
}

#[test]
fn a_bad_frame_ends_the_download() {
    let t = EncType::ChaCha20Poly1305;
    let plain = contents(3 * 65536 + 10);
    let file = upload(t, &plain, 70000);
    let frame_error = "proxy error: GCM auth failed: encrypted data corrupted or wrong password";
    let last_error = "proxy error: GCM auth failed: final block corrupted or wrong password";
    for bad in 0..4 {
        let mut damaged = file.clone();
        damaged[CYPTO_META_SIZE + bad * 65552] ^= 1;
        for piece in [1000, 65552, 100000, 300000] {
            let (_, cipher) = past_header(&damaged, b"pw");
            let job = CipherEngine::Block.decrypt_job(cipher, CYPTO_META_SIZE, 0, None);
            let (out, job) = run(job, &damaged, piece);
            assert_eq!(out, &plain[..bad * 65536]);
            match job.status() {
                FlowStatus::Failed(e) => {
                    assert_eq!(e.message(), if bad < 3 { frame_error } else { last_error })
                }
                _ => panic!("the download must fail"),
            }
            let (_, cipher) = past_header(&damaged, b"pw");
            let want = Some(65536);
            let job = CipherEngine::Block.decrypt_job(cipher, CYPTO_META_SIZE, 65536, want);
            let (out, job) = run(job, &damaged, piece);
            if bad < 2 {
                assert!(out.is_empty());
                assert!(matches!(job.status(), FlowStatus::Failed(_)));
            } else {
                assert_eq!(out, &plain[65536..131072]);
                assert!(matches!(job.status(), FlowStatus::Done));
            }
        }
    }
}

#[test]
fn contents_are_emitted_until_nothing_is_wanted() {
    let begin = |skip, want| {
        let cipher = CipherBox::from_type_new(EncType::AesCtr, b"pw");
        CipherEngine::Stream.decrypt_job(cipher, 0, skip, want)
    };
    let mut job = begin(3, Some(4));
    let mut chunks = Vec::new();
    assert!(job.emit_plain(b"ab", &mut chunks));
    assert!(chunks.is_empty());
    assert!(job.emit_plain(b"cdef", &mut chunks));
    assert_eq!(chunks, [b"def"]);
    assert!(job.emit_plain(b"", &mut chunks));
    assert!(!job.emit_plain(b"ghi", &mut chunks));
    assert_eq!(chunks, [b"def".to_vec(), b"g".to_vec()]);
    assert!(!job.is_running());
    let mut job = begin(1, None);
    let mut chunks = Vec::new();
    assert!(job.emit_plain(b"a", &mut chunks));
    assert!(job.emit_plain(b"bc", &mut chunks));
    assert!(job.emit_plain(b"d", &mut chunks));
    assert_eq!(chunks, [b"bc".to_vec(), b"d".to_vec()]);
    let mut job = begin(0, Some(0));
    let mut chunks = Vec::new();
    assert!(!job.emit_plain(b"abc", &mut chunks));
    assert!(chunks.is_empty());
}
