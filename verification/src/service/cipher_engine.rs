//! File contents on their way through a cipher, piece by piece.
use vstd::bytes::spec_u32_to_le_bytes;
use vstd::prelude::*;
use vstd::utf8::encode_utf8;

use crate::crypto::aes_ctr::aes256_ctr_keystream;
use crate::crypto::aes_gcm::aes256_gcm_open;
use crate::crypto::aes_gcm_siv::aes256_gcm_siv_open;
use crate::crypto::any::{AnyBlockCipher, AnyStreamCipher};
use crate::crypto::chacha20::chacha20_keystream;
use crate::crypto::chacha20_poly1305::chacha20_poly1305_open;
use crate::crypto::crypto_meta::{
    law_header_keeps_nonce, law_header_round_trip, magic_at, meta_bytes, CryptoMeta,
};
use crate::crypto::model::{
    cipher_offset, header_bytes, keystream_limit, law_keys, law_sealed_pieces, nonce_size,
    plain_skip, plaintext_len, CipherState, BLOCK_SIZE, FRAME_SIZE,
};
use crate::crypto::secrets::sha256;
use crate::crypto::{Cipher, CipherKind, EncType, CYPTO_HEADER_SIZE, CYPTO_META_SIZE};
use crate::errors::ProxyError;
use crate::service::flow::{
    after, chunk_of, cipher_end, frames_open, full_blocks, full_frames, is_encryption, item_sizes,
    law_download_chunks, law_download_of_upload, law_length_of_upload, law_range_download, least,
    lemma_encryption_len, lemma_encryption_tail, lemma_frames_and_rest, lemma_frames_join, lemma_full_frames, lemma_room,
    lemma_worked_len, none_empty, range_cipher, rest_of, seal_blocks, sealed_len, window, DownloadView,
    FlowView, UploadView,
};

verus! {

/// A cipher of one of the two kinds.
pub enum CipherBox {
    Block(AnyBlockCipher),
    Stream(AnyStreamCipher),
}

/// A cipher that has passed the header of a file.
pub open spec fn past_header(s: CipherState) -> CipherState {
    if s.is_block() {
        after(s, 1)
    } else {
        after(s, CYPTO_META_SIZE as nat)
    }
}

impl CipherBox {
    /// The key, the nonce and how far the cipher has come.
    pub open spec fn state(&self) -> CipherState {
        match self {
            CipherBox::Block(c) => c.state(),
            CipherBox::Stream(c) => c.state(),
        }
    }

    /// The kind of the algorithm is that of the cipher.
    pub proof fn lemma_kind(&self)
        ensures
            self.state().is_block() <==> self is Block,
            self is Block ==> self.state().at <= u32::MAX,
            self is Stream ==> self.state().at <= u64::MAX,
    {
        match self {
            CipherBox::Block(c) => c.lemma_is_block(),
            CipherBox::Stream(c) => c.lemma_is_stream(),
        }
    }

    /// Decrypts the next piece of a file.
    fn decrypt_piece(&mut self, data: &[u8]) -> (r: Vec<u8>)
        requires
            old(self).state().can_decrypt(data@.len()),
        ensures
            final(self).state() == old(self).state().advanced(data@.len()),
            r@ == old(self).state().decrypted(data@),
            *old(self) is Block <==> *final(self) is Block,
    {
        match self {
            CipherBox::Block(c) => c.decrypt(data),
            CipherBox::Stream(c) => c.decrypt(data),
        }
    }

    /// The cipher for a file whose header is given.
    pub fn from_meta(meta: &CryptoMeta, password: &[u8]) -> (r: Self)
        ensures
            r.state() == CipherState::start(
                meta.enc_type,
                password@,
                meta.append_data@.take(nonce_size(meta.enc_type) as int),
            ),
    {
        match meta.enc_type.kind() {
            CipherKind::Block => CipherBox::Block(
                meta.enc_type.parse_block_header(password, meta.append_data),
            ),
            CipherKind::Stream => CipherBox::Stream(
                meta.enc_type.parse_stream_header(password, meta.append_data),
            ),
        }
    }

    /// Passes the header of a file: a piece of its own to a block cipher, 64
    /// bytes of the stream to a stream cipher.
    pub fn skip_header(&mut self)
        requires
            old(self).state().can_decrypt(CYPTO_META_SIZE as nat),
        ensures
            final(self).state() == past_header(old(self).state()),
    {
        let zeros: Vec<u8> = zero_bytes(CYPTO_META_SIZE);
        self.decrypt_piece(&zeros);
    }

    /// Moves a block cipher to the block that holds a byte of the contents. Its
    /// number is kept in 32 bits. A stream cipher stays where it is.
    pub fn seek_to_plain(&mut self, start_plain: u64)
        ensures
            final(self).state() == if old(self).state().is_block() {
                (CipherState {
                    at: ((start_plain / BLOCK_SIZE as u64 + 1) as u32) as nat,
                    ..old(self).state()
                })
            } else {
                old(self).state()
            },
    {
        proof {
            self.lemma_kind();
        }
        if let CipherBox::Block(c) = self {
            let bs: u64 = c.plain_block_size() as u64;
            assert(start_plain / bs < 0x1_0000_0000_0000) by (nonlinear_arith)
                requires
                    bs == 65536,
            ;
            c.seek_to_block(start_plain / bs + 1);
        }
    }

    /// A cipher of the same kind for a file whose header is given.
    pub fn reparse(&self, meta: &CryptoMeta, password: &[u8]) -> (r: Self)
        requires
            meta.enc_type.spec_kind() == self.state().enc_type.spec_kind(),
        ensures
            r.state() == CipherState::start(
                meta.enc_type,
                password@,
                meta.append_data@.take(nonce_size(meta.enc_type) as int),
            ),
    {
        proof {
            self.lemma_kind();
        }
        match self {
            CipherBox::Block(_) => CipherBox::Block(
                meta.enc_type.parse_block_header(password, meta.append_data),
            ),
            CipherBox::Stream(_) => CipherBox::Stream(
                meta.enc_type.parse_stream_header(password, meta.append_data),
            ),
        }
    }

    /// How long the contents of an encrypted file of the given length are.
    pub fn plaintext_len_of(&self, cipher_len: u64) -> (r: Option<u64>)
        ensures
            r == plaintext_len(self.state().enc_type, cipher_len),
    {
        match self {
            CipherBox::Block(c) => c.plaintext_len_of(cipher_len),
            CipherBox::Stream(c) => c.plaintext_len_of(cipher_len),
        }
    }

    /// Where in an encrypted file the piece begins that holds a byte of the
    /// contents, and how many bytes of that piece stand before it.
    pub fn map_plain_to_cipher(&self, start_plain: u64) -> (r: (u64, usize))
        requires
            cipher_offset(self.state().enc_type, start_plain as nat) <= u64::MAX,
        ensures
            r.0 == cipher_offset(self.state().enc_type, start_plain as nat),
            r.1 == plain_skip(self.state().enc_type, start_plain as nat),
    {
        match self {
            CipherBox::Block(c) => c.map_plain_to_cipher(start_plain),
            CipherBox::Stream(c) => c.map_plain_to_cipher(start_plain),
        }
    }

    /// The last byte of an encrypted file that is needed for `want` bytes of
    /// the contents from `start_plain` on.
    pub fn cipher_end_for(&self, start_plain: u64, want: u64) -> (r: u64)
        requires
            cipher_end(self.state().enc_type, start_plain as nat, want as nat) < u64::MAX,
        ensures
            r == cipher_end(self.state().enc_type, start_plain as nat, want as nat),
    {
        proof {
            self.lemma_kind();
        }
        match self {
            CipherBox::Block(c) => {
                let bs: u64 = c.plain_block_size() as u64;
                let fs: u64 = c.frame_size() as u64;
                let end: u64 = start_plain + want.saturating_sub(1);
                let last_block: u64 = end / bs;
                CYPTO_META_SIZE as u64 + (last_block + 1) * fs - 1
            },
            CipherBox::Stream(_) => CYPTO_META_SIZE as u64 + start_plain + want - 1,
        }
    }

    /// A cipher for a new file, past the header, and the header.
    pub fn new_for_upload(enc_type: EncType, password: &[u8]) -> (r: (Self, Vec<u8>))
        ensures
            ({
                let nonce = r.0.state().nonce;
                &&& nonce.len() == nonce_size(enc_type)
                &&& r.0.state() == past_header(CipherState::start(enc_type, password@, nonce))
                &&& r.1@ == meta_bytes(enc_type, header_bytes(nonce))
            }),
    {
        let mut boxed: CipherBox = CipherBox::from_type_new(enc_type, password);
        let append_data: [u8; CYPTO_HEADER_SIZE] = match &boxed {
            CipherBox::Block(c) => c.gen_header(),
            CipherBox::Stream(c) => c.gen_header(),
        };
        let meta: CryptoMeta = CryptoMeta { enc_type, append_data };
        let bytes: [u8; CYPTO_META_SIZE] = meta.gen_header();
        let mut header: Vec<u8> = Vec::new();
        header.extend_from_slice(&bytes);
        assert(header@ =~= bytes@);
        boxed.skip_header();
        (boxed, header)
    }

    /// A cipher for a new file, with a nonce drawn at random.
    pub fn from_type_new(enc_type: EncType, password: &[u8]) -> (r: Self)
        ensures
            r.state().nonce.len() == nonce_size(enc_type),
            r.state() == CipherState::start(enc_type, password@, r.state().nonce),
    {
        match enc_type.kind() {
            CipherKind::Block => CipherBox::Block(enc_type.new_block_cipher(password)),
            CipherKind::Stream => CipherBox::Stream(enc_type.new_stream_cipher(password)),
        }
    }
}

/// How a download stands.
pub enum FlowStatus {
    /// More of the response is wanted.
    Running,
    /// Everything that was asked for has been handed on.
    Done,
    /// The response cannot be decrypted.
    Failed(ProxyError),
}

impl View for FlowStatus {
    type V = FlowView;

    open spec fn view(&self) -> FlowView {
        match self {
            FlowStatus::Running => FlowView::Running,
            FlowStatus::Done => FlowView::Done,
            FlowStatus::Failed(e) => FlowView::Failed(e@),
        }
    }
}

/// The contents of a file on their way to the upstream server.
pub struct EncryptJob {
    cipher: CipherBox,
    buf: Vec<u8>,
    start: Ghost<CipherState>,
    plain: Ghost<Seq<u8>>,
    items: Ghost<Seq<Seq<u8>>>,
}

/// The bytes of some items.
pub open spec fn bytes_of(items: Seq<Vec<u8>>) -> Seq<Seq<u8>> {
    items.map_values(|item: Vec<u8>| item@)
}

impl View for EncryptJob {
    type V = UploadView;

    closed spec fn view(&self) -> UploadView {
        UploadView { cipher: self.cipher.state(), buf: self.buf@ }
    }
}

impl EncryptJob {
    /// The cipher with which the contents begin.
    pub closed spec fn start(&self) -> CipherState {
        self.start@
    }

    /// The contents that have been pushed.
    pub closed spec fn plain(&self) -> Seq<u8> {
        self.plain@
    }

    /// The items that have been sent of the contents.
    pub closed spec fn items(&self) -> Seq<Seq<u8>> {
        self.items@
    }

    /// Whether what has been sent are the full blocks of the contents, an item
    /// for each, which can be opened, and the rest of the contents is kept; of a
    /// stream everything has been sent.
    pub closed spec fn wf(&self) -> bool {
        let s = self.start@;
        let plain = self.plain@;
        if s.is_block() {
            &&& self.cipher.state() == after(s, full_blocks(plain.len()))
            &&& self.buf@ == rest_of(plain)
            &&& self.items@.len() == full_blocks(plain.len())
            &&& full_frames(self.items@)
            &&& frames_open(s, plain, self.items@.flatten())
        } else {
            &&& self.cipher.state() == after(s, plain.len())
            &&& self.buf@.len() == 0
            &&& self.items@.flatten() == s.encrypted(plain)
        }
    }

    /// An upload that begins with a cipher.
    pub fn new(cipher: CipherBox) -> (r: Self)
        ensures
            r.wf(),
            r@ == (UploadView { cipher: cipher.state(), buf: Seq::empty() }),
            r.start() == cipher.state(),
            r.plain() == Seq::<u8>::empty(),
            r.items() == Seq::<Seq<u8>>::empty(),
    {
        let ghost s = cipher.state();
        let buf: Vec<u8> = Vec::new();
        proof {
            assert(after(s, 0) == s);
            assert(rest_of(Seq::empty()) =~= Seq::<u8>::empty());
            assert(s.is_block() || s.encrypted(Seq::empty()) =~= Seq::empty());
            assert(buf@ =~= Seq::empty());
        }
        EncryptJob {
            cipher,
            buf,
            start: Ghost(s),
            plain: Ghost(Seq::empty()),
            items: Ghost(Seq::empty()),
        }
    }

    /// Whether the cipher can take another `n` bytes.
    pub fn can_push(&self, n: usize) -> (r: bool)
        ensures
            r == self@.can_push(n as nat),
    {
        proof {
            self.cipher.lemma_kind();
        }
        match &self.cipher {
            CipherBox::Block(c) => {
                let all: u128 = self.buf.len() as u128 + n as u128;
                c.position() as u128 + all / BLOCK_SIZE as u128 <= u32::MAX as u128
            },
            CipherBox::Stream(c) => c.position() as u128 + n as u128 <= c.limit() as u128,
        }
    }

    /// Whether the cipher can take what does not fill a block.
    pub fn can_finish(&self) -> (r: bool)
        ensures
            r == self@.can_finish(),
    {
        proof {
            self.cipher.lemma_kind();
        }
        match &self.cipher {
            CipherBox::Block(c) => self.buf.len() == 0 || c.position() < u32::MAX,
            CipherBox::Stream(_) => true,
        }
    }

    /// Takes in another piece of the contents and gives the items that are to
    /// be sent: with a block cipher a full frame for each block that is full.
    pub fn push(&mut self, data: &[u8]) -> (r: Vec<Vec<u8>>)
        requires
            old(self).wf(),
            old(self)@.can_push(data@.len()),
        ensures
            final(self).wf(),
            bytes_of(r@) == old(self)@.push_items(data@),
            final(self)@ == old(self)@.pushed(data@),
            final(self).start() == old(self).start(),
            final(self).plain() == old(self).plain() + data@,
            final(self).items() == old(self).items() + bytes_of(r@),
            old(self)@.cipher.is_block() ==> {
                let n = full_blocks((old(self)@.buf + data@).len());
                &&& r@.len() == n
                &&& full_frames(bytes_of(r@))
                &&& bytes_of(r@).flatten().len() == n * FRAME_SIZE
            },
    {
        let ghost s = self.start@;
        let ghost plain = self.plain@;
        let ghost before = self.items@;
        proof {
            self.cipher.lemma_kind();
        }
        let out: Vec<Vec<u8>> = match &mut self.cipher {
            CipherBox::Block(c) => {
                self.buf.extend_from_slice(data);
                let ghost all = self.buf@;
                assert(all =~= old(self).buf@ + data@);
                let (out, used) = seal_full_blocks(c, &self.buf);
                let mut rest: Vec<u8> = Vec::new();
                rest.extend_from_slice(
                    vstd::slice::slice_subrange(self.buf.as_slice(), used, self.buf.len()),
                );
                self.buf = rest;
                proof {
                    assert(self.buf@ =~= rest_of(all));
                    lemma_frames_join(s, plain, data@, before.flatten(), bytes_of(out@).flatten());
                    lemma_blocks_add(plain, data@);
                    lemma_full_frames(bytes_of(out@));
                }
                out
            },
            CipherBox::Stream(c) => {
                let item: Vec<u8> = c.encrypt(data);
                let mut out: Vec<Vec<u8>> = Vec::new();
                out.push(item);
                proof {
                    bytes_of(out@).lemma_flatten_one_element();
                    assert(bytes_of(out@) =~= seq![item@]);
                }
                out
            },
        };
        proof {
            self.plain@ = plain + data@;
            self.items@ = before + bytes_of(out@);
            vstd::seq_lib::lemma_flatten_concat(before, bytes_of(out@));
            if s.is_block() {
                assert(full_frames(self.items@));
            } else {
                assert(self.items@.flatten() =~= s.encrypted(plain + data@));
            }
        }
        out
    }

    /// Gives the items that are to be sent at the end of the contents. All that
    /// has been sent is then an encryption of the contents, with a block cipher
    /// in an item for each block.
    pub fn finish(self) -> (r: Vec<Vec<u8>>)
        requires
            self.wf(),
            self@.can_finish(),
        ensures
            bytes_of(r@) == self@.finish_items(),
            is_encryption(
                self.start(),
                self.plain(),
                (self.items() + bytes_of(r@)).flatten(),
            ),
            self.start().is_block() ==> item_sizes(
                self.items() + bytes_of(r@),
                self.plain().len(),
            ),
    {
        let ghost s = self.start@;
        let ghost plain = self.plain@;
        proof {
            self.cipher.lemma_kind();
        }
        let mut job: EncryptJob = self;
        let mut out: Vec<Vec<u8>> = Vec::new();
        let ghost mut last: Seq<u8> = Seq::empty();
        match &mut job.cipher {
            CipherBox::Block(c) => {
                if job.buf.len() > 0 {
                    let item: Vec<u8> = c.encrypt(&job.buf);
                    proof {
                        last = item@;
                    }
                    out.push(item);
                    assert(bytes_of(out@) =~= seq![last]);
                }
            },
            CipherBox::Stream(_) => {},
        }
        proof {
            let items = self.items@ + bytes_of(out@);
            vstd::seq_lib::lemma_flatten_concat(self.items@, bytes_of(out@));
            bytes_of(out@).lemma_flatten_one_element();
            assert(bytes_of(out@) =~= self@.finish_items());
            assert(bytes_of(out@).flatten() =~= last);
            if s.is_block() {
                assert(rest_of(plain).len() == plain.len() % BLOCK_SIZE as nat);
                lemma_frames_and_rest(s, plain, self.items@.flatten(), last);
                assert(item_sizes(items, plain.len()));
            } else {
                assert(self.items@.flatten() + last =~= self.items@.flatten());
            }
        }
        out
    }
}

/// Seals the full blocks at the beginning of some contents, an item for each,
/// and says how many bytes they are.
fn seal_full_blocks(cipher: &mut AnyBlockCipher, all: &[u8]) -> (r: (Vec<Vec<u8>>, usize))
    requires
        old(cipher).state().at + full_blocks(all@.len()) <= u32::MAX,
    ensures
        final(cipher).state() == after(old(cipher).state(), full_blocks(all@.len())),
        bytes_of(r.0@) == seal_blocks(old(cipher).state(), all@),
        r.0@.len() == full_blocks(all@.len()),
        full_frames(bytes_of(r.0@)),
        frames_open(old(cipher).state(), all@, bytes_of(r.0@).flatten()),
        r.1 == full_blocks(all@.len()) * BLOCK_SIZE,
{
    let ghost s = cipher.state();
    let mut out: Vec<Vec<u8>> = Vec::new();
    let mut i: usize = 0;
    let ghost mut k: nat = 0;
    proof {
        cipher.lemma_is_block();
        assert(all@.skip(0) =~= all@);
        assert(all@.take(0) =~= Seq::empty());
        assert(bytes_of(out@) =~= Seq::empty());
        assert(seal_blocks(s, all@) =~= bytes_of(out@) + seal_blocks(s, all@));
    }
    while all.len() - i >= BLOCK_SIZE
        invariant
            i <= all@.len(),
            i == k * BLOCK_SIZE,
            s.is_block(),
            s.at + full_blocks(all@.len()) <= u32::MAX,
            cipher.state() == after(s, k),
            out@.len() == k,
            seal_blocks(s, all@) == bytes_of(out@) + seal_blocks(
                cipher.state(),
                all@.skip(i as int),
            ),
            full_frames(bytes_of(out@)),
            frames_open(s, all@.take(i as int), bytes_of(out@).flatten()),
        decreases all@.len() - i,
    {
        let ghost rest = all@.skip(i as int);
        let ghost before = bytes_of(out@);
        let ghost here = cipher.state();
        let piece: &[u8] = vstd::slice::slice_subrange(all, i, i + BLOCK_SIZE);
        assert(k < full_blocks(all@.len()));
        assert(piece@ =~= rest.take(BLOCK_SIZE as int));
        let frame: Vec<u8> = cipher.encrypt(piece);
        out.push(frame);
        proof {
            assert(bytes_of(out@) =~= before.push(frame@));
            before.lemma_flatten_push(frame@);
            assert(frame@.take(FRAME_SIZE as int) =~= frame@);
            assert(frame@.skip(FRAME_SIZE as int) =~= Seq::empty());
            assert(piece@.take(BLOCK_SIZE as int) =~= piece@);
            assert(piece@.skip(BLOCK_SIZE as int) =~= Seq::empty());
            assert(frames_open(here, piece@, frame@)) by {
                reveal_with_fuel(frames_open, 2);
            }
            let done = all@.take(i as int);
            assert(full_blocks(done.len()) == k);
            assert(rest_of(done) + piece@ =~= piece@);
            lemma_frames_join(s, done, piece@, before.flatten(), frame@);
            assert(done + piece@ =~= all@.take(i + BLOCK_SIZE));
            assert(rest.skip(BLOCK_SIZE as int) =~= all@.skip(i + BLOCK_SIZE));
            assert(bytes_of(out@) + seal_blocks(cipher.state(), rest.skip(BLOCK_SIZE as int))
                =~= before + seal_blocks(here, rest));
            k = k + 1;
        }
        i += BLOCK_SIZE;
    }
    proof {
        let done = all@.take(i as int);
        let rest = all@.skip(i as int);
        let sealed = bytes_of(out@).flatten();
        assert(k == full_blocks(all@.len()));
        assert(full_blocks(done.len()) == k);
        assert(rest_of(done) + rest =~= rest);
        assert(sealed + Seq::<u8>::empty() =~= sealed);
        assert(seal_blocks(s, all@) =~= bytes_of(out@));
        lemma_frames_join(s, done, rest, sealed, Seq::empty());
        assert(done + rest =~= all@);
    }
    (out, i)
}

/// Full blocks and rests of contents that follow each other.
proof fn lemma_blocks_add(x: Seq<u8>, y: Seq<u8>)
    ensures
        full_blocks((x + y).len()) == full_blocks(x.len()) + full_blocks((rest_of(x) + y).len()),
        rest_of(rest_of(x) + y) == rest_of(x + y),
{
    let rest = rest_of(x) + y;
    assert(full_blocks((x + y).len()) == full_blocks(x.len()) + full_blocks(rest.len()));
    assert(rest_of(rest) =~= rest_of(x + y));
}

/// An optional number.
pub open spec fn opt_nat(n: Option<u64>) -> Option<nat> {
    match n {
        Some(n) => Some(n as nat),
        None => None,
    }
}

/// The contents of a file on their way from the upstream server.
pub struct DecryptJob {
    cipher: CipherBox,
    prefix: usize,
    buf: Vec<u8>,
    skip: u64,
    want: Option<u64>,
    status: FlowStatus,
}

impl View for DecryptJob {
    type V = DownloadView;

    closed spec fn view(&self) -> DownloadView {
        DownloadView {
            cipher: self.cipher.state(),
            prefix: self.prefix as nat,
            buf: self.buf@,
            skip: self.skip as nat,
            want: opt_nat(self.want),
            status: self.status@,
        }
    }
}

impl DecryptJob {
    /// Whether what has come in does not fill a frame; of a stream nothing is
    /// kept.
    pub open spec fn wf(&self) -> bool {
        &&& self@.buf.len() < FRAME_SIZE
        &&& self@.cipher.is_block() || self@.buf.len() == 0
    }

    /// A download that drops the first `prefix` bytes of the response, skips
    /// the first `skip` bytes of the contents, and ends after `want` bytes.
    pub fn new(cipher: CipherBox, prefix: usize, skip: u64, want: Option<u64>) -> (r: Self)
        ensures
            r.wf(),
            r@ == DownloadView::begin(cipher.state(), prefix as nat, skip as nat, opt_nat(want)),
    {
        let r: DecryptJob = DecryptJob {
            cipher,
            prefix,
            buf: Vec::new(),
            skip,
            want,
            status: FlowStatus::Running,
        };
        assert(r@.buf =~= Seq::empty());
        r
    }

    /// How the download stands.
    pub fn status(&self) -> (r: &FlowStatus)
        ensures
            r@ == self@.status,
    {
        &self.status
    }

    /// Whether more of the response is wanted.
    pub fn is_running(&self) -> (r: bool)
        ensures
            r == (self@.status is Running),
    {
        matches!(self.status, FlowStatus::Running)
    }

    /// Whether the cipher can take every piece of `n` bytes of the response.
    pub fn can_push(&self, n: usize) -> (r: bool)
        ensures
            r == self@.has_room_for(n as nat),
            r ==> forall|data: Seq<u8>| data.len() == n ==> #[trigger] self@.can_push(data),
    {
        proof {
            self.cipher.lemma_kind();
            assert forall|data: Seq<u8>|
                data.len() == n && self@.has_room_for(n as nat) implies #[trigger] self@.can_push(
                data,
            ) by {
                lemma_room(self@, data);
            }
        }
        let fresh: usize = if n > self.prefix {
            n - self.prefix
        } else {
            0
        };
        match &self.cipher {
            CipherBox::Block(c) => {
                let all: u128 = self.buf.len() as u128 + fresh as u128;
                c.position() as u128 + all / FRAME_SIZE as u128 <= u32::MAX as u128
            },
            CipherBox::Stream(c) => c.position() as u128 + fresh as u128 <= c.limit() as u128,
        }
    }

    /// Whether the cipher can take a last frame.
    pub fn can_finish(&self) -> (r: bool)
        ensures
            r == self@.can_finish(),
    {
        proof {
            self.cipher.lemma_kind();
        }
        match &self.cipher {
            CipherBox::Block(c) => self.buf.len() == 0 || c.position() < u32::MAX,
            CipherBox::Stream(_) => true,
        }
    }

    /// Cuts what is asked for out of some contents and adds it to the chunks
    /// that are to be handed on, unless it is empty. Says whether more is wanted.
    pub fn emit_plain(&mut self, plain: &[u8], chunks: &mut Vec<Vec<u8>>) -> (r: bool)
        ensures
            bytes_of(final(chunks)@) == bytes_of(old(chunks)@) + chunk_of(
                window(plain@, old(self)@.skip, old(self)@.want),
            ),
            final(self)@ == old(self)@.emitted(plain@),
            r == (final(self)@.want != Some(0nat)),
            old(self).wf() ==> final(self).wf(),
            old(self)@.status is Running ==> r == (final(self)@.status is Running),
    {
        let from: usize = if self.skip < plain.len() as u64 {
            self.skip as usize
        } else {
            plain.len()
        };
        self.skip = self.skip - from as u64;
        let left: usize = plain.len() - from;
        let len: usize = match self.want {
            Some(w) if w < left as u64 => w as usize,
            _ => left,
        };
        let mut out: Vec<u8> = Vec::new();
        out.extend_from_slice(vstd::slice::slice_subrange(plain, from, from + len));
        assert(out@ =~= window(plain@, old(self)@.skip, old(self)@.want));
        if out.len() > 0 {
            chunks.push(out);
        }
        assert(bytes_of(chunks@) =~= bytes_of(old(chunks)@) + chunk_of(out@));
        if let Some(w) = self.want {
            self.want = Some(w - len as u64);
            if w - len as u64 == 0 {
                self.stop(FlowStatus::Done);
                return false;
            }
        }
        true
    }

    /// Ends the download.
    fn stop(&mut self, status: FlowStatus)
        ensures
            final(self)@ == old(self)@.ended(status@),
    {
        self.buf = Vec::new();
        self.status = status;
        assert(self@.buf =~= Seq::empty());
    }

    /// Works the full frames off that have come in.
    fn work(&mut self) -> (r: Vec<Vec<u8>>)
        requires
            old(self)@.cipher.is_block(),
            old(self)@.can_work(),
        ensures
            bytes_of(r@) == old(self)@.work_chunks(),
            final(self)@ == old(self)@.worked(),
    {
        let ghost d = self@;
        let mut out: Vec<Vec<u8>> = Vec::new();
        assert(bytes_of(out@) + d.work_chunks() =~= d.work_chunks());
        while self.is_running() && self.buf.len() >= FRAME_SIZE
            invariant
                self@.cipher.is_block(),
                self@.can_work(),
                bytes_of(out@) + self@.work_chunks() == d.work_chunks(),
                self@.worked() == d.worked(),
            decreases self@.buf.len(),
        {
            let ghost now = self@;
            let frame: &[u8] = vstd::slice::slice_subrange(self.buf.as_slice(), 0, FRAME_SIZE);
            assert(frame@ =~= now.buf.take(FRAME_SIZE as int));
            let mut rest: Vec<u8> = Vec::new();
            rest.extend_from_slice(
                vstd::slice::slice_subrange(self.buf.as_slice(), FRAME_SIZE, self.buf.len()),
            );
            assert(rest@ =~= now.buf.skip(FRAME_SIZE as int));
            let plain: Vec<u8> = self.cipher.decrypt_piece(frame);
            self.buf = rest;
            if plain.len() == 0 {
                self.stop(
                    FlowStatus::Failed(
                        ProxyError::proxy(
                            "GCM auth failed: encrypted data corrupted or wrong password",
                        ),
                    ),
                );
            } else {
                let ghost before = bytes_of(out@);
                self.emit_plain(&plain, &mut out);
                assert(bytes_of(out@) + self@.work_chunks() =~= before + now.work_chunks());
            }
        }
        assert(bytes_of(out@) =~= d.work_chunks());
        out
    }

    /// Takes in another piece of the response and gives the chunks that are to
    /// be handed on, none of which is empty.
    pub fn push(&mut self, data: &[u8]) -> (r: Vec<Vec<u8>>)
        requires
            old(self).wf(),
            old(self)@.can_push(data@),
        ensures
            final(self).wf(),
            bytes_of(r@) == old(self)@.push_chunks(data@),
            bytes_of(r@).flatten() == old(self)@.push_out(data@),
            none_empty(bytes_of(r@)),
            final(self)@ == old(self)@.pushed(data@),
    {
        let ghost d = self@;
        let mut out: Vec<Vec<u8>> = Vec::new();
        proof {
            self.cipher.lemma_kind();
            law_download_chunks(d, data@);
            assert(bytes_of(out@) =~= Seq::empty());
        }
        if !self.is_running() {
            return out;
        }
        if self.prefix > 0 && data.len() <= self.prefix {
            self.prefix = self.prefix - data.len();
            return out;
        }
        let fresh: &[u8] = vstd::slice::slice_subrange(data, self.prefix, data.len());
        assert(fresh@ =~= data@.skip(d.prefix as int));
        self.prefix = 0;
        match self.cipher {
            CipherBox::Block(_) => {
                self.buf.extend_from_slice(fresh);
                assert(self.buf@ =~= d.taken(data@).buf);
                proof {
                    lemma_worked_len(self@);
                }
                out = self.work();
            },
            CipherBox::Stream(_) => {
                let plain: Vec<u8> = self.cipher.decrypt_piece(fresh);
                self.emit_plain(&plain, &mut out);
                assert(bytes_of(out@) =~= d.push_chunks(data@));
            },
        }
        out
    }

    /// Gives the chunk that is to be handed on at the end of the response, if
    /// there is one.
    pub fn finish(&mut self) -> (r: Vec<Vec<u8>>)
        requires
            old(self).wf(),
            old(self)@.status is Running ==> old(self)@.can_finish(),
        ensures
            final(self).wf(),
            bytes_of(r@) == chunk_of(old(self)@.finish_out()),
            bytes_of(r@).flatten() == old(self)@.finish_out(),
            final(self)@ == old(self)@.finished(),
    {
        let mut out: Vec<Vec<u8>> = Vec::new();
        proof {
            self.cipher.lemma_kind();
            law_download_chunks(self@, Seq::empty());
            assert(bytes_of(out@) =~= Seq::empty());
        }
        if !self.is_running() {
            return out;
        }
        if self.buf.len() == 0 {
            self.stop(FlowStatus::Done);
            return out;
        }
        let plain: Vec<u8> = self.cipher.decrypt_piece(&self.buf);
        if plain.len() == 0 {
            self.stop(
                FlowStatus::Failed(
                    ProxyError::proxy("GCM auth failed: final block corrupted or wrong password"),
                ),
            );
            return out;
        }
        self.emit_plain(&plain, &mut out);
        assert(bytes_of(out@) =~= chunk_of(old(self)@.finish_out()));
        self.stop(FlowStatus::Done);
        out
    }
}

/// Which of the two kinds of cipher contents go through.
#[derive(Debug, Clone, Copy, PartialEq, Eq, Structural)]
pub enum CipherEngine {
    Block,
    Stream,
}

impl CipherEngine {
    /// Whether a cipher is of the engine's kind.
    pub open spec fn fits(self, cipher: CipherBox) -> bool {
        self is Block <==> cipher is Block
    }

    /// The engine for an algorithm.
    pub fn for_type(enc_type: EncType) -> (r: Self)
        ensures
            r is Block <==> enc_type.spec_kind() == CipherKind::Block,
    {
        match enc_type.kind() {
            CipherKind::Block => CipherEngine::Block,
            CipherKind::Stream => CipherEngine::Stream,
        }
    }

    /// The download of a whole file.
    pub fn decrypt_job(
        &self,
        cipher: CipherBox,
        skip_cipher_prefix: usize,
        skip_plain_prefix: u64,
        want: Option<u64>,
    ) -> (r: DecryptJob)
        requires
            self.fits(cipher),
        ensures
            r.wf(),
            r@ == DownloadView::begin(
                cipher.state(),
                skip_cipher_prefix as nat,
                skip_plain_prefix as nat,
                opt_nat(want),
            ),
    {
        DecryptJob::new(cipher, skip_cipher_prefix, skip_plain_prefix, want)
    }

    /// The download of a part of a file. A stream cipher, which has not begun,
    /// is first moved past the header and to the beginning of the part.
    pub fn range_decrypt_job(
        &self,
        cipher: CipherBox,
        start_plain: u64,
        skip_plain_prefix: u64,
        want: Option<u64>,
    ) -> (r: DecryptJob)
        requires
            self.fits(cipher),
            !cipher.state().is_block() ==> cipher.state().at + CYPTO_META_SIZE + start_plain
                <= keystream_limit(cipher.state().enc_type),
        ensures
            r.wf(),
            r@ == DownloadView::begin(
                if cipher.state().is_block() {
                    cipher.state()
                } else {
                    after(cipher.state(), CYPTO_META_SIZE as nat + start_plain as nat)
                },
                0,
                skip_plain_prefix as nat,
                opt_nat(want),
            ),
    {
        proof {
            cipher.lemma_kind();
        }
        match cipher {
            CipherBox::Block(c) => DecryptJob::new(
                CipherBox::Block(c),
                0,
                skip_plain_prefix,
                want,
            ),
            CipherBox::Stream(c) => {
                let mut c: AnyStreamCipher = c;
                c.skip_bytes(CYPTO_META_SIZE as u64 + start_plain);
                DecryptJob::new(CipherBox::Stream(c), 0, skip_plain_prefix, want)
            },
        }
    }

    /// The upload of a file.
    pub fn encrypt_job(&self, cipher: CipherBox) -> (r: EncryptJob)
        requires
            self.fits(cipher),
        ensures
            r.wf(),
            r@ == (UploadView { cipher: cipher.state(), buf: Seq::empty() }),
            r.start() == cipher.state(),
            r.plain() == Seq::<u8>::empty(),
            r.items() == Seq::<Seq<u8>>::empty(),
    {
        EncryptJob::new(cipher)
    }
}

/// The cipher that the header of a file and a password give.
pub open spec fn cipher_of_file(file: Seq<u8>, password: Seq<u8>) -> Option<CipherState> {
    match magic_at(file) {
        Some(t) => Some(
            CipherState::start(
                t,
                password,
                file.subrange(8, CYPTO_META_SIZE as int).take(nonce_size(t) as int),
            ),
        ),
        None => None,
    }
}

/// A file as an upload leaves it: the header, and an encryption of the
/// contents.
pub open spec fn is_encrypted_file(
    t: EncType,
    password: Seq<u8>,
    plain: Seq<u8>,
    file: Seq<u8>,
) -> bool {
    exists|nonce: Seq<u8>, data: Seq<u8>|
        {
            &&& nonce.len() == nonce_size(t)
            &&& #[trigger] is_encryption(
                past_header(CipherState::start(t, password, nonce)),
                plain,
                data,
            )
            &&& file == meta_bytes(t, header_bytes(nonce)) + data
        }
}

/// The header of an uploaded file names its algorithm and gives, with the
/// password, back the cipher that it was encrypted with.
proof fn lemma_cipher_of_file(
    t: EncType,
    password: Seq<u8>,
    nonce: Seq<u8>,
    data: Seq<u8>,
)
    requires
        nonce.len() == nonce_size(t),
    ensures
        cipher_of_file(meta_bytes(t, header_bytes(nonce)) + data, password) == Some(
            CipherState::start(t, password, nonce),
        ),
        meta_bytes(t, header_bytes(nonce)).len() == CYPTO_META_SIZE,
{
    law_header_keeps_nonce(t, nonce);
    law_header_round_trip(t, header_bytes(nonce), data);
    law_header_round_trip(t, header_bytes(nonce), Seq::empty());
    crate::crypto::lemma_magic_bytes(t);
}

/// What was uploaded is what a download of the file with the same password
/// gives back, and the length that it is announced with is its length.
pub proof fn law_file_round_trip(t: EncType, password: Seq<u8>, plain: Seq<u8>, file: Seq<u8>)
    requires
        is_encrypted_file(t, password, plain, file),
    ensures
        ({
            let c = cipher_of_file(file, password)->0;
            let d = DownloadView::begin(past_header(c), CYPTO_META_SIZE as nat, 0, None);
            &&& cipher_of_file(file, password) is Some
            &&& c.enc_type == t
            &&& d.delivers(file, plain)
        }),
        file.len() <= u64::MAX ==> plaintext_len(t, file.len() as u64) == Some(plain.len() as u64),
        plain.len() <= file.len(),
{
    let (nonce, data) = choose|nonce: Seq<u8>, data: Seq<u8>|
        {
            &&& nonce.len() == nonce_size(t)
            &&& #[trigger] is_encryption(
                past_header(CipherState::start(t, password, nonce)),
                plain,
                data,
            )
            &&& file == meta_bytes(t, header_bytes(nonce)) + data
        };
    lemma_cipher_of_file(t, password, nonce, data);
    let s = past_header(CipherState::start(t, password, nonce));
    law_download_of_upload(s, plain, meta_bytes(t, header_bytes(nonce)), data, 0, None);
    assert(window(plain, 0, None) =~= plain);
    lemma_encryption_len(s, plain, data);
    if file.len() <= u64::MAX {
        law_length_of_upload(s, plain, data);
    }
}

/// An uploaded file is a header of 64 bytes, the contents and, with a block
/// cipher, a tag for each block.
pub proof fn lemma_file_len(t: EncType, password: Seq<u8>, plain: Seq<u8>, file: Seq<u8>)
    requires
        is_encrypted_file(t, password, plain, file),
    ensures
        file.len() == CYPTO_META_SIZE + sealed_len(t, plain.len()),
{
    let (nonce, data) = choose|nonce: Seq<u8>, data: Seq<u8>|
        {
            &&& nonce.len() == nonce_size(t)
            &&& #[trigger] is_encryption(
                past_header(CipherState::start(t, password, nonce)),
                plain,
                data,
            )
            &&& file == meta_bytes(t, header_bytes(nonce)) + data
        };
    lemma_cipher_of_file(t, password, nonce, data);
    lemma_encryption_len(past_header(CipherState::start(t, password, nonce)), plain, data);
}

/// A part of what was uploaded can be had: from the part of the file that is
/// asked of the upstream server, and from the whole file.
pub proof fn law_file_range(
    t: EncType,
    password: Seq<u8>,
    plain: Seq<u8>,
    file: Seq<u8>,
    start: nat,
    want: nat,
)
    requires
        is_encrypted_file(t, password, plain, file),
        want > 0,
        start + want <= plain.len(),
    ensures
        ({
            let c = cipher_of_file(file, password)->0;
            let from = cipher_offset(t, start);
            let end = least(cipher_end(t, start, want) as nat, (file.len() - 1) as nat);
            let body = file.subrange(from, (end + 1) as int);
            let part = plain.subrange(start as int, (start + want) as int);
            let d = DownloadView::begin(
                range_cipher(past_header(c), start),
                0,
                plain_skip(t, start) as nat,
                Some(want),
            );
            let all = DownloadView::begin(
                past_header(c),
                CYPTO_META_SIZE as nat,
                start,
                Some(want),
            );
            &&& cipher_of_file(file, password) is Some
            &&& 0 <= from <= end < file.len()
            &&& d.delivers(body, part)
            &&& all.delivers(file, part)
        }),
{
    let (nonce, data) = choose|nonce: Seq<u8>, data: Seq<u8>|
        {
            &&& nonce.len() == nonce_size(t)
            &&& #[trigger] is_encryption(
                past_header(CipherState::start(t, password, nonce)),
                plain,
                data,
            )
            &&& file == meta_bytes(t, header_bytes(nonce)) + data
        };
    lemma_cipher_of_file(t, password, nonce, data);
    let s = past_header(CipherState::start(t, password, nonce));
    let header = meta_bytes(t, header_bytes(nonce));
    law_range_download(s, plain, header, data, start, want);
    law_download_of_upload(s, plain, header, data, start, Some(want));
    assert(window(plain, start, Some(want)) =~= plain.subrange(
        start as int,
        (start + want) as int,
    ));
}

/// Whether a file begins with the header of an algorithm: eight bytes that name
/// it, the nonce of the file, and zeros up to 64 bytes.
pub open spec fn has_header(file: Seq<u8>, magic: Seq<char>, nonce: Seq<u8>) -> bool {
    file.len() >= 64 && file.take(64) == encode_utf8(magic) + nonce + Seq::new(
        (56 - nonce.len()) as nat,
        |i: int| 0u8,
    )
}

/// What stands in a file that was encrypted as a stream: the header, and behind it
/// each byte of the contents combined with the keystream at its place in the file.
pub proof fn law_stream_file_format(t: EncType, password: Seq<u8>, plain: Seq<u8>, file: Seq<u8>)
    requires
        t == EncType::AesCtr || t == EncType::ChaCha20,
        is_encrypted_file(t, password, plain, file),
    ensures
        file.len() == 64 + plain.len(),
        t == EncType::AesCtr ==> (exists|nonce: Seq<u8>| #[trigger]
            has_header(file, "AES--CTR"@, nonce) && nonce.len() == 16),
        t == EncType::AesCtr ==> forall|i: int|
            0 <= i < plain.len() ==> #[trigger] file[64 + i] == plain[i] ^ aes256_ctr_keystream(
                sha256(encode_utf8("aesctr-key-v1"@) + password),
                sha256(encode_utf8("aesctr-iv-v1"@) + password).take(16),
                (64 + i) as nat,
            ),
        t == EncType::ChaCha20 ==> (exists|nonce: Seq<u8>| #[trigger]
            has_header(file, "CHACHA20"@, nonce) && nonce.len() == 12 && forall|i: int|
                0 <= i < plain.len() ==> #[trigger] file[64 + i] == plain[i] ^ chacha20_keystream(
                    sha256(encode_utf8("chacha20-key-v1"@) + password),
                    nonce,
                    (64 + i) as nat,
                )),
{
    let (nonce, data) = choose|nonce: Seq<u8>, data: Seq<u8>|
        {
            &&& nonce.len() == nonce_size(t)
            &&& #[trigger] is_encryption(
                past_header(CipherState::start(t, password, nonce)),
                plain,
                data,
            )
            &&& file == meta_bytes(t, header_bytes(nonce)) + data
        };
    let s = past_header(CipherState::start(t, password, nonce));
    lemma_header(t, password, nonce, data);
    law_keys(t, password, nonce);
    assert forall|i: int| 0 <= i < plain.len() implies #[trigger] file[64 + i] == data[i] by {}
    assert forall|i: int| 0 <= i < plain.len() implies #[trigger] data[i] == s.encrypted(plain)[i]
        by {}
    assert(has_header(file, t.magic(), nonce));
}

/// The header at the beginning of an uploaded file.
proof fn lemma_header(t: EncType, password: Seq<u8>, nonce: Seq<u8>, data: Seq<u8>)
    requires
        nonce.len() == nonce_size(t),
    ensures
        has_header(meta_bytes(t, header_bytes(nonce)) + data, t.magic(), nonce),
        meta_bytes(t, header_bytes(nonce)).len() == 64,
        (meta_bytes(t, header_bytes(nonce)) + data).skip(64) == data,
{
    lemma_cipher_of_file(t, password, nonce, data);
    let file = meta_bytes(t, header_bytes(nonce)) + data;
    let zeros = Seq::new((56 - nonce.len()) as nat, |i: int| 0u8);
    assert(file.take(64) =~= meta_bytes(t, header_bytes(nonce)));
    assert(encode_utf8(t.magic()) + (nonce + zeros) =~= encode_utf8(t.magic()) + nonce + zeros);
    assert(file.skip(64) =~= data);
}

/// What a frame opens to under a key and a nonce.
pub open spec fn frame_opens(t: EncType, key: Seq<u8>, nonce: Seq<u8>, frame: Seq<u8>) -> Option<
    Seq<u8>,
> {
    match t {
        EncType::AesGcm => aes256_gcm_open(key, nonce, frame),
        EncType::ChaCha20Poly1305 => chacha20_poly1305_open(key, nonce, frame),
        _ => aes256_gcm_siv_open(key, nonce, frame),
    }
}

/// What stands in a file that was encrypted block by block: the header, and behind
/// it a frame for each block of 65536 bytes. The frame of a block opens to the
/// block under a nonce made of the first half of the file's nonce and the number
/// of the block, which counts from 2 on, as the header counts as the first piece.
pub proof fn law_block_file_format(t: EncType, password: Seq<u8>, plain: Seq<u8>, file: Seq<u8>)
    requires
        t == EncType::AesGcm || t == EncType::ChaCha20Poly1305 || t == EncType::AesGcmSiv,
        is_encrypted_file(t, password, plain, file),
    ensures
        file.len() == 64 + plain.len() + 16 * ((plain.len() + 65535) as nat / 65536),
        exists|nonce: Seq<u8>| #[trigger]
            has_header(file, t.magic(), nonce) && nonce.len() == 16 && forall|k: nat|
                #![trigger spec_u32_to_le_bytes((k + 2) as u32)]
                k * 65536 < plain.len() ==> frame_opens(
                    t,
                    sha256(
                        encode_utf8(
                            match t {
                                EncType::AesGcm => "aesgcm-key-v1"@,
                                EncType::ChaCha20Poly1305 => "c20p1305-key-v1"@,
                                _ => "aesgcmsiv-key-v1"@,
                            },
                        ) + password,
                    ),
                    nonce.take(8) + spec_u32_to_le_bytes((k + 2) as u32),
                    file.subrange(
                        (64 + k * 65552) as int,
                        least(64 + (k + 1) * 65552, file.len()) as int,
                    ),
                ) == Some(
                    plain.subrange(
                        k * 65536 as int,
                        least((k + 1) * 65536, plain.len()) as int,
                    ),
                ),
{
    let (nonce, data) = choose|nonce: Seq<u8>, data: Seq<u8>|
        {
            &&& nonce.len() == nonce_size(t)
            &&& #[trigger] is_encryption(
                past_header(CipherState::start(t, password, nonce)),
                plain,
                data,
            )
            &&& file == meta_bytes(t, header_bytes(nonce)) + data
        };
    let s = past_header(CipherState::start(t, password, nonce));
    lemma_file_len(t, password, plain, file);
    lemma_header(t, password, nonce, data);
    law_keys(t, password, nonce);
    assert(has_header(file, t.magic(), nonce));
    assert forall|k: nat|
        #![trigger spec_u32_to_le_bytes((k + 2) as u32)]
        k * 65536 < plain.len() implies frame_opens(
        t,
        s.key,
        nonce.take(8) + spec_u32_to_le_bytes((k + 2) as u32),
        file.subrange((64 + k * 65552) as int, least(64 + (k + 1) * 65552, file.len()) as int),
    ) == Some(
        plain.subrange(k * 65536 as int, least((k + 1) * 65536, plain.len()) as int),
    ) by {
        lemma_encryption_tail(s, plain, data, k);
        let here = after(s, k);
        let p = plain.skip(k * BLOCK_SIZE as int);
        let d = data.skip(k * FRAME_SIZE as int);
        lemma_encryption_len(here, p, d);
        let frame = file.subrange(
            (64 + k * 65552) as int,
            least(64 + (k + 1) * 65552, file.len()) as int,
        );
        let block = plain.subrange(k * 65536 as int, least((k + 1) * 65536, plain.len()) as int);
        if p.len() >= BLOCK_SIZE {
            assert(frame =~= d.take(FRAME_SIZE as int));
            assert(block =~= p.take(BLOCK_SIZE as int));
        } else {
            assert(frame =~= d);
            assert(block =~= p);
        }
        assert(here.decrypted(frame) == block);
        law_sealed_pieces(here, frame);
    }
}

/// A vector of zeros.
fn zero_bytes(n: usize) -> (r: Vec<u8>)
    ensures
        r@.len() == n,
{
    let mut zeros: Vec<u8> = Vec::new();
    while zeros.len() < n
        invariant
            zeros@.len() <= n,
        decreases n - zeros@.len(),
    {
        zeros.push(0);
    }
    zeros
}

} // verus!
