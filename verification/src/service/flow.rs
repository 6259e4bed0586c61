//! File contents on their way through a cipher, piece by piece, over sequences
//! of bytes: what comes out of an upload and of a download, and that the one
//! gives back what went into the other.
use vstd::prelude::*;

use crate::crypto::model::{
    cipher_offset, keystream_limit, lemma_xored_twice, plain_skip, plaintext_len, CipherState,
    BLOCK_SIZE, FRAME_SIZE, TAG_SIZE,
};
use crate::crypto::{CipherKind, EncType, CYPTO_META_SIZE};
use crate::errors::ErrorView;

verus! {

/// A cipher of either kind after `n` more pieces or bytes.
pub open spec fn after(s: CipherState, n: nat) -> CipherState {
    CipherState { at: s.at + n, ..s }
}

/// The full blocks of some contents, each sealed into an item of its own.
pub open spec fn seal_blocks(s: CipherState, plain: Seq<u8>) -> Seq<Seq<u8>>
    decreases plain.len(),
{
    if plain.len() < BLOCK_SIZE {
        Seq::empty()
    } else {
        seq![s.encrypted(plain.take(BLOCK_SIZE as int))] + seal_blocks(
            after(s, 1),
            plain.skip(BLOCK_SIZE as int),
        )
    }
}

/// How many full blocks some contents hold.
pub open spec fn full_blocks(n: nat) -> nat {
    n / BLOCK_SIZE as nat
}

/// How many blocks some contents are cut into, the last of which may not be
/// full.
pub open spec fn block_count(n: nat) -> nat {
    (n + BLOCK_SIZE - 1) as nat / BLOCK_SIZE as nat
}

/// What is left of some contents behind their full blocks.
pub open spec fn rest_of(plain: Seq<u8>) -> Seq<u8> {
    plain.skip((full_blocks(plain.len()) * BLOCK_SIZE) as int)
}

/// An upload under way: the cipher, and what does not fill a block yet.
pub struct UploadView {
    pub cipher: CipherState,
    pub buf: Seq<u8>,
}

impl UploadView {
    /// The upload after another piece of the contents.
    pub open spec fn pushed(self, data: Seq<u8>) -> UploadView {
        if self.cipher.is_block() {
            let all = self.buf + data;
            UploadView { cipher: after(self.cipher, full_blocks(all.len())), buf: rest_of(all) }
        } else {
            UploadView { cipher: after(self.cipher, data.len()), buf: self.buf }
        }
    }

    /// The items that are sent for another piece of the contents: each block
    /// that is full goes out by itself, and a stream as it comes.
    pub open spec fn push_items(self, data: Seq<u8>) -> Seq<Seq<u8>> {
        if self.cipher.is_block() {
            seal_blocks(self.cipher, self.buf + data)
        } else {
            seq![self.cipher.encrypted(data)]
        }
    }

    /// The items that are sent at the end of the contents: one for the block
    /// that is not full, if there is one.
    pub open spec fn finish_items(self) -> Seq<Seq<u8>> {
        if self.cipher.is_block() && self.buf.len() > 0 {
            seq![self.cipher.encrypted(self.buf)]
        } else {
            Seq::empty()
        }
    }

    /// The items that are sent for contents that come in some pieces, to their
    /// end.
    pub open spec fn all_items(self, pieces: Seq<Seq<u8>>) -> Seq<Seq<u8>>
        decreases pieces.len(),
    {
        if pieces.len() == 0 {
            self.finish_items()
        } else {
            self.push_items(pieces.first()) + self.pushed(pieces.first()).all_items(
                pieces.drop_first(),
            )
        }
    }

    /// Whether the cipher can take another `n` bytes.
    pub open spec fn can_push(self, n: nat) -> bool {
        if self.cipher.is_block() {
            self.cipher.at + full_blocks(self.buf.len() + n) <= u32::MAX
        } else {
            self.cipher.at + n <= keystream_limit(self.cipher.enc_type)
        }
    }

    /// Whether the cipher can take what does not fill a block.
    pub open spec fn can_finish(self) -> bool {
        self.cipher.is_block() && self.buf.len() > 0 ==> self.cipher.at < u32::MAX
    }
}

/// Sealing more contents continues where sealing the first part of them ended.
proof fn lemma_seal_blocks(s: CipherState, x: Seq<u8>, y: Seq<u8>)
    ensures
        seal_blocks(s, x + y) == seal_blocks(s, x) + seal_blocks(
            after(s, full_blocks(x.len())),
            rest_of(x) + y,
        ),
    decreases x.len(),
{
    if x.len() < BLOCK_SIZE {
        assert(rest_of(x) =~= x);
        assert(after(s, 0) == s);
        assert(seal_blocks(s, x + y) =~= seal_blocks(s, x) + seal_blocks(s, x + y));
    } else {
        let x1 = x.skip(BLOCK_SIZE as int);
        lemma_seal_blocks(after(s, 1), x1, y);
        assert((x + y).take(BLOCK_SIZE as int) =~= x.take(BLOCK_SIZE as int));
        assert((x + y).skip(BLOCK_SIZE as int) =~= x1 + y);
        assert(full_blocks(x.len()) == full_blocks(x1.len()) + 1);
        assert(rest_of(x1) =~= rest_of(x));
        assert(after(after(s, 1), full_blocks(x1.len())) == after(s, full_blocks(x.len())));
        assert(seal_blocks(s, x + y) =~= seal_blocks(s, x) + seal_blocks(
            after(s, full_blocks(x.len())),
            rest_of(x) + y,
        ));
    }
}

/// There is an item for each full block.
proof fn lemma_seal_blocks_count(s: CipherState, plain: Seq<u8>)
    ensures
        seal_blocks(s, plain).len() == full_blocks(plain.len()),
    decreases plain.len(),
{
    if plain.len() >= BLOCK_SIZE {
        lemma_seal_blocks_count(after(s, 1), plain.skip(BLOCK_SIZE as int));
    }
}

/// It does not matter into which pieces the contents of an upload are cut:
/// two pieces are sent as one piece made of both is. Blocks are sent in the
/// same items, a stream in the same bytes.
pub proof fn law_upload_pieces(up: UploadView, a: Seq<u8>, b: Seq<u8>)
    ensures
        up.pushed(a).pushed(b) == up.pushed(a + b),
        up.cipher.is_block() ==> up.push_items(a) + up.pushed(a).push_items(b) == up.push_items(
            a + b,
        ),
        (up.push_items(a) + up.pushed(a).push_items(b)).flatten() == up.push_items(a + b).flatten(),
{
    if up.cipher.is_block() {
        let x = up.buf + a;
        assert(x + b =~= up.buf + (a + b));
        lemma_seal_blocks(up.cipher, x, b);
        let k = full_blocks(x.len());
        let rest = rest_of(x) + b;
        assert(full_blocks((x + b).len()) == k + full_blocks(rest.len()));
        assert(rest_of(rest) =~= rest_of(x + b));
    } else {
        let first = up.push_items(a);
        let second = up.pushed(a).push_items(b);
        vstd::seq_lib::lemma_flatten_concat(first, second);
        first.lemma_flatten_one_element();
        second.lemma_flatten_one_element();
        up.push_items(a + b).lemma_flatten_one_element();
        assert(first.first() + second.first() =~= up.cipher.encrypted(a + b));
    }
}

/// An upload that is encrypted block by block is sent in the items of its
/// contents, whatever the pieces in which they come: one item for each block,
/// that is none for empty contents.
pub proof fn law_upload_items(up: UploadView, pieces: Seq<Seq<u8>>)
    requires
        up.cipher.is_block(),
        up.buf.len() < BLOCK_SIZE,
    ensures
        up.all_items(pieces) == up.push_items(pieces.flatten()) + up.pushed(
            pieces.flatten(),
        ).finish_items(),
        up.all_items(pieces).len() == block_count(up.buf.len() + pieces.flatten().len()),
    decreases pieces.len(),
{
    let plain = pieces.flatten();
    let end = up.pushed(plain);
    if pieces.len() == 0 {
        assert(up.buf + plain =~= up.buf);
        assert(rest_of(up.buf) =~= up.buf);
        assert(after(up.cipher, 0) == up.cipher);
        assert(up.push_items(plain) =~= Seq::empty());
        assert(up.all_items(pieces) =~= up.push_items(plain) + end.finish_items());
    } else {
        let a = pieces.first();
        let b = pieces.drop_first().flatten();
        law_upload_items(up.pushed(a), pieces.drop_first());
        law_upload_pieces(up, a, b);
        assert(plain == a + b);
        assert(up.all_items(pieces) =~= up.push_items(plain) + end.finish_items());
    }
    let all = up.buf + plain;
    lemma_seal_blocks_count(up.cipher, all);
    assert(end.buf.len() == all.len() % BLOCK_SIZE as nat);
}

/// Whether some items have the sizes of the blocks of `n` bytes of contents,
/// each with its tag: all are full frames but the last, which may be shorter.
pub open spec fn item_sizes(items: Seq<Seq<u8>>, n: nat) -> bool {
    &&& items.len() == block_count(n)
    &&& forall|i: int|
        0 <= i < items.len() ==> (#[trigger] items[i]).len() == if i < full_blocks(n) {
            FRAME_SIZE as nat
        } else {
            n % BLOCK_SIZE as nat + TAG_SIZE as nat
        }
}

/// Whether each of some items is a full frame.
pub open spec fn full_frames(items: Seq<Seq<u8>>) -> bool {
    forall|i: int| 0 <= i < items.len() ==> (#[trigger] items[i]).len() == FRAME_SIZE
}

/// Full frames are together as long as their number says.
pub proof fn lemma_full_frames(items: Seq<Seq<u8>>)
    requires
        full_frames(items),
    ensures
        items.flatten().len() == items.len() * FRAME_SIZE,
    decreases items.len(),
{
    if items.len() > 0 {
        let rest = items.drop_first();
        assert forall|i: int| 0 <= i < rest.len() implies (#[trigger] rest[i]).len()
            == FRAME_SIZE by {
            assert(rest[i] == items[i + 1]);
        }
        lemma_full_frames(rest);
    }
}

/// The items of `n` bytes of contents are together as long as the contents and
/// a tag for each block.
pub proof fn law_item_sizes(items: Seq<Seq<u8>>, n: nat)
    requires
        item_sizes(items, n),
    ensures
        items.flatten().len() == n + TAG_SIZE as nat * block_count(n),
        forall|i: int| 0 <= i < items.len() - 1 ==> (#[trigger] items[i]).len() == FRAME_SIZE,
        items.len() > 0 ==> TAG_SIZE < items.last().len() <= FRAME_SIZE,
        n == 0 ==> items.len() == 0,
{
    let full = items.take(full_blocks(n) as int);
    lemma_full_frames(full);
    if n % BLOCK_SIZE as nat == 0 {
        assert(full =~= items);
    } else {
        assert(full + seq![items.last()] =~= items);
        vstd::seq_lib::lemma_flatten_concat(full, seq![items.last()]);
        seq![items.last()].lemma_flatten_one_element();
    }
}

/// Whether some data are the full blocks of some contents, each sealed so that
/// it opens to the block.
pub open spec fn frames_open(s: CipherState, plain: Seq<u8>, data: Seq<u8>) -> bool
    decreases plain.len(),
{
    if plain.len() < BLOCK_SIZE {
        data.len() == 0
    } else {
        &&& data.len() >= FRAME_SIZE
        &&& s.decrypted(data.take(FRAME_SIZE as int)) == plain.take(BLOCK_SIZE as int)
        &&& frames_open(after(s, 1), plain.skip(BLOCK_SIZE as int), data.skip(FRAME_SIZE as int))
    }
}

/// Whether some data, from a point of a cipher's work on, are what some
/// contents were encrypted to: each frame opens to its block.
pub open spec fn is_encryption(s: CipherState, plain: Seq<u8>, data: Seq<u8>) -> bool
    decreases plain.len(),
{
    if !s.is_block() {
        data == s.encrypted(plain)
    } else if plain.len() == 0 {
        data.len() == 0
    } else if plain.len() < BLOCK_SIZE {
        &&& data.len() == plain.len() + TAG_SIZE
        &&& s.decrypted(data) == plain
    } else {
        &&& data.len() >= FRAME_SIZE
        &&& s.decrypted(data.take(FRAME_SIZE as int)) == plain.take(BLOCK_SIZE as int)
        &&& is_encryption(after(s, 1), plain.skip(BLOCK_SIZE as int), data.skip(FRAME_SIZE as int))
    }
}

/// Frames that follow frames.
pub proof fn lemma_frames_join(
    s: CipherState,
    x: Seq<u8>,
    y: Seq<u8>,
    first: Seq<u8>,
    second: Seq<u8>,
)
    requires
        frames_open(s, x, first),
        frames_open(after(s, full_blocks(x.len())), rest_of(x) + y, second),
    ensures
        frames_open(s, x + y, first + second),
    decreases x.len(),
{
    if x.len() < BLOCK_SIZE {
        assert(rest_of(x) =~= x);
        assert(after(s, 0) == s);
        assert(first + second =~= second);
    } else {
        let x1 = x.skip(BLOCK_SIZE as int);
        let f1 = first.skip(FRAME_SIZE as int);
        assert(full_blocks(x.len()) == full_blocks(x1.len()) + 1);
        assert(rest_of(x1) =~= rest_of(x));
        assert(after(after(s, 1), full_blocks(x1.len())) == after(s, full_blocks(x.len())));
        lemma_frames_join(after(s, 1), x1, y, f1, second);
        assert((x + y).take(BLOCK_SIZE as int) =~= x.take(BLOCK_SIZE as int));
        assert((x + y).skip(BLOCK_SIZE as int) =~= x1 + y);
        assert((first + second).take(FRAME_SIZE as int) =~= first.take(FRAME_SIZE as int));
        assert((first + second).skip(FRAME_SIZE as int) =~= f1 + second);
    }
}

/// Full blocks and what follows them, both sealed, are an encryption.
pub proof fn lemma_frames_and_rest(s: CipherState, plain: Seq<u8>, frames: Seq<u8>, last: Seq<u8>)
    requires
        s.is_block(),
        frames_open(s, plain, frames),
        is_encryption(after(s, full_blocks(plain.len())), rest_of(plain), last),
    ensures
        is_encryption(s, plain, frames + last),
    decreases plain.len(),
{
    if plain.len() < BLOCK_SIZE {
        assert(rest_of(plain) =~= plain);
        assert(after(s, 0) == s);
        assert(frames + last =~= last);
    } else {
        let p1 = plain.skip(BLOCK_SIZE as int);
        let f1 = frames.skip(FRAME_SIZE as int);
        assert(full_blocks(plain.len()) == full_blocks(p1.len()) + 1);
        assert(rest_of(p1) =~= rest_of(plain));
        assert(after(after(s, 1), full_blocks(p1.len())) == after(s, full_blocks(plain.len())));
        lemma_frames_and_rest(after(s, 1), p1, f1, last);
        assert((frames + last).take(FRAME_SIZE as int) =~= frames.take(FRAME_SIZE as int));
        assert((frames + last).skip(FRAME_SIZE as int) =~= f1 + last);
    }
}

/// How a download stands.
pub enum FlowView {
    Running,
    Done,
    Failed(ErrorView),
}

/// The error for a frame that does not open.
pub open spec fn frame_error() -> ErrorView {
    ErrorView::Proxy("GCM auth failed: encrypted data corrupted or wrong password"@)
}

/// The error for a last frame that does not open.
pub open spec fn last_frame_error() -> ErrorView {
    ErrorView::Proxy("GCM auth failed: final block corrupted or wrong password"@)
}

/// The smaller of two numbers.
pub open spec fn least(a: nat, b: nat) -> nat {
    if a < b {
        a
    } else {
        b
    }
}

/// What is asked for of some contents: what follows the first `skip` bytes,
/// and of that no more than `want` bytes.
pub open spec fn window(plain: Seq<u8>, skip: nat, want: Option<nat>) -> Seq<u8> {
    let p = plain.skip(least(skip, plain.len()) as int);
    match want {
        Some(w) => p.take(least(w, p.len()) as int),
        None => p,
    }
}

/// The chunk in which some contents are handed on: none if they are empty.
pub open spec fn chunk_of(out: Seq<u8>) -> Seq<Seq<u8>> {
    if out.len() > 0 {
        seq![out]
    } else {
        Seq::empty()
    }
}

/// A download under way: the cipher, how many bytes of the response are still
/// to be dropped, what does not fill a frame yet, how many bytes of the
/// contents are still to be skipped and how many are still wanted.
pub struct DownloadView {
    pub cipher: CipherState,
    pub prefix: nat,
    pub buf: Seq<u8>,
    pub skip: nat,
    pub want: Option<nat>,
    pub status: FlowView,
}

impl DownloadView {
    /// The download once it has ended.
    pub open spec fn ended(self, status: FlowView) -> DownloadView {
        DownloadView { buf: Seq::empty(), status, ..self }
    }

    /// The download after some contents have been handed on. It is done when
    /// nothing more is wanted.
    pub open spec fn emitted(self, plain: Seq<u8>) -> DownloadView {
        let skip = (self.skip - least(self.skip, plain.len())) as nat;
        match self.want {
            Some(w) => {
                let left = (w - window(plain, self.skip, self.want).len()) as nat;
                let next = DownloadView { skip, want: Some(left), ..self };
                if left == 0 {
                    next.ended(FlowView::Done)
                } else {
                    next
                }
            },
            None => DownloadView { skip, ..self },
        }
    }

    /// The download after some pieces of the contents have been handed on one
    /// after the other, as far as they are wanted.
    pub open spec fn emitted_all(self, pieces: Seq<Seq<u8>>) -> DownloadView
        decreases pieces.len(),
    {
        if pieces.len() == 0 || !(self.status is Running) {
            self
        } else {
            self.emitted(pieces.first()).emitted_all(pieces.drop_first())
        }
    }

    /// The chunks that are handed on of some pieces of the contents, as far as
    /// they are wanted. Of a piece of which nothing is asked for there is none.
    pub open spec fn chunks(self, pieces: Seq<Seq<u8>>) -> Seq<Seq<u8>>
        decreases pieces.len(),
    {
        if pieces.len() == 0 || !(self.status is Running) {
            Seq::empty()
        } else {
            chunk_of(window(pieces.first(), self.skip, self.want)) + self.emitted(
                pieces.first(),
            ).chunks(pieces.drop_first())
        }
    }

    /// The download after the full frames that have come in are worked off.
    pub open spec fn worked(self) -> DownloadView
        decreases self.buf.len(),
    {
        if !(self.status is Running) || self.buf.len() < FRAME_SIZE {
            self
        } else {
            let plain = self.cipher.decrypted(self.buf.take(FRAME_SIZE as int));
            let next = DownloadView {
                cipher: after(self.cipher, 1),
                buf: self.buf.skip(FRAME_SIZE as int),
                ..self
            };
            if plain.len() == 0 {
                next.ended(FlowView::Failed(frame_error()))
            } else {
                next.emitted(plain).worked()
            }
        }
    }

    /// What is handed on of the full frames that have come in.
    pub open spec fn work_out(self) -> Seq<u8>
        decreases self.buf.len(),
    {
        if !(self.status is Running) || self.buf.len() < FRAME_SIZE {
            Seq::empty()
        } else {
            let plain = self.cipher.decrypted(self.buf.take(FRAME_SIZE as int));
            let next = DownloadView {
                cipher: after(self.cipher, 1),
                buf: self.buf.skip(FRAME_SIZE as int),
                ..self
            };
            if plain.len() == 0 {
                Seq::empty()
            } else {
                window(plain, self.skip, self.want) + next.emitted(plain).work_out()
            }
        }
    }

    /// The chunks in which the full frames that have come in are handed on, one
    /// for each frame of which something is asked for.
    pub open spec fn work_chunks(self) -> Seq<Seq<u8>>
        decreases self.buf.len(),
    {
        if !(self.status is Running) || self.buf.len() < FRAME_SIZE {
            Seq::empty()
        } else {
            let plain = self.cipher.decrypted(self.buf.take(FRAME_SIZE as int));
            let next = DownloadView {
                cipher: after(self.cipher, 1),
                buf: self.buf.skip(FRAME_SIZE as int),
                ..self
            };
            if plain.len() == 0 {
                Seq::empty()
            } else {
                chunk_of(window(plain, self.skip, self.want)) + next.emitted(plain).work_chunks()
            }
        }
    }

    /// The download with another piece of the response taken in, the bytes to
    /// be dropped taken off.
    pub open spec fn taken(self, data: Seq<u8>) -> DownloadView {
        let n = least(self.prefix, data.len());
        DownloadView {
            prefix: (self.prefix - n) as nat,
            buf: self.buf + data.skip(n as int),
            ..self
        }
    }

    /// Whether another piece of the response consists of bytes to be dropped.
    pub open spec fn drops(self, data: Seq<u8>) -> bool {
        self.prefix > 0 && data.len() <= self.prefix
    }

    /// The download after another piece of the response.
    pub open spec fn pushed(self, data: Seq<u8>) -> DownloadView {
        if !(self.status is Running) {
            self
        } else if self.drops(data) {
            DownloadView { prefix: (self.prefix - data.len()) as nat, ..self }
        } else if self.cipher.is_block() {
            self.taken(data).worked()
        } else {
            let d = data.skip(self.prefix as int);
            DownloadView {
                cipher: after(self.cipher, d.len()),
                prefix: 0,
                ..self
            }.emitted(self.cipher.decrypted(d))
        }
    }

    /// What is handed on of another piece of the response.
    pub open spec fn push_out(self, data: Seq<u8>) -> Seq<u8> {
        if !(self.status is Running) || self.drops(data) {
            Seq::empty()
        } else if self.cipher.is_block() {
            self.taken(data).work_out()
        } else {
            window(self.cipher.decrypted(data.skip(self.prefix as int)), self.skip, self.want)
        }
    }

    /// The chunks in which another piece of the response is handed on.
    pub open spec fn push_chunks(self, data: Seq<u8>) -> Seq<Seq<u8>> {
        if !(self.status is Running) || self.drops(data) {
            Seq::empty()
        } else if self.cipher.is_block() {
            self.taken(data).work_chunks()
        } else {
            chunk_of(
                window(self.cipher.decrypted(data.skip(self.prefix as int)), self.skip, self.want),
            )
        }
    }

    /// The download after some pieces of the response.
    pub open spec fn pushed_all(self, pieces: Seq<Seq<u8>>) -> DownloadView
        decreases pieces.len(),
    {
        if pieces.len() == 0 {
            self
        } else {
            self.pushed(pieces.first()).pushed_all(pieces.drop_first())
        }
    }

    /// What is handed on of some pieces of the response.
    pub open spec fn push_all_out(self, pieces: Seq<Seq<u8>>) -> Seq<u8>
        decreases pieces.len(),
    {
        if pieces.len() == 0 {
            Seq::empty()
        } else {
            self.push_out(pieces.first()) + self.pushed(pieces.first()).push_all_out(
                pieces.drop_first(),
            )
        }
    }

    /// What stands in a last frame that is not full.
    pub open spec fn last_plain(self) -> Seq<u8> {
        self.cipher.decrypted(self.buf)
    }

    /// Whether there is a last frame that is not full.
    pub open spec fn has_last(self) -> bool {
        self.status is Running && self.cipher.is_block() && self.buf.len() > 0
    }

    /// The download after the end of the response.
    pub open spec fn finished(self) -> DownloadView {
        if !(self.status is Running) {
            self
        } else if self.has_last() {
            let next = DownloadView { cipher: after(self.cipher, 1), ..self };
            if self.last_plain().len() == 0 {
                next.ended(FlowView::Failed(last_frame_error()))
            } else {
                next.emitted(self.last_plain()).ended(FlowView::Done)
            }
        } else {
            self.ended(FlowView::Done)
        }
    }

    /// What is handed on at the end of the response.
    pub open spec fn finish_out(self) -> Seq<u8> {
        if self.has_last() {
            window(self.last_plain(), self.skip, self.want)
        } else {
            Seq::empty()
        }
    }

    /// Whether the cipher can take the full frames that have come in, as far as
    /// they are worked off.
    pub open spec fn can_work(self) -> bool
        decreases self.buf.len(),
    {
        if !(self.status is Running) || self.buf.len() < FRAME_SIZE {
            true
        } else {
            let plain = self.cipher.decrypted(self.buf.take(FRAME_SIZE as int));
            let next = DownloadView {
                cipher: after(self.cipher, 1),
                buf: self.buf.skip(FRAME_SIZE as int),
                ..self
            };
            self.cipher.at < u32::MAX && (plain.len() > 0 ==> next.emitted(plain).can_work())
        }
    }

    /// Whether the cipher can take another piece of the response.
    pub open spec fn can_push(self, data: Seq<u8>) -> bool {
        if !(self.status is Running) || self.drops(data) {
            true
        } else if self.cipher.is_block() {
            self.taken(data).can_work()
        } else {
            self.cipher.at + data.len() - self.prefix <= keystream_limit(self.cipher.enc_type)
        }
    }

    /// Whether the cipher can take every piece of `n` bytes of the response, even
    /// if all of it is worked off.
    pub open spec fn has_room_for(self, n: nat) -> bool {
        let fresh = if n > self.prefix {
            (n - self.prefix) as nat
        } else {
            0
        };
        if self.cipher.is_block() {
            self.cipher.at + (self.buf.len() + fresh) / FRAME_SIZE as nat <= u32::MAX
        } else {
            self.cipher.at + fresh <= keystream_limit(self.cipher.enc_type)
        }
    }

    /// Whether the cipher can take a last frame.
    pub open spec fn can_finish(self) -> bool {
        self.cipher.is_block() && self.buf.len() > 0 ==> self.cipher.at < u32::MAX
    }

    /// Whether what has come in does not fill a frame, and something of a stream
    /// is still wanted.
    pub open spec fn wf(self) -> bool {
        &&& self.buf.len() < FRAME_SIZE
        &&& self.cipher.is_block() || self.buf.len() == 0
        &&& self.status is Running && !self.cipher.is_block() ==> self.want != Some(0nat)
    }

    /// Whether two downloads stand alike: both have ended in the same way, or
    /// they are the same.
    pub open spec fn alike(self, other: DownloadView) -> bool {
        &&& self.status == other.status
        &&& self.status is Running ==> self == other
    }
}

/// A window on two pieces is a window on the first and, with what the first
/// leaves to skip and to want, one on the second.
proof fn lemma_window(a: Seq<u8>, b: Seq<u8>, skip: nat, want: Option<nat>)
    ensures
        window(a + b, skip, want) == window(a, skip, want) + window(
            b,
            (skip - least(skip, a.len())) as nat,
            match want {
                Some(w) => Some((w - window(a, skip, want).len()) as nat),
                None => None,
            },
        ),
{
    let k = least(skip, a.len());
    let skip2 = (skip - k) as nat;
    let pa = a.skip(k as int);
    let pb = b.skip(least(skip2, b.len()) as int);
    assert((a + b).skip(least(skip, (a + b).len()) as int) =~= pa + pb);
    match want {
        Some(w) => {
            let wa = least(w, pa.len());
            assert((pa + pb).take(least(w, (pa + pb).len()) as int) =~= pa.take(wa as int) + pb.take(
                least((w - wa) as nat, pb.len()) as int,
            ));
        },
        None => {},
    }
}

/// What is asked for of some contents lies between two positions.
proof fn lemma_window_bounds(plain: Seq<u8>, skip: nat, want: Option<nat>)
    ensures
        window(plain, skip, want) == plain.subrange(
            least(skip, plain.len()) as int,
            match want {
                Some(w) => least(skip + w, plain.len()) as int,
                None => plain.len() as int,
            },
        ),
{
    let k = least(skip, plain.len()) as int;
    match want {
        Some(w) => {
            assert(plain.skip(k).take(least(w, plain.skip(k).len()) as int) =~= plain.subrange(
                k,
                least(skip + w, plain.len()) as int,
            ));
        },
        None => {
            assert(plain.skip(k) =~= plain.subrange(k, plain.len() as int));
        },
    }
}

/// Contents that are handed on piece by piece, until the pieces or the wanted
/// bytes end. Together the chunks are what is asked for of all the pieces: from
/// the first `skip` bytes on, and no more than is wanted. No chunk is empty,
/// what is still wanted is what was wanted without the bytes handed on, and a
/// piece ends the download exactly when all that was wanted has been handed on.
pub proof fn law_emitted_pieces(d: DownloadView, pieces: Seq<Seq<u8>>)
    requires
        d.status is Running,
    ensures
        ({
            let plain = pieces.flatten();
            let sent = d.chunks(pieces).flatten();
            let end = d.emitted_all(pieces);
            &&& sent == plain.subrange(
                least(d.skip, plain.len()) as int,
                match d.want {
                    Some(w) => least(d.skip + w, plain.len()) as int,
                    None => plain.len() as int,
                },
            )
            &&& sent == window(plain, d.skip, d.want)
            &&& none_empty(d.chunks(pieces))
            &&& end.want == match d.want {
                Some(w) => Some((w - sent.len()) as nat),
                None => None,
            }
            &&& end.status is Running || end.status is Done
            &&& end.status is Done <==> pieces.len() > 0 && (d.want matches Some(w) && sent.len()
                >= w)
        }),
    decreases pieces.len(),
{
    let plain = pieces.flatten();
    lemma_window_bounds(plain, d.skip, d.want);
    if pieces.len() == 0 {
        assert(d.chunks(pieces).flatten() =~= window(plain, d.skip, d.want));
    } else {
        let a = pieces.first();
        let rest = pieces.drop_first();
        let out = window(a, d.skip, d.want);
        let next = d.emitted(a);
        lemma_window(a, rest.flatten(), d.skip, d.want);
        if next.status is Running {
            law_emitted_pieces(next, rest);
        } else {
            assert(next.chunks(rest) =~= Seq::empty());
        }
        assert(next.chunks(rest).flatten() =~= window(rest.flatten(), next.skip, next.want));
        lemma_chunk(out, next.chunks(rest));
    }
}

/// Another piece that is handed on, as long as something is wanted.
pub proof fn law_emitted_next(d: DownloadView, pieces: Seq<Seq<u8>>, piece: Seq<u8>)
    requires
        d.emitted_all(pieces).status is Running,
    ensures
        ({
            let e = d.emitted_all(pieces);
            &&& d.emitted_all(pieces.push(piece)) == e.emitted(piece)
            &&& d.chunks(pieces.push(piece)) == d.chunks(pieces) + chunk_of(
                window(piece, e.skip, e.want),
            )
        }),
    decreases pieces.len(),
{
    let more = pieces.push(piece);
    if pieces.len() == 0 {
        assert(more.drop_first() =~= Seq::empty());
        let next = d.emitted(piece);
        assert(next.emitted_all(more.drop_first()) == next);
        assert(next.chunks(more.drop_first()) =~= Seq::empty());
        assert(d.chunks(more) =~= d.chunks(pieces) + chunk_of(window(piece, d.skip, d.want)));
    } else {
        let next = d.emitted(pieces.first());
        let e = d.emitted_all(pieces);
        assert(more.first() == pieces.first());
        assert(more.drop_first() =~= pieces.drop_first().push(piece));
        law_emitted_next(next, pieces.drop_first(), piece);
        assert(d.chunks(more) =~= d.chunks(pieces) + chunk_of(window(piece, e.skip, e.want)));
    }
}

/// Whether none of some chunks is empty.
pub open spec fn none_empty(chunks: Seq<Seq<u8>>) -> bool {
    forall|i: int| 0 <= i < chunks.len() ==> (#[trigger] chunks[i]).len() > 0
}

/// A chunk in front of others.
proof fn lemma_chunk(out: Seq<u8>, more: Seq<Seq<u8>>)
    ensures
        (chunk_of(out) + more).flatten() == out + more.flatten(),
        none_empty(more) ==> none_empty(chunk_of(out) + more),
{
    vstd::seq_lib::lemma_flatten_concat(chunk_of(out), more);
    chunk_of(out).lemma_flatten_one_element();
    assert(chunk_of(out).flatten() =~= out);
}

/// The chunks of the full frames that have come in.
proof fn lemma_work_chunks(d: DownloadView)
    ensures
        d.work_chunks().flatten() == d.work_out(),
        none_empty(d.work_chunks()),
    decreases d.buf.len(),
{
    if d.status is Running && d.buf.len() >= FRAME_SIZE {
        let plain = d.cipher.decrypted(d.buf.take(FRAME_SIZE as int));
        let next = DownloadView {
            cipher: after(d.cipher, 1),
            buf: d.buf.skip(FRAME_SIZE as int),
            ..d
        };
        if plain.len() > 0 {
            lemma_work_chunks(next.emitted(plain));
            lemma_chunk(window(plain, d.skip, d.want), next.emitted(plain).work_chunks());
        }
    }
}

/// The chunks in which a response is handed on are together what is handed on
/// of it, and none of them is empty.
pub proof fn law_download_chunks(d: DownloadView, data: Seq<u8>)
    ensures
        d.push_chunks(data).flatten() == d.push_out(data),
        none_empty(d.push_chunks(data)),
        chunk_of(d.finish_out()).flatten() == d.finish_out(),
        none_empty(chunk_of(d.finish_out())),
{
    lemma_work_chunks(d.taken(data));
    lemma_chunk(d.push_out(data), Seq::empty());
    lemma_chunk(d.finish_out(), Seq::empty());
    assert(chunk_of(d.push_out(data)) + Seq::<Seq<u8>>::empty() =~= chunk_of(d.push_out(data)));
    assert(chunk_of(d.finish_out()) + Seq::<Seq<u8>>::empty() =~= chunk_of(d.finish_out()));
    assert(d.push_out(data) + Seq::<u8>::empty() =~= d.push_out(data));
    assert(d.finish_out() + Seq::<u8>::empty() =~= d.finish_out());
}

/// Working off what has come in, and then what comes in behind it, is working
/// off both at once.
proof fn lemma_work(d: DownloadView, more: Seq<u8>)
    requires
        d.cipher.is_block(),
    ensures
        ({
            let both = DownloadView { buf: d.buf + more, ..d };
            let first = d.worked();
            let second = if first.status is Running {
                DownloadView { buf: first.buf + more, ..first }
            } else {
                first
            };
            &&& d.status is Running ==> second.worked().alike(both.worked())
            &&& d.status is Running ==> d.work_out() + second.work_out() == both.work_out()
        }),
    decreases d.buf.len(),
{
    let both = DownloadView { buf: d.buf + more, ..d };
    if d.status is Running && d.buf.len() >= FRAME_SIZE {
        let plain = d.cipher.decrypted(d.buf.take(FRAME_SIZE as int));
        let next = DownloadView {
            cipher: after(d.cipher, 1),
            buf: d.buf.skip(FRAME_SIZE as int),
            ..d
        };
        assert(both.buf.take(FRAME_SIZE as int) =~= d.buf.take(FRAME_SIZE as int));
        assert(both.buf.skip(FRAME_SIZE as int) =~= next.buf + more);
        if plain.len() > 0 {
            let e = next.emitted(plain);
            lemma_work(e, more);
            let first = d.worked();
            assert(first == e.worked());
            let eb = DownloadView { buf: next.buf + more, ..next }.emitted(plain);
            if e.status is Running {
                assert(eb == DownloadView { buf: e.buf + more, ..e });
                let second = if first.status is Running {
                    DownloadView { buf: first.buf + more, ..first }
                } else {
                    first
                };
                assert(d.work_out() + second.work_out() =~= both.work_out());
            } else {
                assert(eb == e);
                assert(d.work_out() + first.work_out() =~= both.work_out());
            }
        } else {
            assert(d.work_out() + d.worked().work_out() =~= both.work_out());
        }
    } else if d.status is Running {
        assert(d.work_out() + both.work_out() =~= both.work_out());
    }
}

/// Taking in a piece keeps a download in order.
proof fn lemma_worked_wf(d: DownloadView)
    requires
        d.cipher.is_block(),
        !(d.status is Running) ==> d.buf.len() < FRAME_SIZE,
    ensures
        d.worked().wf(),
        d.worked().cipher.is_block(),
        d.worked().cipher.enc_type == d.cipher.enc_type,
    decreases d.buf.len(),
{
    if d.status is Running && d.buf.len() >= FRAME_SIZE {
        let plain = d.cipher.decrypted(d.buf.take(FRAME_SIZE as int));
        let next = DownloadView {
            cipher: after(d.cipher, 1),
            buf: d.buf.skip(FRAME_SIZE as int),
            ..d
        };
        if plain.len() > 0 {
            lemma_worked_wf(next.emitted(plain));
        }
    }
}

/// Frames that are worked off leave less than a frame.
pub proof fn lemma_worked_len(d: DownloadView)
    requires
        !(d.status is Running) ==> d.buf.len() < FRAME_SIZE,
    ensures
        d.worked().buf.len() < FRAME_SIZE,
        d.worked().cipher.enc_type == d.cipher.enc_type,
    decreases d.buf.len(),
{
    if d.status is Running && d.buf.len() >= FRAME_SIZE {
        let plain = d.cipher.decrypted(d.buf.take(FRAME_SIZE as int));
        let next = DownloadView {
            cipher: after(d.cipher, 1),
            buf: d.buf.skip(FRAME_SIZE as int),
            ..d
        };
        if plain.len() > 0 {
            lemma_worked_len(next.emitted(plain));
        }
    }
}

/// A cipher that can take as many frames as have come in can take those that
/// are worked off.
proof fn lemma_can_work(d: DownloadView)
    requires
        d.cipher.at + d.buf.len() / FRAME_SIZE as nat <= u32::MAX,
    ensures
        d.can_work(),
    decreases d.buf.len(),
{
    if d.status is Running && d.buf.len() >= FRAME_SIZE {
        let plain = d.cipher.decrypted(d.buf.take(FRAME_SIZE as int));
        let next = DownloadView {
            cipher: after(d.cipher, 1),
            buf: d.buf.skip(FRAME_SIZE as int),
            ..d
        };
        if plain.len() > 0 {
            lemma_can_work(next.emitted(plain));
        }
    }
}

/// A piece for which there is room can be taken.
pub proof fn lemma_room(d: DownloadView, data: Seq<u8>)
    requires
        d.has_room_for(data.len()),
    ensures
        d.can_push(data),
{
    if d.status is Running && !d.drops(data) && d.cipher.is_block() {
        lemma_can_work(d.taken(data));
    }
}

/// Two pieces of a response, the first of which is dropped.
proof fn lemma_pieces_dropped(d: DownloadView, a: Seq<u8>, b: Seq<u8>)
    requires
        d.wf(),
        d.status is Running,
        d.drops(a),
    ensures
        d.pushed(a).pushed(b).alike(d.pushed(a + b)),
        d.pushed(a).push_out(b) == d.push_out(a + b),
{
    let d1 = d.pushed(a);
    if d.drops(a + b) {
        if d1.prefix == 0 {
            assert(b.len() == 0);
            assert(b.skip(0) =~= Seq::empty());
            assert(d1.buf + b.skip(0) =~= d1.buf);
            assert(d1.taken(b) == d1);
            assert(d1.cipher.decrypted(b.skip(0)) =~= Seq::empty() || d1.cipher.is_block());
        }
    } else {
        assert((a + b).skip(d.prefix as int) =~= b.skip(d1.prefix as int));
    }
}

/// Two pieces of a response to a cipher that works on blocks.
proof fn lemma_pieces_block(d: DownloadView, a: Seq<u8>, b: Seq<u8>)
    requires
        d.wf(),
        d.status is Running,
        !d.drops(a),
        d.cipher.is_block(),
    ensures
        d.pushed(a).pushed(b).alike(d.pushed(a + b)),
        d.push_out(a) + d.pushed(a).push_out(b) == d.push_out(a + b),
{
    let t = d.taken(a);
    let ab = a + b;
    assert(!d.drops(ab));
    assert(ab.skip(d.prefix as int) =~= a.skip(d.prefix as int) + b);
    assert(d.taken(ab).buf =~= t.buf + b);
    lemma_work(t, b);
    lemma_worked_wf(t);
    lemma_prefix(t);
    let first = t.worked();
    assert(first == d.pushed(a));
    assert(b.skip(0) =~= b);
    if first.status is Running {
        assert(first.taken(b) == DownloadView { buf: first.buf + b, ..first });
    }
}

/// Two pieces of a response to a cipher that works on a stream.
proof fn lemma_pieces_stream(d: DownloadView, a: Seq<u8>, b: Seq<u8>)
    requires
        d.wf(),
        d.status is Running,
        !d.drops(a),
        !d.cipher.is_block(),
    ensures
        d.pushed(a).pushed(b).alike(d.pushed(a + b)),
        d.push_out(a) + d.pushed(a).push_out(b) == d.push_out(a + b),
{
    let ab = a + b;
    let da = a.skip(d.prefix as int);
    assert(!d.drops(ab));
    assert(ab.skip(d.prefix as int) =~= da + b);
    assert(b.skip(0) =~= b);
    let pa = d.cipher.decrypted(da);
    let pb = after(d.cipher, da.len()).decrypted(b);
    assert(d.cipher.decrypted(da + b) =~= pa + pb);
    lemma_window(pa, pb, d.skip, d.want);
    let d1 = d.pushed(a);
    if d1.status is Running {
        assert(d1.buf =~= d.buf);
    } else {
        assert(d1.push_out(b) =~= Seq::empty());
        assert(window(pb, d1.skip, d1.want) =~= Seq::empty());
    }
}

/// It does not matter into which pieces a response is cut: two pieces are
/// handed on as one piece made of both is, and the download stands alike.
pub proof fn law_download_pieces(d: DownloadView, a: Seq<u8>, b: Seq<u8>)
    requires
        d.wf(),
    ensures
        d.pushed(a).pushed(b).alike(d.pushed(a + b)),
        d.push_out(a) + d.pushed(a).push_out(b) == d.push_out(a + b),
{
    if !(d.status is Running) {
        assert(d.push_out(a) + d.push_out(b) =~= d.push_out(a + b));
    } else if d.drops(a) {
        lemma_pieces_dropped(d, a, b);
        assert(d.push_out(a) + d.pushed(a).push_out(b) =~= d.pushed(a).push_out(b));
    } else if d.cipher.is_block() {
        lemma_pieces_block(d, a, b);
    } else {
        lemma_pieces_stream(d, a, b);
    }
}

/// A piece keeps a download in order.
proof fn lemma_pushed_wf(d: DownloadView, data: Seq<u8>)
    requires
        d.wf(),
    ensures
        d.pushed(data).wf(),
        d.pushed(data).cipher.enc_type == d.cipher.enc_type,
{
    if d.status is Running && !d.drops(data) && d.cipher.is_block() {
        lemma_worked_wf(d.taken(data));
    }
}

/// It does not matter into how many pieces a response is cut, nor where: they
/// are handed on as one piece made of all of them is, and the download stands
/// alike.
pub proof fn law_download_all_pieces(d: DownloadView, pieces: Seq<Seq<u8>>)
    requires
        d.wf(),
    ensures
        d.pushed_all(pieces).alike(d.pushed(pieces.flatten())),
        d.push_all_out(pieces) == d.push_out(pieces.flatten()),
    decreases pieces.len(),
{
    if pieces.len() == 0 {
        let none = Seq::<u8>::empty();
        assert(none.skip(0) =~= none);
        assert(d.buf + none =~= d.buf);
        assert(d.taken(none) == d);
        assert(d.cipher.is_block() || d.cipher.decrypted(none) =~= none);
        assert(d.push_out(none) =~= none);
    } else {
        let a = pieces.first();
        let rest = pieces.drop_first();
        lemma_pushed_wf(d, a);
        law_download_all_pieces(d.pushed(a), rest);
        law_download_pieces(d, a, rest.flatten());
    }
}

/// Working frames off does not change what is to be dropped.
proof fn lemma_prefix(d: DownloadView)
    ensures
        d.worked().prefix == d.prefix,
        d.worked().status is Running ==> d.status is Running,
    decreases d.buf.len(),
{
    if d.status is Running && d.buf.len() >= FRAME_SIZE {
        let plain = d.cipher.decrypted(d.buf.take(FRAME_SIZE as int));
        let next = DownloadView {
            cipher: after(d.cipher, 1),
            buf: d.buf.skip(FRAME_SIZE as int),
            ..d
        };
        if plain.len() > 0 {
            lemma_prefix(next.emitted(plain));
        }
    }
}

impl DownloadView {
    /// A download that begins.
    pub open spec fn begin(
        cipher: CipherState,
        prefix: nat,
        skip: nat,
        want: Option<nat>,
    ) -> DownloadView {
        DownloadView { cipher, prefix, buf: Seq::empty(), skip, want, status: FlowView::Running }
    }

    /// Everything that is handed on of a response.
    pub open spec fn whole_out(self, body: Seq<u8>) -> Seq<u8> {
        self.push_out(body) + self.pushed(body).finish_out()
    }

    /// Whether exactly some contents are handed on of a response, and nothing
    /// fails.
    #[verifier::opaque]
    pub open spec fn delivers(self, body: Seq<u8>, contents: Seq<u8>) -> bool {
        &&& self.whole_out(body) == contents
        &&& self.pushed(body).finished().status is Done
    }
}

/// Frames of a download that hold an encryption of some contents.
proof fn lemma_run(d: DownloadView, plain: Seq<u8>)
    requires
        d.cipher.is_block(),
        d.status is Running,
        is_encryption(d.cipher, plain, d.buf),
    ensures
        d.work_out() + d.worked().finish_out() == window(plain, d.skip, d.want),
        d.worked().finished().status is Done,
    decreases plain.len(),
{
    if plain.len() == 0 {
        assert(window(plain, d.skip, d.want) =~= Seq::empty());
        assert(d.work_out() + d.worked().finish_out() =~= Seq::empty());
    } else if plain.len() < BLOCK_SIZE {
        assert(d.work_out() + d.worked().finish_out() =~= window(plain, d.skip, d.want));
    } else {
        let piece = plain.take(BLOCK_SIZE as int);
        let rest = plain.skip(BLOCK_SIZE as int);
        assert(piece + rest =~= plain);
        lemma_window(piece, rest, d.skip, d.want);
        let next = DownloadView {
            cipher: after(d.cipher, 1),
            buf: d.buf.skip(FRAME_SIZE as int),
            ..d
        };
        let e = next.emitted(piece);
        if e.status is Running {
            lemma_run(e, rest);
            assert(d.worked() == e.worked());
            assert(d.work_out() == window(piece, d.skip, d.want) + e.work_out());
            assert(d.work_out() + d.worked().finish_out() =~= window(plain, d.skip, d.want));
        } else {
            assert(window(rest, e.skip, e.want) =~= Seq::empty());
            assert(d.work_out() + d.worked().finish_out() =~= window(plain, d.skip, d.want));
        }
    }
}

/// A download of what an upload sent hands on what is asked for of the
/// contents that were uploaded, and does not fail.
pub proof fn law_download_of_upload(
    s: CipherState,
    plain: Seq<u8>,
    header: Seq<u8>,
    data: Seq<u8>,
    skip: nat,
    want: Option<nat>,
)
    requires
        is_encryption(s, plain, data),
    ensures
        DownloadView::begin(s, header.len(), skip, want).delivers(
            header + data,
            window(plain, skip, want),
        ),
{
    reveal(DownloadView::delivers);
    let d = DownloadView::begin(s, header.len(), skip, want);
    let body = header + data;
    assert(body.skip(header.len() as int) =~= data);
    if d.drops(body) {
        assert(data.len() == 0);
        if !s.is_block() {
            lemma_xored_twice(s, plain);
            assert(plain.len() == 0);
        }
        assert(window(plain, skip, want) =~= Seq::empty());
        assert(d.whole_out(body) =~= Seq::empty());
    } else if s.is_block() {
        let t = d.taken(body);
        assert(t.buf =~= data);
        lemma_run(t, plain);
    } else {
        lemma_xored_twice(s, plain);
        let e = d.pushed(body);
        assert(d.whole_out(body) =~= window(plain, skip, want));
    }
}

/// The encryption of the contents from a block on.
pub proof fn lemma_encryption_tail(s: CipherState, plain: Seq<u8>, data: Seq<u8>, m: nat)
    requires
        s.is_block(),
        is_encryption(s, plain, data),
        m * BLOCK_SIZE <= plain.len(),
    ensures
        m * FRAME_SIZE <= data.len(),
        is_encryption(
            after(s, m),
            plain.skip(m * BLOCK_SIZE as int),
            data.skip(m * FRAME_SIZE as int),
        ),
    decreases m,
{
    if m == 0 {
        assert(after(s, 0) == s);
        assert(plain.skip(0) =~= plain);
        assert(data.skip(0) =~= data);
    } else {
        let p1 = plain.skip(BLOCK_SIZE as int);
        let d1 = data.skip(FRAME_SIZE as int);
        let k = (m - 1) as nat;
        lemma_encryption_tail(after(s, 1), p1, d1, k);
        assert(after(after(s, 1), k) == after(s, m));
        assert(p1.skip(k * BLOCK_SIZE as int) =~= plain.skip(m * BLOCK_SIZE as int));
        assert(d1.skip(k * FRAME_SIZE as int) =~= data.skip(m * FRAME_SIZE as int));
    }
}

/// The encryption of the contents up to a block.
proof fn lemma_encryption_head(s: CipherState, plain: Seq<u8>, data: Seq<u8>, m: nat)
    requires
        s.is_block(),
        is_encryption(s, plain, data),
    ensures
        is_encryption(
            s,
            plain.take(least(m * BLOCK_SIZE as nat, plain.len()) as int),
            data.take(least(m * FRAME_SIZE as nat, data.len()) as int),
        ),
    decreases m,
{
    let p = plain.take(least(m * BLOCK_SIZE as nat, plain.len()) as int);
    let d = data.take(least(m * FRAME_SIZE as nat, data.len()) as int);
    if m == 0 {
        assert(p.len() == 0 && d.len() == 0);
    } else if plain.len() < BLOCK_SIZE {
        assert(p =~= plain);
        assert(d =~= data);
    } else {
        let p1 = plain.skip(BLOCK_SIZE as int);
        let d1 = data.skip(FRAME_SIZE as int);
        let k = (m - 1) as nat;
        lemma_encryption_head(after(s, 1), p1, d1, k);
        assert(p.take(BLOCK_SIZE as int) =~= plain.take(BLOCK_SIZE as int));
        assert(d.take(FRAME_SIZE as int) =~= data.take(FRAME_SIZE as int));
        assert(p.skip(BLOCK_SIZE as int) =~= p1.take(
            least(k * BLOCK_SIZE as nat, p1.len()) as int,
        ));
        assert(d.skip(FRAME_SIZE as int) =~= d1.take(
            least(k * FRAME_SIZE as nat, d1.len()) as int,
        ));
    }
}

/// The last byte of an encrypted file that is needed for `want` bytes of the
/// contents from `start` on, if the file is that long.
pub open spec fn cipher_end(t: EncType, start: nat, want: nat) -> int {
    if t.spec_kind() == CipherKind::Stream {
        CYPTO_META_SIZE + start + want - 1
    } else {
        let last = (start + if want > 0 { (want - 1) as nat } else { 0 }) / BLOCK_SIZE as nat;
        CYPTO_META_SIZE + (last + 1) * FRAME_SIZE - 1
    }
}

/// The cipher that opens a range: moved to the block, or to the byte of the
/// stream, at which the range begins.
pub open spec fn range_cipher(s: CipherState, start: nat) -> CipherState {
    if s.is_block() {
        after(s, start / BLOCK_SIZE as nat)
    } else {
        after(s, start)
    }
}

/// A range of the contents can be had from that part of the encrypted file
/// which is asked of the upstream server, without the rest of the file.
pub proof fn law_range_download(
    s: CipherState,
    plain: Seq<u8>,
    header: Seq<u8>,
    data: Seq<u8>,
    start: nat,
    want: nat,
)
    requires
        is_encryption(s, plain, data),
        header.len() == CYPTO_META_SIZE,
        want > 0,
        start + want <= plain.len(),
    ensures
        ({
            let file = header + data;
            let t = s.enc_type;
            let from = cipher_offset(t, start);
            let end = least(cipher_end(t, start, want) as nat, (file.len() - 1) as nat);
            let d = DownloadView::begin(
                range_cipher(s, start),
                0,
                plain_skip(t, start) as nat,
                Some(want),
            );
            let body = file.subrange(from, (end + 1) as int);
            &&& 0 <= from <= end < file.len()
            &&& d.delivers(body, plain.subrange(start as int, (start + want) as int))
        }),
{
    let file = header + data;
    let t = s.enc_type;
    let from = cipher_offset(t, start);
    let end = least(cipher_end(t, start, want) as nat, (file.len() - 1) as nat);
    let body = file.subrange(from, (end + 1) as int);
    let none = Seq::<u8>::empty();
    assert(none + body =~= body);
    if s.is_block() {
        let m = start / BLOCK_SIZE as nat;
        let last = ((start + want - 1) as nat) / BLOCK_SIZE as nat;
        let j = (last + 1 - m) as nat;
        lemma_encryption_tail(s, plain, data, m);
        let p1 = plain.skip(m * BLOCK_SIZE as int);
        let d1 = data.skip(m * FRAME_SIZE as int);
        lemma_encryption_head(after(s, m), p1, d1, j);
        let p2 = p1.take(least(j * BLOCK_SIZE as nat, p1.len()) as int);
        let d2 = d1.take(least(j * FRAME_SIZE as nat, d1.len()) as int);
        lemma_encryption_len(after(s, m), p1, d1);
        assert(d2 =~= body);
        law_download_of_upload(
            after(s, m),
            p2,
            none,
            d2,
            plain_skip(t, start) as nat,
            Some(want),
        );
        assert(window(p2, plain_skip(t, start) as nat, Some(want)) =~= plain.subrange(
            start as int,
            (start + want) as int,
        ));
    } else {
        let p = plain.subrange(start as int, (start + want) as int);
        assert(body =~= after(s, start).encrypted(p));
        law_download_of_upload(after(s, start), p, none, body, 0, Some(want));
        assert(window(p, 0, Some(want)) =~= p);
    }
}

/// How long what some contents are encrypted to is: a tag for each block.
pub open spec fn sealed_len(t: EncType, n: nat) -> nat {
    if t.spec_kind() == CipherKind::Stream {
        n
    } else {
        n + TAG_SIZE as nat * block_count(n)
    }
}

/// An encryption is as long as the contents and the tags.
pub proof fn lemma_encryption_len(s: CipherState, plain: Seq<u8>, data: Seq<u8>)
    requires
        is_encryption(s, plain, data),
    ensures
        data.len() == sealed_len(s.enc_type, plain.len()),
    decreases plain.len(),
{
    if s.is_block() && plain.len() >= BLOCK_SIZE {
        lemma_encryption_len(
            after(s, 1),
            plain.skip(BLOCK_SIZE as int),
            data.skip(FRAME_SIZE as int),
        );
        let n = plain.len();
        assert(block_count(n) == 1 + block_count((n - BLOCK_SIZE) as nat));
    }
}

/// The length that clients are told for an uploaded file is the length of the
/// contents that were uploaded.
pub proof fn law_length_of_upload(s: CipherState, plain: Seq<u8>, data: Seq<u8>)
    requires
        is_encryption(s, plain, data),
        CYPTO_META_SIZE + data.len() <= u64::MAX,
    ensures
        plaintext_len(s.enc_type, (CYPTO_META_SIZE + data.len()) as u64) == Some(
            plain.len() as u64,
        ),
        plain.len() <= u64::MAX,
{
    lemma_encryption_len(s, plain, data);
}

/// What stands in some frames, opened one after the other.
pub open spec fn opened(s: CipherState, frames: Seq<Seq<u8>>) -> Seq<u8>
    decreases frames.len(),
{
    if frames.len() == 0 {
        Seq::empty()
    } else {
        s.decrypted(frames.first()) + opened(after(s, 1), frames.drop_first())
    }
}

/// Whether some data are frames: all are full but the last, which may be
/// shorter, but not empty.
pub open spec fn are_frames(frames: Seq<Seq<u8>>) -> bool {
    forall|i: int|
        0 <= i < frames.len() ==> 0 < (#[trigger] frames[i]).len() <= FRAME_SIZE && (i
            < frames.len() - 1 ==> frames[i].len() == FRAME_SIZE)
}

/// Whether a frame is the first of some frames that does not open.
pub open spec fn first_bad(s: CipherState, frames: Seq<Seq<u8>>, j: int) -> bool {
    &&& 0 <= j < frames.len()
    &&& forall|i: int| 0 <= i < j ==> after(s, i as nat).decrypted(#[trigger] frames[i]).len() > 0
    &&& after(s, j as nat).decrypted(frames[j]).len() == 0
}

/// How a download ends whose first bad frame is the one at `j`: with an error,
/// unless all that is wanted has been handed on before.
pub open spec fn bad_end(
    s: CipherState,
    frames: Seq<Seq<u8>>,
    j: int,
    skip: nat,
    want: Option<nat>,
) -> FlowView {
    let good = opened(s, frames.take(j));
    if j > 0 && (want matches Some(w) && window(good, skip, want).len() >= w) {
        FlowView::Done
    } else if frames[j].len() == FRAME_SIZE {
        FlowView::Failed(frame_error())
    } else {
        FlowView::Failed(last_frame_error())
    }
}

/// Frames that have come in, one of which does not open.
proof fn lemma_bad_frame(d: DownloadView, frames: Seq<Seq<u8>>, j: int)
    requires
        d.cipher.is_block(),
        d.status is Running,
        d.buf == frames.flatten(),
        are_frames(frames),
        first_bad(d.cipher, frames, j),
    ensures
        ({
            let end = bad_end(d.cipher, frames, j, d.skip, d.want);
            &&& d.work_out() + d.worked().finish_out() == window(
                opened(d.cipher, frames.take(j)),
                d.skip,
                d.want,
            )
            &&& d.worked().finished().status == end
            &&& frames[j].len() == FRAME_SIZE ==> d.worked().status == end
        }),
    decreases frames.len(),
{
    let first = frames.first();
    let rest = frames.drop_first();
    let s = d.cipher;
    let good = opened(s, frames.take(j));
    assert(first == frames[0]);
    assert(after(s, 0) == s);
    if first.len() < FRAME_SIZE {
        assert(rest =~= Seq::empty());
        frames.lemma_flatten_one_element();
        assert(frames.take(0) =~= Seq::empty());
        assert(d.worked() == d);
        assert(d.work_out() + d.finish_out() =~= window(good, d.skip, d.want));
    } else {
        assert(d.buf.take(FRAME_SIZE as int) =~= first);
        assert(d.buf.skip(FRAME_SIZE as int) =~= rest.flatten());
        if j == 0 {
            assert(frames.take(0) =~= Seq::empty());
            assert(d.work_out() + d.worked().finish_out() =~= window(good, d.skip, d.want));
        } else {
            let plain = s.decrypted(first);
            let next = DownloadView { cipher: after(s, 1), buf: rest.flatten(), ..d };
            let e = next.emitted(plain);
            let good1 = opened(after(s, 1), rest.take(j - 1));
            assert(frames.take(j).drop_first() =~= rest.take(j - 1));
            assert(good == plain + good1);
            lemma_window(plain, good1, d.skip, d.want);
            assert forall|i: int| 0 <= i < rest.len() implies 0 < (#[trigger] rest[i]).len()
                <= FRAME_SIZE && (i < rest.len() - 1 ==> rest[i].len() == FRAME_SIZE) by {
                assert(rest[i] == frames[i + 1]);
            }
            assert forall|i: int| 0 <= i < j - 1 implies after(after(s, 1), i as nat).decrypted(
                #[trigger] rest[i],
            ).len() > 0 by {
                assert(rest[i] == frames[i + 1]);
                assert(after(after(s, 1), i as nat) == after(s, (i + 1) as nat));
            }
            assert(after(after(s, 1), (j - 1) as nat) == after(s, j as nat));
            assert(rest[j - 1] == frames[j]);
            assert(d.worked() == e.worked());
            assert(d.work_out() == window(plain, d.skip, d.want) + e.work_out());
            if e.status is Running {
                lemma_bad_frame(e, rest, j - 1);
                assert(d.work_out() + d.worked().finish_out() =~= window(good, d.skip, d.want));
            } else {
                assert(window(good1, e.skip, e.want) =~= Seq::empty());
                assert(d.work_out() + d.worked().finish_out() =~= window(good, d.skip, d.want));
            }
        }
    }
}

/// A frame that does not open ends a download with an error: what stands in the
/// frames before it is handed on, as far as it is asked for, and neither it nor
/// anything behind it. That holds whichever frame it is, whatever is dropped
/// before the frames, and whatever the pieces in which the response comes. Only
/// a download that has all it wants before it comes to that frame does not fail.
pub proof fn law_bad_frame_fails(
    s: CipherState,
    header: Seq<u8>,
    frames: Seq<Seq<u8>>,
    j: int,
    skip: nat,
    want: Option<nat>,
    pieces: Seq<Seq<u8>>,
)
    requires
        s.is_block(),
        are_frames(frames),
        first_bad(s, frames, j),
        pieces.flatten() == header + frames.flatten(),
    ensures
        ({
            let d = DownloadView::begin(s, header.len(), skip, want);
            let e = d.pushed_all(pieces);
            let end = bad_end(s, frames, j, skip, want);
            &&& d.push_all_out(pieces) + e.finish_out() == window(
                opened(s, frames.take(j)),
                skip,
                want,
            )
            &&& e.finished().status == end
            &&& frames[j].len() == FRAME_SIZE ==> e.status == end
        }),
{
    let d = DownloadView::begin(s, header.len(), skip, want);
    let body = header + frames.flatten();
    law_download_all_pieces(d, pieces);
    assert(frames.first() == frames[0]);
    assert(frames.flatten().len() > 0);
    assert(!d.drops(body));
    let t = d.taken(body);
    assert(t.buf =~= frames.flatten());
    lemma_bad_frame(t, frames, j);
}

/// How much an upload and a download can still take: blocks and frames as long as
/// their numbers fit in 32 bits, and of a stream as much as there is of the
/// keystream.
pub proof fn law_room(up: UploadView, d: DownloadView, n: nat)
    ensures
        up.cipher.is_block() ==> (up.can_push(n) <==> up.cipher.at + (up.buf.len() + n) / 65536
            <= 0xffff_ffff),
        up.cipher.is_block() ==> (up.can_finish() <==> up.buf.len() == 0 || up.cipher.at
            < 0xffff_ffff),
        up.cipher.enc_type == EncType::ChaCha20 ==> (up.can_push(n) <==> up.cipher.at + n
            <= 274877906880),
        up.cipher.enc_type == EncType::AesCtr ==> (up.can_push(n) <==> up.cipher.at + n
            <= 0xffff_ffff_ffff_ffff),
        !up.cipher.is_block() ==> up.can_finish(),
        ({
            let fresh = if n > d.prefix {
                n - d.prefix
            } else {
                0
            };
            &&& d.cipher.is_block() ==> (d.has_room_for(n) <==> d.cipher.at + (d.buf.len() + fresh)
                / 65552 <= 0xffff_ffff)
            &&& d.cipher.enc_type == EncType::ChaCha20 ==> (d.has_room_for(n) <==> d.cipher.at
                + fresh <= 274877906880)
            &&& d.cipher.enc_type == EncType::AesCtr ==> (d.has_room_for(n) <==> d.cipher.at
                + fresh <= 0xffff_ffff_ffff_ffff)
        }),
        d.cipher.is_block() ==> (d.can_finish() <==> d.buf.len() == 0 || d.cipher.at
            < 0xffff_ffff),
        !d.cipher.is_block() ==> d.can_finish(),
{
}

/// The errors for frames that do not open.
pub proof fn law_frame_errors()
    ensures
        frame_error() == ErrorView::Proxy(
            "GCM auth failed: encrypted data corrupted or wrong password"@,
        ),
        last_frame_error() == ErrorView::Proxy(
            "GCM auth failed: final block corrupted or wrong password"@,
        ),
{
}

} // verus!
