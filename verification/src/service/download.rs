//! The download of a file that may be encrypted: what is asked of the upstream
//! server, one request after the other, until the answer is known.
use axum::http::header::{HeaderMap, HeaderValue};
use vstd::prelude::*;
use vstd::utf8::encode_utf8;

use crate::config::EncryptionConfig;
use crate::crypto::crypto_meta::CryptoMeta;
use crate::crypto::model::{
    cipher_offset, keystream_limit, nonce_size, opt_bytes, plain_skip, plaintext_len, CipherState,
    BLOCK_SIZE, FRAME_SIZE,
};
use crate::crypto::{upper, CipherKind, EncType, CYPTO_META_SIZE};
use crate::errors::{ErrorView, ProxyError};
use crate::service::cipher_engine::{
    cipher_of_file, is_encrypted_file, law_file_range, law_file_round_trip, past_header, CipherBox,
    CipherEngine, DecryptJob,
};
use crate::service::flow::{after, cipher_end, range_cipher, DownloadView};
use crate::service::headers::{
    asks_range, copy_of, first_value, has_range, has_room, header_values, lemma_names,
    strip_content_length, without_length, Fields,
};
use crate::service::proxy::{
    is_success, record_of, status_record, BodyView, Record, Reply, ReplyBody, ReplyView, Request,
    RequestView, Response, ResponseView,
};
use crate::service::ranges::{
    content_length, content_range_total, law_resolved_range, length_of, parse_range, range_of,
    resolvable, resolve_range, resolved, total_of, RangeReq,
};
use crate::service::requests::{
    ask_first_byte, ask_header, ask_length, ask_part, ask_whole, first_byte_request, forward,
    length_request, no_part_fields, no_part_headers, part_fields, part_headers, part_request,
    plain_request, probe_request, whole_fields, whole_headers, whole_request,
};
use crate::text::{decimal, join2};

verus! {

/// What a download is about: the address of the file, the headers of the
/// client's request, the password and the algorithm of the configuration.
pub struct FileContext {
    pub url: Seq<char>,
    pub fields: Fields,
    pub password: Seq<u8>,
    pub enc_type: Option<EncType>,
}

/// Which response a download waits for.
pub enum StageView {
    /// That to a request that is forwarded as it is.
    Plain,
    /// That with the header of the file.
    Probe,
    /// That with the length of the file; `again` if it was asked before.
    Length { cipher: CipherState, again: bool, range: Option<RangeReq> },
    /// That with the whole file.
    Whole { cipher: CipherState, plain_len: Option<u64> },
    /// That with a part of the file.
    Part { cipher: CipherState, file_len: u64, start: u64, end: u64 },
}

/// What a download does next.
pub enum StepView {
    /// It asks and waits for the response.
    Ask(StageView, RequestView),
    /// It fails.
    Fail(ErrorView),
    /// It answers, once it is noted what the exchange says of the server.
    Answer(Record, ReplyView),
}

/// The cipher of the file whose first bytes are given.
pub open spec fn probed(body: Seq<u8>, password: Seq<u8>) -> Option<CipherState> {
    if body.len() >= CYPTO_META_SIZE {
        cipher_of_file(body, password)
    } else {
        None
    }
}

/// The type of the contents that a response announces.
pub open spec fn type_of(fields: Fields) -> Option<Seq<u8>> {
    if fields.contains_key("content-type"@) {
        Some(fields["content-type"@][0])
    } else {
        None
    }
}

/// The cipher that decrypts a part of a file from byte `start` of its contents
/// on: a block cipher at the block, whose number is kept in 32 bits; a stream
/// cipher behind the header and the bytes before.
pub open spec fn part_cipher(cipher: CipherState, start: u64) -> CipherState {
    if cipher.is_block() {
        CipherState { at: ((start / BLOCK_SIZE as u64 + 1) as u32) as nat, ..cipher }
    } else {
        after(cipher, CYPTO_META_SIZE as nat + start as nat)
    }
}

/// The last byte of an encrypted file that a part is asked up to.
pub open spec fn part_end(t: EncType, start: u64, end: u64, cipher_len: u64) -> int {
    let needed = cipher_end(t, start as nat, (end - start + 1) as nat);
    if needed < cipher_len - 1 {
        needed
    } else {
        cipher_len - 1
    }
}

impl FileContext {
    /// What is done for a file that is not encrypted.
    pub open spec fn plainly(self) -> StepView {
        StepView::Ask(StageView::Plain, plain_request("GET"@, self.url, self.fields))
    }

    /// What is done first.
    pub open spec fn first(self) -> StepView {
        if self.enc_type is Some {
            StepView::Ask(StageView::Probe, probe_request(self.url, self.fields))
        } else {
            self.plainly()
        }
    }

    /// What is done for a whole file, whose length may be known.
    pub open spec fn wholly(self, cipher: CipherState, known: Option<u64>) -> StepView {
        match known {
            Some(len) => StepView::Ask(
                StageView::Whole { cipher, plain_len: plaintext_len(cipher.enc_type, len) },
                whole_request(self.url, self.fields),
            ),
            None => StepView::Ask(
                StageView::Length { cipher, again: false, range: None },
                length_request(self.url, self.fields),
            ),
        }
    }

    /// What is done for a part of a file whose length is known.
    pub open spec fn partly(self, cipher: CipherState, req: RangeReq, len: u64) -> StepView {
        match plaintext_len(cipher.enc_type, len) {
            None => self.wholly(cipher, Some(len)),
            Some(file_len) => match resolved(req, file_len) {
                None => StepView::Answer(
                    Record::Nothing,
                    ReplyView {
                        status: 416,
                        headers: no_part_fields(file_len as nat),
                        body: BodyView::Empty,
                    },
                ),
                Some((start, end)) => StepView::Ask(
                    StageView::Part { cipher, file_len, start, end },
                    part_request(
                        self.url,
                        self.fields,
                        cipher_offset(cipher.enc_type, start as nat) as nat,
                        part_end(cipher.enc_type, start, end, len) as nat,
                    ),
                ),
            },
        }
    }

    /// What is done for an encrypted file, whose length may be known.
    pub open spec fn encrypted(self, cipher: CipherState, known: Option<u64>) -> StepView {
        if !asks_range(self.fields) {
            self.wholly(cipher, known)
        } else {
            match (range_of(self.fields), known) {
                (None, _) => self.wholly(cipher, known),
                (Some(req), Some(len)) => self.partly(cipher, req, len),
                (Some(req), None) => StepView::Ask(
                    StageView::Length { cipher, again: false, range: Some(req) },
                    length_request(self.url, self.fields),
                ),
            }
        }
    }

    /// What is done when the header of the file is known.
    pub open spec fn after_probe(self, resp: ResponseView) -> StepView {
        match probed(resp.body, self.password) {
            None => self.plainly(),
            Some(cipher) => if self.enc_type != Some(cipher.enc_type) {
                StepView::Fail(ErrorView::Internal("加密类型不匹配"@))
            } else {
                self.encrypted(cipher, total_of(resp.headers))
            },
        }
    }

    /// What is done after a question for the length.
    pub open spec fn after_length(
        self,
        cipher: CipherState,
        again: bool,
        range: Option<RangeReq>,
        resp: ResponseView,
    ) -> StepView {
        match (announced(again, resp), range) {
            (Some(len), Some(req)) => self.partly(cipher, req, len),
            (Some(len), None) => self.wholly(cipher, Some(len)),
            (None, _) => if !again {
                StepView::Ask(
                    StageView::Length { cipher, again: true, range },
                    first_byte_request(self.url, self.fields),
                )
            } else if range is Some {
                self.wholly(cipher, None)
            } else {
                StepView::Ask(
                    StageView::Whole { cipher, plain_len: None },
                    whole_request(self.url, self.fields),
                )
            },
        }
    }

    /// What is done at some stage when a response has come.
    pub open spec fn next(self, stage: StageView, resp: ResponseView) -> StepView {
        match stage {
            StageView::Plain => StepView::Answer(
                record_of(resp.status),
                ReplyView {
                    status: resp.status,
                    headers: without_length(resp.headers),
                    body: BodyView::Copy,
                },
            ),
            StageView::Probe => self.after_probe(resp),
            StageView::Length { cipher, again, range } => self.after_length(
                cipher,
                again,
                range,
                resp,
            ),
            StageView::Whole { cipher, plain_len } => StepView::Answer(
                record_of(resp.status),
                ReplyView {
                    status: resp.status,
                    headers: whole_fields(resp.headers, plain_len),
                    body: BodyView::Decrypt(
                        DownloadView::begin(past_header(cipher), CYPTO_META_SIZE as nat, 0, None),
                    ),
                },
            ),
            StageView::Part { cipher, file_len, start, end } => StepView::Answer(
                record_of(resp.status),
                if resp.status == 206 {
                    ReplyView {
                        status: 206,
                        headers: part_fields(
                            start as nat,
                            end as nat,
                            file_len as nat,
                            type_of(resp.headers),
                        ),
                        body: BodyView::Decrypt(
                            DownloadView::begin(
                                part_cipher(cipher, start),
                                0,
                                plain_skip(cipher.enc_type, start as nat) as nat,
                                Some((end - start + 1) as nat),
                            ),
                        ),
                    }
                } else if is_success(resp.status) {
                    ReplyView {
                        status: 206,
                        headers: part_fields(
                            start as nat,
                            end as nat,
                            file_len as nat,
                            type_of(resp.headers),
                        ),
                        body: BodyView::Decrypt(
                            DownloadView::begin(
                                past_header(cipher),
                                CYPTO_META_SIZE as nat,
                                start as nat,
                                Some((end - start + 1) as nat),
                            ),
                        ),
                    }
                } else {
                    ReplyView {
                        status: resp.status,
                        headers: without_length(resp.headers),
                        body: BodyView::Empty,
                    }
                },
            ),
        }
    }

    /// Whether the numbers that a part of a file of some length leads to can
    /// be counted.
    pub open spec fn part_fits(self, cipher: CipherState, req: RangeReq, len: u64) -> bool {
        plaintext_len(cipher.enc_type, len) matches Some(file_len) ==> {
            &&& resolvable(req, file_len)
            &&& resolved(req, file_len) matches Some((start, end)) ==> cipher_end(
                cipher.enc_type,
                start as nat,
                (end - start + 1) as nat,
            ) < u64::MAX
        }
    }

    /// Whether a response at some stage can be dealt with: it does not ask for
    /// the end of an empty file, for bytes whose place cannot be counted in 64
    /// bits, or for more of a keystream than there is.
    pub open spec fn accepts(self, stage: StageView, resp: ResponseView) -> bool {
        match stage {
            StageView::Probe => match (
                probed(resp.body, self.password),
                range_of(self.fields),
                total_of(resp.headers),
            ) {
                (Some(cipher), Some(req), Some(len)) => asks_range(self.fields) ==> self.part_fits(
                    cipher,
                    req,
                    len,
                ),
                _ => true,
            },
            StageView::Length { cipher, again, range } => match (range, announced(again, resp)) {
                (Some(req), Some(len)) => self.part_fits(cipher, req, len),
                _ => true,
            },
            StageView::Part { cipher, start, .. } => resp.status == 206 && !cipher.is_block()
                ==> CYPTO_META_SIZE + start <= keystream_limit(cipher.enc_type),
            _ => true,
        }
    }
}

/// The length that the response to a question for it announces.
pub open spec fn announced(again: bool, resp: ResponseView) -> Option<u64> {
    if again {
        total_of(resp.headers)
    } else if is_success(resp.status) {
        length_of(resp.headers)
    } else {
        None
    }
}

/// What can be read at a byte of the contents begins within the file.
pub proof fn lemma_offset(t: EncType, len: u64, start: u64)
    requires
        plaintext_len(t, len) matches Some(n) && start < n,
    ensures
        CYPTO_META_SIZE <= cipher_offset(t, start as nat) < len,
{
}

/// Which response a download waits for.
enum Stage {
    Plain,
    Probe,
    Length { meta: CryptoMeta, again: bool, range: Option<RangeReq> },
    Whole { meta: CryptoMeta, plain_len: Option<u64> },
    Part { meta: CryptoMeta, file_len: u64, start: u64, end: u64, skip: usize },
}

/// The cipher that the header of a file and a password give.
pub open spec fn fresh(meta: CryptoMeta, password: Seq<u8>) -> CipherState {
    CipherState::start(
        meta.enc_type,
        password,
        meta.append_data@.take(nonce_size(meta.enc_type) as int),
    )
}

/// A download that waits for a response.
pub struct DownloadFlow {
    url: String,
    headers: HeaderMap<HeaderValue>,
    password: Vec<u8>,
    enc_type: Option<EncType>,
    stage: Stage,
}

/// What a download does next.
pub enum Step {
    /// It asks, and waits for the response.
    Ask(DownloadFlow, Request),
    /// It fails.
    Fail(ProxyError),
    /// It answers, once it is noted what the exchange says of the server.
    Answer(Record, Reply),
}

impl Step {
    /// The view of the step.
    pub open spec fn view(&self) -> StepView {
        match self {
            Step::Ask(flow, request) => StepView::Ask(flow.stage(), request@),
            Step::Fail(e) => StepView::Fail(e@),
            Step::Answer(record, reply) => StepView::Answer(*record, reply@),
        }
    }

    /// Whether the step belongs to a download about something, and is in order.
    pub open spec fn continues(&self, context: FileContext) -> bool {
        match self {
            Step::Ask(flow, _) => flow.wf() && flow.context() == context,
            Step::Fail(_) => true,
            Step::Answer(_, reply) => reply.wf(),
        }
    }
}

impl DownloadFlow {
    /// What the download is about.
    pub closed spec fn context(&self) -> FileContext {
        FileContext {
            url: self.url@,
            fields: header_values(self.headers),
            password: self.password@,
            enc_type: self.enc_type,
        }
    }

    /// Which response the download waits for.
    pub closed spec fn stage(&self) -> StageView {
        match self.stage {
            Stage::Plain => StageView::Plain,
            Stage::Probe => StageView::Probe,
            Stage::Length { meta, again, range } => StageView::Length {
                cipher: fresh(meta, self.password@),
                again,
                range,
            },
            Stage::Whole { meta, plain_len } => StageView::Whole {
                cipher: fresh(meta, self.password@),
                plain_len,
            },
            Stage::Part { meta, file_len, start, end, .. } => StageView::Part {
                cipher: fresh(meta, self.password@),
                file_len,
                start,
                end,
            },
        }
    }

    /// Whether the headers of the request leave room for those that are set,
    /// and a part is within its file.
    pub closed spec fn wf(&self) -> bool {
        &&& has_room(self.headers, 3)
        &&& self.stage matches Stage::Part { meta, file_len, start, end, skip } ==> start <= end
            < file_len && skip == plain_skip(meta.enc_type, start as nat)
    }

    /// Begins the download of a file that the configuration says to be
    /// encrypted. Gives what to ask first.
    pub fn begin(url: &str, headers: &HeaderMap<HeaderValue>, enc: &EncryptionConfig) -> (r: (
        Self,
        Request,
    ))
        requires
            has_room(*headers, 3),
        ensures
            r.0.wf(),
            r.0.context() == (FileContext {
                url: url@,
                fields: header_values(*headers),
                password: encode_utf8(enc.password@),
                enc_type: EncType::named(upper(enc.enc_type@)),
            }),
            StepView::Ask(r.0.stage(), r.1@) == r.0.context().first(),
            r.1@.url == url@,
            r.1@.method == "GET"@,
    {
        let enc_type: Option<EncType> = EncType::from_str(&enc.enc_type);
        let mut password: Vec<u8> = Vec::new();
        password.extend_from_slice(enc.password.as_str().as_bytes());
        assert(password@ =~= encode_utf8(enc.password@));
        let (stage, request) = if enc_type.is_some() {
            (Stage::Probe, ask_header(url, headers))
        } else {
            (Stage::Plain, forward("GET", url, headers))
        };
        let flow: DownloadFlow = DownloadFlow {
            url: url.to_string(),
            headers: copy_of(headers),
            password,
            enc_type,
            stage,
        };
        (flow, request)
    }

    /// Goes on as for a file that is not encrypted.
    fn plainly(self) -> (r: Step)
        requires
            self.wf(),
        ensures
            r@ == self.context().plainly(),
            r.continues(self.context()),
    {
        let request: Request = forward("GET", &self.url, &self.headers);
        let mut flow: DownloadFlow = self;
        flow.stage = Stage::Plain;
        Step::Ask(flow, request)
    }

    /// Asks for the length of a file.
    fn ask_for_length(self, meta: CryptoMeta, again: bool, range: Option<RangeReq>) -> (r: Step)
        requires
            self.wf(),
        ensures
            r@ == StepView::Ask(
                StageView::Length {
                    cipher: fresh(meta, self.context().password),
                    again,
                    range,
                },
                if again {
                    first_byte_request(self.context().url, self.context().fields)
                } else {
                    length_request(self.context().url, self.context().fields)
                },
            ),
            r.continues(self.context()),
    {
        let request: Request = if again {
            ask_first_byte(&self.url, &self.headers)
        } else {
            ask_length(&self.url, &self.headers)
        };
        let mut flow: DownloadFlow = self;
        flow.stage = Stage::Length { meta, again, range };
        Step::Ask(flow, request)
    }

    /// Asks for a whole file.
    fn ask_for_whole(self, meta: CryptoMeta, plain_len: Option<u64>) -> (r: Step)
        requires
            self.wf(),
        ensures
            r@ == StepView::Ask(
                StageView::Whole { cipher: fresh(meta, self.context().password), plain_len },
                whole_request(self.context().url, self.context().fields),
            ),
            r.continues(self.context()),
    {
        let request: Request = ask_whole(&self.url, &self.headers);
        let mut flow: DownloadFlow = self;
        flow.stage = Stage::Whole { meta, plain_len };
        Step::Ask(flow, request)
    }

    /// Goes on for a whole file, whose length may be known.
    fn wholly(self, meta: CryptoMeta, known: Option<u64>) -> (r: Step)
        requires
            self.wf(),
        ensures
            r@ == self.context().wholly(fresh(meta, self.context().password), known),
            r.continues(self.context()),
    {
        match known {
            Some(len) => {
                let cipher: CipherBox = CipherBox::from_meta(&meta, &self.password);
                let plain_len: Option<u64> = cipher.plaintext_len_of(len);
                self.ask_for_whole(meta, plain_len)
            },
            None => self.ask_for_length(meta, false, None),
        }
    }

    /// Goes on for a part of a file whose length is known.
    fn partly(self, meta: CryptoMeta, req: RangeReq, len: u64) -> (r: Step)
        requires
            self.wf(),
            self.context().part_fits(fresh(meta, self.context().password), req, len),
        ensures
            r@ == self.context().partly(fresh(meta, self.context().password), req, len),
            r.continues(self.context()),
    {
        let cipher: CipherBox = CipherBox::from_meta(&meta, &self.password);
        let file_len: u64 = match cipher.plaintext_len_of(len) {
            Some(n) => n,
            None => return self.wholly(meta, Some(len)),
        };
        let (start, end): (u64, u64) = match resolve_range(req, file_len) {
            Some(part) => part,
            None => {
                return Step::Answer(
                    Record::Nothing,
                    Reply {
                        status: 416,
                        headers: no_part_headers(file_len),
                        body: ReplyBody::Empty,
                    },
                );
            },
        };
        proof {
            lemma_offset(meta.enc_type, len, start);
        }
        let (from, skip): (u64, usize) = cipher.map_plain_to_cipher(start);
        let needed: u64 = cipher.cipher_end_for(start, end - start + 1);
        let to: u64 = if needed < len - 1 {
            needed
        } else {
            len - 1
        };
        let request: Request = ask_part(&self.url, &self.headers, from, to);
        let mut flow: DownloadFlow = self;
        flow.stage = Stage::Part { meta, file_len, start, end, skip };
        Step::Ask(flow, request)
    }

    /// Goes on for an encrypted file, whose length may be known.
    fn encrypted(self, meta: CryptoMeta, known: Option<u64>) -> (r: Step)
        requires
            self.wf(),
            asks_range(self.context().fields) ==> match (range_of(self.context().fields), known) {
                (Some(req), Some(len)) => self.context().part_fits(
                    fresh(meta, self.context().password),
                    req,
                    len,
                ),
                _ => true,
            },
        ensures
            r@ == self.context().encrypted(fresh(meta, self.context().password), known),
            r.continues(self.context()),
    {
        if !has_range(&self.headers) {
            return self.wholly(meta, known);
        }
        match parse_range(&self.headers) {
            None => self.wholly(meta, known),
            Some(req) => match known {
                Some(len) => self.partly(meta, req, len),
                None => self.ask_for_length(meta, false, Some(req)),
            },
        }
    }

    /// Goes on when the first bytes of the file have come.
    fn after_probe(self, resp: Response) -> (r: Step)
        requires
            self.wf(),
            self.stage() == StageView::Probe,
            self.context().accepts(StageView::Probe, resp@),
        ensures
            r@ == self.context().after_probe(resp@),
            r.continues(self.context()),
    {
        let meta: CryptoMeta = match CryptoMeta::parse_header(&resp.body) {
            Some(meta) => meta,
            None => return self.plainly(),
        };
        assert(probed(resp.body@, self.password@) == Some(fresh(meta, self.password@)));
        let matching: bool = match self.enc_type {
            Some(t) => t == meta.enc_type,
            None => false,
        };
        if !matching {
            return Step::Fail(ProxyError::internal("加密类型不匹配"));
        }
        let known: Option<u64> = content_range_total(&resp.headers);
        self.encrypted(meta, known)
    }

    /// Goes on after a question for the length.
    fn after_length(
        self,
        meta: CryptoMeta,
        again: bool,
        range: Option<RangeReq>,
        resp: Response,
    ) -> (r: Step)
        requires
            self.wf(),
            self.context().accepts(
                StageView::Length { cipher: fresh(meta, self.context().password), again, range },
                resp@,
            ),
        ensures
            r@ == self.context().after_length(
                fresh(meta, self.context().password),
                again,
                range,
                resp@,
            ),
            r.continues(self.context()),
    {
        match length_found(again, &resp) {
            Some(len) => match range {
                Some(req) => self.partly(meta, req, len),
                None => self.wholly(meta, Some(len)),
            },
            None => if !again {
                self.ask_for_length(meta, true, range)
            } else if range.is_some() {
                self.wholly(meta, None)
            } else {
                self.ask_for_whole(meta, None)
            },
        }
    }

    /// Answers when the whole file comes.
    fn after_whole(self, meta: CryptoMeta, plain_len: Option<u64>, resp: Response) -> (r: Step)
        requires
            has_room(resp.headers, 2),
        ensures
            r@ == self.context().next(
                StageView::Whole { cipher: fresh(meta, self.context().password), plain_len },
                resp@,
            ),
            r.continues(self.context()),
    {
        let mut cipher: CipherBox = CipherBox::from_meta(&meta, &self.password);
        cipher.skip_header();
        proof {
            cipher.lemma_kind();
        }
        let job: DecryptJob = CipherEngine::for_type(meta.enc_type).decrypt_job(
            cipher,
            CYPTO_META_SIZE,
            0,
            None,
        );
        Step::Answer(
            status_record(resp.status),
            Reply {
                status: resp.status,
                headers: whole_headers(resp.headers, plain_len),
                body: ReplyBody::Decrypt(job),
            },
        )
    }

    /// Answers when a part of the file comes.
    fn after_part(
        self,
        meta: CryptoMeta,
        file_len: u64,
        start: u64,
        end: u64,
        skip: usize,
        resp: Response,
    ) -> (r: Step)
        requires
            start <= end < file_len,
            skip == plain_skip(meta.enc_type, start as nat),
            self.context().accepts(
                StageView::Part {
                    cipher: fresh(meta, self.context().password),
                    file_len,
                    start,
                    end,
                },
                resp@,
            ),
        ensures
            r@ == self.context().next(
                StageView::Part {
                    cipher: fresh(meta, self.context().password),
                    file_len,
                    start,
                    end,
                },
                resp@,
            ),
            r.continues(self.context()),
    {
        proof {
            lemma_names();
        }
        let record: Record = status_record(resp.status);
        let want: u64 = end - start + 1;
        let content_type: Option<Vec<u8>> = first_value(&resp.headers, "content-type");
        assert(opt_bytes(content_type) == type_of(resp@.headers));
        let engine: CipherEngine = CipherEngine::for_type(meta.enc_type);
        let mut cipher: CipherBox = CipherBox::from_meta(&meta, &self.password);
        let job: DecryptJob = if resp.status == 206 {
            cipher.seek_to_plain(start);
            proof {
                cipher.lemma_kind();
            }
            engine.range_decrypt_job(cipher, start, skip as u64, Some(want))
        } else if 200 <= resp.status && resp.status < 300 {
            let mut again: CipherBox = cipher.reparse(&meta, &self.password);
            again.skip_header();
            proof {
                again.lemma_kind();
            }
            engine.decrypt_job(again, CYPTO_META_SIZE, start, Some(want))
        } else {
            return Step::Answer(
                record,
                Reply {
                    status: resp.status,
                    headers: strip_content_length(resp.headers),
                    body: ReplyBody::Empty,
                },
            );
        };
        Step::Answer(
            record,
            Reply {
                status: 206,
                headers: part_headers(start, end, file_len, &content_type),
                body: ReplyBody::Decrypt(job),
            },
        )
    }

    /// Goes on when a response has come.
    pub fn respond(self, resp: Response) -> (r: Step)
        requires
            self.wf(),
            has_room(resp.headers, 2),
            self.context().accepts(self.stage(), resp@),
        ensures
            r@ == self.context().next(self.stage(), resp@),
            r.continues(self.context()),
            r matches Step::Ask(_, request) ==> request@.url == self.context().url,
    {
        let mut flow: DownloadFlow = self;
        let mut stage: Stage = Stage::Probe;
        std::mem::swap(&mut stage, &mut flow.stage);
        assert(flow.context() == self.context());
        match stage {
            Stage::Plain => Step::Answer(
                status_record(resp.status),
                Reply {
                    status: resp.status,
                    headers: strip_content_length(resp.headers),
                    body: ReplyBody::Copy,
                },
            ),
            Stage::Probe => flow.after_probe(resp),
            Stage::Length { meta, again, range } => flow.after_length(meta, again, range, resp),
            Stage::Whole { meta, plain_len } => flow.after_whole(meta, plain_len, resp),
            Stage::Part { meta, file_len, start, end, skip } => flow.after_part(
                meta,
                file_len,
                start,
                end,
                skip,
                resp,
            ),
        }
    }

    /// Whether the body of the next response is needed to go on.
    pub fn reads_body(&self) -> (r: bool)
        ensures
            r == (self.stage() is Probe),
    {
        matches!(self.stage, Stage::Probe)
    }

    /// Whether a response can be dealt with.
    pub fn accepts(&self, resp: &Response) -> (r: bool)
        ensures
            r == self.context().accepts(self.stage(), resp@),
    {
        match &self.stage {
            Stage::Probe => match CryptoMeta::parse_header(&resp.body) {
                Some(meta) => {
                    assert(probed(resp.body@, self.password@) == Some(fresh(meta, self.password@)));
                    match parse_range(&self.headers) {
                        Some(req) => match content_range_total(&resp.headers) {
                            Some(len) => !has_range(&self.headers) || self.part_fits(&meta, req, len),
                            None => true,
                        },
                        None => true,
                    }
                },
                None => true,
            },
            Stage::Length { meta, again, range } => match range {
                Some(req) => {
                    let found: Option<u64> = length_found(*again, resp);
                    match found {
                        Some(len) => self.part_fits(meta, *req, len),
                        None => true,
                    }
                },
                None => true,
            },
            Stage::Part { meta, start, .. } => {
                let limit: u64 = match meta.enc_type {
                    EncType::ChaCha20 => 64 * 0xffff_ffff,
                    _ => u64::MAX,
                };
                resp.status != 206 || meta.enc_type.kind() == CipherKind::Block || *start <= limit
                    - CYPTO_META_SIZE as u64
            },
            _ => true,
        }
    }

    /// Whether the numbers that a part leads to can be counted.
    fn part_fits(&self, meta: &CryptoMeta, req: RangeReq, len: u64) -> (r: bool)
        ensures
            r == self.context().part_fits(fresh(*meta, self.context().password), req, len),
    {
        let cipher: CipherBox = CipherBox::from_meta(meta, &self.password);
        let file_len: u64 = match cipher.plaintext_len_of(len) {
            Some(n) => n,
            None => return true,
        };
        if let RangeReq::Suffix(n) = req {
            if n > 0 && file_len == 0 {
                return false;
            }
        }
        match resolve_range(req, file_len) {
            Some((start, end)) => {
                if meta.enc_type.kind() == CipherKind::Block {
                    let last: u128 = end as u128 / BLOCK_SIZE as u128;
                    CYPTO_META_SIZE as u128 + (last + 1) * FRAME_SIZE as u128 <= u64::MAX as u128
                } else {
                    end < u64::MAX - CYPTO_META_SIZE as u64
                }
            },
            None => true,
        }
    }

    /// The error for a request that could not be sent, or had no response.
    pub fn transport_error(&self, what: &str) -> (r: ProxyError)
        ensures
            r@ == ErrorView::Proxy(request_label(self.stage()) + what@),
    {
        let label: &str = match &self.stage {
            Stage::Plain => "download: ",
            Stage::Probe => "header probe: ",
            Stage::Length { again, .. } => if *again {
                "length probe: "
            } else {
                "head probe: "
            },
            Stage::Whole { .. } => "download: ",
            Stage::Part { .. } => "range download: ",
        };
        ProxyError::proxy(&join2(label, what))
    }
}

/// What an error says of the request that a download waits for.
pub open spec fn request_label(stage: StageView) -> Seq<char> {
    match stage {
        StageView::Plain => "download: "@,
        StageView::Probe => "header probe: "@,
        StageView::Length { again, .. } => if again {
            "length probe: "@
        } else {
            "head probe: "@
        },
        StageView::Whole { .. } => "download: "@,
        StageView::Part { .. } => "range download: "@,
    }
}

/// The error for the first bytes of a file that could not be read.
pub fn probe_read_error(what: &str) -> (r: ProxyError)
    ensures
        r@ == ErrorView::Proxy("header probe read: "@ + what@),
{
    ProxyError::proxy(&join2("header probe read: ", what))
}

/// The error for a body that could not be read on.
pub fn stream_read_error(what: &str) -> (r: ProxyError)
    ensures
        r@ == ErrorView::Proxy("stream read: "@ + what@),
{
    ProxyError::proxy(&join2("stream read: ", what))
}

/// The length that the response to a question for it announces.
pub fn length_found(again: bool, resp: &Response) -> (r: Option<u64>)
    ensures
        r == announced(again, resp@),
{
    if again {
        content_range_total(&resp.headers)
    } else if 200 <= resp.status && resp.status < 300 {
        content_length(&resp.headers)
    } else {
        None
    }
}

/// How many more questions a download can ask.
pub open spec fn questions_left(stage: StageView) -> nat {
    match stage {
        StageView::Probe => 6,
        StageView::Length { again, range, .. } => match (range, again) {
            (Some(_), false) => 5,
            (Some(_), true) => 4,
            (None, false) => 3,
            (None, true) => 2,
        },
        _ => 1,
    }
}

/// Every download ends: after each response fewer questions are left.
pub proof fn law_download_ends(context: FileContext, stage: StageView, resp: ResponseView)
    ensures
        context.next(stage, resp) matches StepView::Ask(later, _) ==> questions_left(later)
            < questions_left(stage),
{
}

/// The first bytes of a file give its cipher as the whole file does.
pub proof fn lemma_probed(file: Seq<u8>, k: int, password: Seq<u8>)
    requires
        CYPTO_META_SIZE <= k <= file.len(),
    ensures
        probed(file.take(k), password) == cipher_of_file(file, password),
{
    assert(file.take(k).take(8) =~= file.take(8));
    assert(file.take(k).subrange(8, CYPTO_META_SIZE as int) =~= file.subrange(
        8,
        CYPTO_META_SIZE as int,
    ));
}

/// The length with which a whole file is announced.
proof fn lemma_announced_length(fields: Fields, len: u64)
    ensures
        whole_fields(fields, Some(len))["content-length"@] == seq![
            encode_utf8(decimal(len as nat)),
        ],
{
    assert("content-length"@ != "accept-ranges"@) by {
        reveal_strlit("content-length");
        reveal_strlit("accept-ranges");
        assert("content-length"@[0] != "accept-ranges"@[0]);
    }
}

impl FileContext {
    /// Whether a download at some stage is about an uploaded file with the
    /// given contents: what it knows of the file is true.
    pub open spec fn is_about(
        self,
        stage: StageView,
        plain: Seq<u8>,
        file: Seq<u8>,
    ) -> bool {
        match stage {
            StageView::Plain => false,
            StageView::Probe => true,
            StageView::Length { cipher, range, .. } => {
                &&& cipher_of_file(file, self.password) == Some(cipher)
                &&& range is Some ==> range == range_of(self.fields)
            },
            StageView::Whole { cipher, plain_len } => {
                &&& cipher_of_file(file, self.password) == Some(cipher)
                &&& plain_len matches Some(len) ==> len == plain.len()
            },
            StageView::Part { cipher, file_len, start, end } => {
                &&& cipher_of_file(file, self.password) == Some(cipher)
                &&& file_len == plain.len()
                &&& range_of(self.fields) matches Some(req) && resolved(req, file_len) == Some(
                    (start, end),
                )
            },
        }
    }

    /// Whether an answer at some stage is the right one for an uploaded file
    /// with the given contents. If the whole file comes, the client gets the
    /// contents, and their length if it is announced. If a part comes, the
    /// client gets the part of the contents that was asked for: out of the bytes
    /// that were asked for, or out of the whole file. A part that is not in the
    /// contents is refused, and a failure of the server is handed on.
    pub open spec fn is_right(
        self,
        stage: StageView,
        resp: ResponseView,
        plain: Seq<u8>,
        file: Seq<u8>,
        reply: ReplyView,
    ) -> bool {
        match stage {
            StageView::Whole { plain_len, .. } => {
                &&& reply.status == resp.status
                &&& plain_len is Some ==> reply.headers["content-length"@] == seq![
                    encode_utf8(decimal(plain.len())),
                ]
                &&& hands_on(reply.body, file, plain)
            },
            StageView::Part { cipher, start, end, .. } => if is_success(resp.status) {
                let t = cipher.enc_type;
                let body = if resp.status == 206 {
                    file.subrange(
                        cipher_offset(t, start as nat),
                        part_end(t, start, end, file.len() as u64) + 1,
                    )
                } else {
                    file
                };
                &&& reply.status == 206
                &&& reply.headers == part_fields(
                    start as nat,
                    end as nat,
                    plain.len(),
                    type_of(resp.headers),
                )
                &&& hands_on(reply.body, body, plain.subrange(start as int, end + 1))
            } else {
                reply.status == resp.status && reply.body is Empty
            },
            _ => {
                &&& reply.status == 416
                &&& reply.headers == no_part_fields(plain.len())
                &&& reply.body is Empty
                &&& range_of(self.fields) matches Some(req) && resolved(req, plain.len() as u64) is None
            },
        }
    }
}

/// Whether a body that decrypts some data hands some contents on, and nothing
/// else.
pub open spec fn hands_on(body: BodyView, data: Seq<u8>, contents: Seq<u8>) -> bool {
    body matches BodyView::Decrypt(job) && job.delivers(data, contents)
}

/// Whether a response tells the truth about a file: the first bytes that it
/// gives are those of the file, and the length that it announces is that of the
/// file.
pub open spec fn is_truthful(stage: StageView, resp: ResponseView, file: Seq<u8>) -> bool {
    match stage {
        StageView::Probe => {
            &&& CYPTO_META_SIZE <= resp.body.len() <= file.len()
            &&& resp.body == file.take(resp.body.len() as int)
            &&& total_of(resp.headers) matches Some(len) ==> len == file.len()
        },
        StageView::Length { again, .. } => announced(again, resp) matches Some(len) ==> len
            == file.len(),
        _ => true,
    }
}

/// Going on for a part of an uploaded file.
proof fn lemma_partly(
    context: FileContext,
    cipher: CipherState,
    req: RangeReq,
    plain: Seq<u8>,
    file: Seq<u8>,
)
    requires
        cipher_of_file(file, context.password) == Some(cipher),
        plaintext_len(cipher.enc_type, file.len() as u64) == Some(plain.len() as u64),
        plain.len() <= file.len() <= u64::MAX,
        range_of(context.fields) == Some(req),
    ensures
        match context.partly(cipher, req, file.len() as u64) {
            StepView::Ask(later, request) => {
                &&& context.is_about(later, plain, file)
                &&& later matches StageView::Part { start, end, .. } && request == part_request(
                    context.url,
                    context.fields,
                    cipher_offset(cipher.enc_type, start as nat) as nat,
                    part_end(cipher.enc_type, start, end, file.len() as u64) as nat,
                )
            },
            StepView::Fail(_) => false,
            StepView::Answer(_, reply) => {
                &&& reply.status == 416
                &&& reply.headers == no_part_fields(plain.len())
                &&& reply.body is Empty
                &&& resolved(req, plain.len() as u64) is None
            },
        },
{
}

/// The answer when a part of an uploaded file comes.
proof fn lemma_part_answer(
    context: FileContext,
    stage: StageView,
    resp: ResponseView,
    t: EncType,
    plain: Seq<u8>,
    file: Seq<u8>,
)
    requires
        stage is Part,
        context.is_about(stage, plain, file),
        is_encrypted_file(t, context.password, plain, file),
        t.spec_kind() == CipherKind::Block ==> plain.len() < 0xffff_ffff * BLOCK_SIZE,
        range_of(context.fields) matches Some(req) && resolvable(req, plain.len() as u64),
        file.len() <= u64::MAX,
    ensures
        context.next(stage, resp) matches StepView::Answer(_, reply) && context.is_right(
            stage,
            resp,
            plain,
            file,
            reply,
        ),
{
    if let StageView::Part { cipher, file_len, start, end } = stage {
        let req = range_of(context.fields)->0;
        law_file_round_trip(t, context.password, plain, file);
        law_resolved_range(req, plain.len() as u64);
        law_file_range(t, context.password, plain, file, start as nat, (end - start + 1) as nat);
        if t.spec_kind() == CipherKind::Block {
            assert(start / BLOCK_SIZE as u64 + 1 <= u32::MAX);
        }
        assert(part_cipher(cipher, start) == range_cipher(past_header(cipher), start as nat));
    }
}

/// Whatever way a download of an uploaded file takes: if the responses of the
/// upstream server tell the truth about the file, what the download knows of it
/// stays true, it does not fail, and the answer is the right one. The numbers of
/// the blocks of the file must fit in 32 bits, and the end of a file is not
/// asked for if there is none.
pub proof fn law_download_is_right(
    context: FileContext,
    stage: StageView,
    resp: ResponseView,
    t: EncType,
    plain: Seq<u8>,
    file: Seq<u8>,
)
    requires
        context.enc_type == Some(t),
        is_encrypted_file(t, context.password, plain, file),
        file.len() <= u64::MAX,
        t.spec_kind() == CipherKind::Block ==> plain.len() < 0xffff_ffff * BLOCK_SIZE,
        range_of(context.fields) matches Some(req) ==> resolvable(req, plain.len() as u64),
        context.is_about(stage, plain, file),
        is_truthful(stage, resp, file),
    ensures
        match context.next(stage, resp) {
            StepView::Ask(later, _) => context.is_about(later, plain, file),
            StepView::Fail(_) => false,
            StepView::Answer(_, reply) => context.is_right(stage, resp, plain, file, reply),
        },
{
    law_file_round_trip(t, context.password, plain, file);
    let cipher = cipher_of_file(file, context.password)->0;
    match stage {
        StageView::Plain => {},
        StageView::Probe => {
            lemma_probed(file, resp.body.len() as int, context.password);
            if let Some(req) = range_of(context.fields) {
                lemma_partly(context, cipher, req, plain, file);
            }
        },
        StageView::Length { range, .. } => {
            if let Some(req) = range {
                lemma_partly(context, cipher, req, plain, file);
            }
        },
        StageView::Whole { plain_len, .. } => {
            lemma_announced_length(resp.headers, plain.len() as u64);
        },
        StageView::Part { .. } => {
            lemma_part_answer(context, stage, resp, t, plain, file);
        },
    }
}

} // verus!
