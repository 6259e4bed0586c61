//! The headers of a file that may be encrypted: what is asked of the upstream
//! server until they are known.
use axum::http::header::{HeaderMap, HeaderValue};
use vstd::prelude::*;
use vstd::utf8::encode_utf8;

use crate::config::EncryptionConfig;
use crate::crypto::crypto_meta::CryptoMeta;
use crate::crypto::model::{opt_bytes, plaintext_len, CipherState};
use crate::crypto::{upper, EncType, CYPTO_META_SIZE};
use crate::errors::{ErrorView, ProxyError};
use crate::service::cipher_engine::{
    cipher_of_file, is_encrypted_file, law_file_round_trip, CipherBox,
};
use crate::service::download::{
    announced, fresh, length_found, lemma_probed, probed, type_of, FileContext,
};
use crate::service::headers::{copy_of, first_value, has_room, header_values, lemma_names};
use crate::service::proxy::{
    BodyView, Reply, ReplyBody, ReplyView, Request, RequestView, Response, ResponseView,
};
use crate::service::ranges::{content_range_total, total_of};
use crate::service::requests::{
    ask_first_byte, ask_head, ask_header, ask_length, first_byte_request, head_fields, head_headers,
    head_request, length_request, probe_request,
};
use crate::text::join2;

verus! {

/// Which response a request for headers waits for.
pub enum HeadStageView {
    /// That to a request for the headers as they are.
    Plain,
    /// That with the header of the file.
    Probe,
    /// That with the length of the file; `again` if it was asked before.
    Length { cipher: CipherState, again: bool },
}

/// What a request for headers does next.
pub enum HeadStepView {
    /// It asks and waits for the response.
    Ask(HeadStageView, RequestView),
    /// It fails.
    Fail(ErrorView),
    /// It answers.
    Answer(ReplyView),
}

impl FileContext {
    /// What is done for the headers of a file that is not encrypted.
    pub open spec fn head_plainly(self) -> HeadStepView {
        HeadStepView::Ask(HeadStageView::Plain, head_request(self.url, self.fields))
    }

    /// What is done first for the headers of a file.
    pub open spec fn head_first(self) -> HeadStepView {
        if self.enc_type is Some {
            HeadStepView::Ask(HeadStageView::Probe, probe_request(self.url, self.fields))
        } else {
            self.head_plainly()
        }
    }

    /// What is done when the length of an encrypted file is known.
    pub open spec fn head_known(
        self,
        cipher: CipherState,
        len: u64,
        content_type: Option<Seq<u8>>,
    ) -> HeadStepView {
        match plaintext_len(cipher.enc_type, len) {
            Some(file_len) => HeadStepView::Answer(
                ReplyView {
                    status: 200,
                    headers: head_fields(file_len as nat, content_type),
                    body: BodyView::Empty,
                },
            ),
            None => self.head_plainly(),
        }
    }

    /// What is done at some stage when a response has come.
    pub open spec fn head_next(self, stage: HeadStageView, resp: ResponseView) -> HeadStepView {
        match stage {
            HeadStageView::Plain => HeadStepView::Answer(
                ReplyView { status: resp.status, headers: resp.headers, body: BodyView::Empty },
            ),
            HeadStageView::Probe => match probed(resp.body, self.password) {
                None => self.head_plainly(),
                Some(cipher) => if self.enc_type != Some(cipher.enc_type) {
                    HeadStepView::Fail(ErrorView::Internal("加密类型不匹配"@))
                } else {
                    match total_of(resp.headers) {
                        Some(len) => self.head_known(cipher, len, type_of(resp.headers)),
                        None => HeadStepView::Ask(
                            HeadStageView::Length { cipher, again: false },
                            length_request(self.url, self.fields),
                        ),
                    }
                },
            },
            HeadStageView::Length { cipher, again } => match announced(again, resp) {
                Some(len) => self.head_known(cipher, len, type_of(resp.headers)),
                None => if again {
                    self.head_plainly()
                } else {
                    HeadStepView::Ask(
                        HeadStageView::Length { cipher, again: true },
                        first_byte_request(self.url, self.fields),
                    )
                },
            },
        }
    }
}

/// Which response a request for headers waits for.
enum HeadStage {
    Plain,
    Probe,
    Length { meta: CryptoMeta, again: bool },
}

/// A request for headers that waits for a response.
pub struct HeadFlow {
    url: String,
    headers: HeaderMap<HeaderValue>,
    password: Vec<u8>,
    enc_type: Option<EncType>,
    stage: HeadStage,
}

/// What a request for headers does next.
pub enum HeadStep {
    /// It asks, and waits for the response.
    Ask(HeadFlow, Request),
    /// It fails.
    Fail(ProxyError),
    /// It answers.
    Answer(Reply),
}

impl HeadStep {
    /// The view of the step.
    pub open spec fn view(&self) -> HeadStepView {
        match self {
            HeadStep::Ask(flow, request) => HeadStepView::Ask(flow.stage(), request@),
            HeadStep::Fail(e) => HeadStepView::Fail(e@),
            HeadStep::Answer(reply) => HeadStepView::Answer(reply@),
        }
    }

    /// Whether the step belongs to a request about something, and is in order.
    pub open spec fn continues(&self, context: FileContext) -> bool {
        match self {
            HeadStep::Ask(flow, _) => flow.wf() && flow.context() == context,
            HeadStep::Fail(_) => true,
            HeadStep::Answer(reply) => reply.wf(),
        }
    }
}

impl HeadFlow {
    /// What the request is about.
    pub closed spec fn context(&self) -> FileContext {
        FileContext {
            url: self.url@,
            fields: header_values(self.headers),
            password: self.password@,
            enc_type: self.enc_type,
        }
    }

    /// Which response the request waits for.
    pub closed spec fn stage(&self) -> HeadStageView {
        match self.stage {
            HeadStage::Plain => HeadStageView::Plain,
            HeadStage::Probe => HeadStageView::Probe,
            HeadStage::Length { meta, again } => HeadStageView::Length {
                cipher: fresh(meta, self.password@),
                again,
            },
        }
    }

    /// Whether the headers of the request leave room for those that are set.
    pub closed spec fn wf(&self) -> bool {
        has_room(self.headers, 3)
    }

    /// Begins a request for the headers of a file that the configuration says
    /// to be encrypted. Gives what to ask first.
    pub fn begin(url: &str, headers: &HeaderMap<HeaderValue>, enc: &EncryptionConfig) -> (r: (
        Self,
        Request,
    ))
        requires
            has_room(*headers, 3),
        ensures
            r.0.wf(),
            r.0.context() == (FileContext {
                url: url@,
                fields: header_values(*headers),
                password: encode_utf8(enc.password@),
                enc_type: EncType::named(upper(enc.enc_type@)),
            }),
            HeadStepView::Ask(r.0.stage(), r.1@) == r.0.context().head_first(),
            r.1@.url == url@,
    {
        let enc_type: Option<EncType> = EncType::from_str(&enc.enc_type);
        let mut password: Vec<u8> = Vec::new();
        password.extend_from_slice(enc.password.as_str().as_bytes());
        assert(password@ =~= encode_utf8(enc.password@));
        let (stage, request) = if enc_type.is_some() {
            (HeadStage::Probe, ask_header(url, headers))
        } else {
            (HeadStage::Plain, ask_head(url, headers))
        };
        let flow: HeadFlow = HeadFlow {
            url: url.to_string(),
            headers: copy_of(headers),
            password,
            enc_type,
            stage,
        };
        (flow, request)
    }

    /// Begins a request for the headers of a file that is not encrypted.
    pub fn begin_plain(url: &str, headers: &HeaderMap<HeaderValue>) -> (r: (Self, Request))
        requires
            has_room(*headers, 3),
        ensures
            r.0.wf(),
            r.0.context() == (FileContext {
                url: url@,
                fields: header_values(*headers),
                password: Seq::empty(),
                enc_type: None,
            }),
            HeadStepView::Ask(r.0.stage(), r.1@) == r.0.context().head_plainly(),
            r.1@.url == url@,
            r.1@.method == "HEAD"@,
    {
        let request: Request = ask_head(url, headers);
        let password: Vec<u8> = Vec::new();
        assert(password@ =~= Seq::empty());
        let flow: HeadFlow = HeadFlow {
            url: url.to_string(),
            headers: copy_of(headers),
            password,
            enc_type: None,
            stage: HeadStage::Plain,
        };
        (flow, request)
    }

    /// Goes on as for a file that is not encrypted.
    fn plainly(self) -> (r: HeadStep)
        requires
            self.wf(),
        ensures
            r@ == self.context().head_plainly(),
            r.continues(self.context()),
    {
        let request: Request = ask_head(&self.url, &self.headers);
        let mut flow: HeadFlow = self;
        flow.stage = HeadStage::Plain;
        HeadStep::Ask(flow, request)
    }

    /// Asks for the length of a file.
    fn ask_for_length(self, meta: CryptoMeta, again: bool) -> (r: HeadStep)
        requires
            self.wf(),
        ensures
            r@ == HeadStepView::Ask(
                HeadStageView::Length { cipher: fresh(meta, self.context().password), again },
                if again {
                    first_byte_request(self.context().url, self.context().fields)
                } else {
                    length_request(self.context().url, self.context().fields)
                },
            ),
            r.continues(self.context()),
    {
        let request: Request = if again {
            ask_first_byte(&self.url, &self.headers)
        } else {
            ask_length(&self.url, &self.headers)
        };
        let mut flow: HeadFlow = self;
        flow.stage = HeadStage::Length { meta, again };
        HeadStep::Ask(flow, request)
    }

    /// Goes on when the length of an encrypted file is known.
    fn known(self, meta: CryptoMeta, len: u64, resp: Response) -> (r: HeadStep)
        requires
            self.wf(),
        ensures
            r@ == self.context().head_known(
                fresh(meta, self.context().password),
                len,
                type_of(resp@.headers),
            ),
            r.continues(self.context()),
    {
        proof {
            lemma_names();
        }
        let cipher: CipherBox = CipherBox::from_meta(&meta, &self.password);
        match cipher.plaintext_len_of(len) {
            Some(file_len) => {
                let content_type: Option<Vec<u8>> = first_value(&resp.headers, "content-type");
                assert(opt_bytes(content_type) == type_of(resp@.headers));
                HeadStep::Answer(
                    Reply {
                        status: 200,
                        headers: head_headers(file_len, &content_type),
                        body: ReplyBody::Empty,
                    },
                )
            },
            None => self.plainly(),
        }
    }

    /// Whether the body of the next response is needed to go on.
    pub fn reads_body(&self) -> (r: bool)
        ensures
            r == (self.stage() is Probe),
    {
        matches!(self.stage, HeadStage::Probe)
    }

    /// Goes on when a response has come.
    pub fn respond(self, resp: Response) -> (r: HeadStep)
        requires
            self.wf(),
        ensures
            r@ == self.context().head_next(self.stage(), resp@),
            r.continues(self.context()),
            r matches HeadStep::Ask(_, request) ==> request@.url == self.context().url,
    {
        let mut flow: HeadFlow = self;
        let mut stage: HeadStage = HeadStage::Probe;
        std::mem::swap(&mut stage, &mut flow.stage);
        assert(flow.context() == self.context());
        match stage {
            HeadStage::Plain => HeadStep::Answer(
                Reply { status: resp.status, headers: resp.headers, body: ReplyBody::Empty },
            ),
            HeadStage::Probe => {
                let meta: CryptoMeta = match CryptoMeta::parse_header(&resp.body) {
                    Some(meta) => meta,
                    None => return flow.plainly(),
                };
                assert(probed(resp.body@, flow.password@) == Some(fresh(meta, flow.password@)));
                let matching: bool = match flow.enc_type {
                    Some(t) => t == meta.enc_type,
                    None => false,
                };
                if !matching {
                    return HeadStep::Fail(ProxyError::internal("加密类型不匹配"));
                }
                match content_range_total(&resp.headers) {
                    Some(len) => flow.known(meta, len, resp),
                    None => flow.ask_for_length(meta, false),
                }
            },
            HeadStage::Length { meta, again } => match length_found(again, &resp) {
                Some(len) => flow.known(meta, len, resp),
                None => if again {
                    flow.plainly()
                } else {
                    flow.ask_for_length(meta, true)
                },
            },
        }
    }

    /// The error for a request that could not be sent, or had no response.
    pub fn transport_error(&self, what: &str) -> (r: ProxyError)
        ensures
            r@ == ErrorView::Proxy(head_label(self.stage()) + what@),
    {
        let label: &str = match &self.stage {
            HeadStage::Plain => "head: ",
            HeadStage::Probe => "header probe: ",
            HeadStage::Length { again, .. } => if *again {
                "length probe: "
            } else {
                "head probe: "
            },
        };
        ProxyError::proxy(&join2(label, what))
    }
}

/// What an error says of the request that is waited for.
pub open spec fn head_label(stage: HeadStageView) -> Seq<char> {
    match stage {
        HeadStageView::Plain => "head: "@,
        HeadStageView::Probe => "header probe: "@,
        HeadStageView::Length { again, .. } => if again {
            "length probe: "@
        } else {
            "head probe: "@
        },
    }
}

/// How many more questions a request for headers can ask.
pub open spec fn head_questions_left(stage: HeadStageView) -> nat {
    match stage {
        HeadStageView::Probe => 4,
        HeadStageView::Length { again, .. } => if again {
            2
        } else {
            3
        },
        HeadStageView::Plain => 1,
    }
}

/// Every request for headers ends: after each response fewer questions are
/// left.
pub proof fn law_head_ends(context: FileContext, stage: HeadStageView, resp: ResponseView)
    ensures
        context.head_next(stage, resp) matches HeadStepView::Ask(later, _) ==> head_questions_left(
            later,
        ) < head_questions_left(stage),
{
}

/// The length of a file that a response at some stage tells.
pub open spec fn told(stage: HeadStageView, resp: ResponseView) -> Option<u64> {
    match stage {
        HeadStageView::Plain => None,
        HeadStageView::Probe => total_of(resp.headers),
        HeadStageView::Length { again, .. } => announced(again, resp),
    }
}

/// A client that asks for the headers of an uploaded file gets the length of
/// the contents that were uploaded, as soon as the upstream server tells the
/// length of the file: with its first bytes, or when it is asked for it.
pub proof fn law_head_tells_length(
    context: FileContext,
    stage: HeadStageView,
    resp: ResponseView,
    t: EncType,
    plain: Seq<u8>,
    file: Seq<u8>,
)
    requires
        context.enc_type == Some(t),
        is_encrypted_file(t, context.password, plain, file),
        stage is Probe ==> CYPTO_META_SIZE <= resp.body.len() <= file.len() && resp.body
            == file.take(resp.body.len() as int),
        stage matches HeadStageView::Length { cipher, .. } ==> cipher_of_file(
            file,
            context.password,
        ) == Some(cipher),
        told(stage, resp) matches Some(len) && len == file.len(),
    ensures
        context.head_next(stage, resp) == HeadStepView::Answer(
            ReplyView {
                status: 200,
                headers: head_fields(plain.len(), type_of(resp.headers)),
                body: BodyView::Empty,
            },
        ),
{
    law_file_round_trip(t, context.password, plain, file);
    if stage is Probe {
        lemma_probed(file, resp.body.len() as int, context.password);
    }
}

} // verus!
