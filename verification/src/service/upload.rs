//! The upload of a file that is encrypted on its way, and the requests that are
//! forwarded as they are.
use axum::http::header::{HeaderMap, HeaderValue};
use vstd::prelude::*;
use vstd::utf8::encode_utf8;

use crate::config::EncryptionConfig;
use crate::crypto::crypto_meta::meta_bytes;
use crate::crypto::model::{header_bytes, nonce_size, CipherState};
use crate::crypto::{upper, EncType};
use crate::errors::{ErrorView, ProxyError};
use crate::service::cipher_engine::{
    is_encrypted_file, past_header, CipherBox, CipherEngine, EncryptJob,
};
use crate::service::flow::{is_encryption, UploadView};
use crate::service::headers::{has_room, header_values, strip_content_length, without_length};
use crate::service::proxy::{
    record_of, status_record, BodyView, ProxyEngine, Record, Reply, ReplyBody, ReplyView, Request,
    Response,
};
use crate::service::requests::{forward, plain_request};
use crate::text::join2;

verus! {

/// An upload that can begin: the request, and what its body is made of.
pub struct Upload {
    pub request: Request,
    /// The header of the file.
    pub header: Vec<u8>,
    /// What encrypts the contents.
    pub job: EncryptJob,
}

impl Upload {
    /// Whether the upload writes a new file with an algorithm and a password:
    /// the header that is sent is that of the cipher which encrypts the
    /// contents.
    pub open spec fn writes(&self, t: EncType, password: Seq<u8>) -> bool {
        let nonce = self.job.start().nonce;
        &&& self.job.wf()
        &&& self.job.plain() == Seq::<u8>::empty()
        &&& self.job.items() == Seq::<Seq<u8>>::empty()
        &&& nonce.len() == nonce_size(t)
        &&& self.job.start() == past_header(CipherState::start(t, password, nonce))
        &&& self.job@ == (UploadView { cipher: self.job.start(), buf: Seq::empty() })
        &&& self.header@ == meta_bytes(t, header_bytes(nonce))
    }
}

/// The header of an upload, and behind it the items in which its job has sent
/// some contents, are an encrypted file with these contents.
pub proof fn law_upload_is_encrypted_file(
    up: Upload,
    t: EncType,
    password: Seq<u8>,
    plain: Seq<u8>,
    items: Seq<Seq<u8>>,
)
    requires
        up.writes(t, password),
        is_encryption(up.job.start(), plain, items.flatten()),
    ensures
        is_encrypted_file(t, password, plain, (seq![up.header@] + items).flatten()),
{
    let header = seq![up.header@];
    vstd::seq_lib::lemma_flatten_concat(header, items);
    header.lemma_flatten_one_element();
}

impl ProxyEngine {
    /// Begins a request that is forwarded as it is.
    pub fn begin_request(
        &mut self,
        now_ms: u64,
        method: &str,
        url: &str,
        headers: &HeaderMap<HeaderValue>,
    ) -> (r: Result<Request, ProxyError>)
        requires
            has_room(*headers, 1),
        ensures
            final(self).circuit_breaker@ == old(self).circuit_breaker@.asked(now_ms),
            final(self).max_retries == old(self).max_retries,
            final(self).insecure == old(self).insecure,
            match r {
                Ok(request) => !old(self).circuit_breaker@.blocks(now_ms) && request@
                    == plain_request(method@, url@, header_values(*headers)) && request@.method
                    == method@ && request@.url == url@,
                Err(e) => old(self).circuit_breaker@.blocks(now_ms) && e@ == ErrorView::BadGateway(
                    "circuit open"@,
                ),
            },
    {
        match self.check_circuit(now_ms) {
            Some(e) => Err(e),
            None => Ok(forward(method, url, headers)),
        }
    }

    /// Begins the upload of a file that is to be encrypted.
    pub fn begin_upload(
        &mut self,
        now_ms: u64,
        url: &str,
        headers: &HeaderMap<HeaderValue>,
        enc: &EncryptionConfig,
    ) -> (r: Result<Upload, ProxyError>)
        requires
            has_room(*headers, 1),
        ensures
            final(self).circuit_breaker@ == old(self).circuit_breaker@.asked(now_ms),
            final(self).max_retries == old(self).max_retries,
            final(self).insecure == old(self).insecure,
            match r {
                Ok(up) => {
                    &&& !old(self).circuit_breaker@.blocks(now_ms)
                    &&& EncType::named(upper(enc.enc_type@)) matches Some(t) && up.writes(
                        t,
                        encode_utf8(enc.password@),
                    )
                    &&& up.request@ == plain_request("PUT"@, url@, header_values(*headers))
                    &&& up.request@.method == "PUT"@ && up.request@.url == url@
                },
                Err(e) => if old(self).circuit_breaker@.blocks(now_ms) {
                    e@ == ErrorView::BadGateway("circuit open"@)
                } else {
                    &&& EncType::named(upper(enc.enc_type@)) is None
                    &&& e@ == ErrorView::Internal("unknown enc_type: "@ + enc.enc_type@)
                },
            },
    {
        if let Some(e) = self.check_circuit(now_ms) {
            return Err(e);
        }
        let enc_type: EncType = match EncType::from_str(&enc.enc_type) {
            Some(t) => t,
            None => {
                return Err(ProxyError::internal(&join2("unknown enc_type: ", &enc.enc_type)));
            },
        };
        let (cipher, header): (CipherBox, Vec<u8>) = CipherBox::new_for_upload(
            enc_type,
            enc.password.as_str().as_bytes(),
        );
        proof {
            cipher.lemma_kind();
        }
        let job: EncryptJob = CipherEngine::for_type(enc_type).encrypt_job(cipher);
        Ok(Upload { request: forward("PUT", url, headers), header, job })
    }
}

/// The answer to a request that was forwarded, and to an upload: the response
/// without the headers that give its length.
pub fn forwarded_reply(resp: Response) -> (r: (Record, Reply))
    ensures
        r.0 == record_of(resp@.status),
        r.1@ == (ReplyView {
            status: resp@.status,
            headers: without_length(resp@.headers),
            body: BodyView::Copy,
        }),
        r.1.wf(),
{
    (
        status_record(resp.status),
        Reply {
            status: resp.status,
            headers: strip_content_length(resp.headers),
            body: ReplyBody::Copy,
        },
    )
}

/// The error for a forwarded request that had no response, which says that the
/// server failed.
pub fn request_error(what: &str) -> (r: (Record, ProxyError))
    ensures
        r.0 == Record::Failure,
        r.1@ == ErrorView::Proxy("proxy request failed: "@ + what@),
{
    (Record::Failure, ProxyError::proxy(&join2("proxy request failed: ", what)))
}

/// The error for a response that could not be read.
pub fn read_response_error(what: &str) -> (r: ProxyError)
    ensures
        r@ == ErrorView::Proxy("read response: "@ + what@),
{
    ProxyError::proxy(&join2("read response: ", what))
}

/// The error for an upload that had no response, which says that the server
/// failed.
pub fn upload_error(what: &str) -> (r: (Record, ProxyError))
    ensures
        r.0 == Record::Failure,
        r.1@ == ErrorView::Proxy("upload: "@ + what@),
{
    (Record::Failure, ProxyError::proxy(&join2("upload: ", what)))
}

/// The error for a response to an upload that could not be read on.
pub fn upload_response_error(what: &str) -> (r: ProxyError)
    ensures
        r@ == ErrorView::Proxy("upload response: "@ + what@),
{
    ProxyError::proxy(&join2("upload response: ", what))
}

/// The error for the body of a request that could not be read on.
pub fn body_stream_error(what: &str) -> (r: ProxyError)
    ensures
        r@ == ErrorView::Internal("body stream: "@ + what@),
{
    ProxyError::internal(&join2("body stream: ", what))
}

/// The error for the body of a request that could not be read.
pub fn read_body_error(what: &str) -> (r: ProxyError)
    ensures
        r@ == ErrorView::Internal("read body: "@ + what@),
{
    ProxyError::internal(&join2("read body: ", what))
}

} // verus!
