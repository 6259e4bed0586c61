//! What is asked of the upstream server for a request, and what is answered.
use axum::http::header::{HeaderMap, HeaderValue};
use vstd::prelude::*;

use crate::backoff::{BreakerView, CircuitBreaker};
use crate::config::{BackendConfig, StreamConfig};
use crate::errors::{ErrorView, ProxyError};
use crate::service::cipher_engine::DecryptJob;
use crate::service::flow::DownloadView;
use crate::service::headers::{header_values, Fields};
use crate::text::{join2, join3, law_trim_end, starts_with_char, trim_end, trimmed_end};

verus! {

/// What the exchange with the upstream server says about its health.
#[derive(Debug, Clone, Copy, PartialEq, Eq, Structural)]
pub enum Record {
    Nothing,
    Success,
    Failure,
}

/// Whether a status says that the server failed.
pub open spec fn is_server_error(status: u16) -> bool {
    500 <= status < 600
}

/// Whether a status says that a request succeeded.
pub open spec fn is_success(status: u16) -> bool {
    200 <= status < 300
}

/// What a status says about the health of the server.
pub open spec fn record_of(status: u16) -> Record {
    if is_server_error(status) {
        Record::Failure
    } else {
        Record::Success
    }
}

/// What a status says about the health of the server.
pub fn status_record(status: u16) -> (r: Record)
    ensures
        r == record_of(status),
{
    if 500 <= status && status < 600 {
        Record::Failure
    } else {
        Record::Success
    }
}

/// What the proxy knows of an upstream server.
pub struct ProxyEngine {
    /// Whether the certificate of the server is not verified.
    pub insecure: bool,
    pub circuit_breaker: CircuitBreaker,
    pub max_retries: usize,
}

/// The address of a path at an upstream server.
pub open spec fn address(base: Seq<char>, path: Seq<char>) -> Seq<char> {
    if path.len() > 0 && path[0] == '/' {
        trim_end(base, '/') + path
    } else {
        trim_end(base, '/') + "/"@ + path
    }
}

impl ProxyEngine {
    /// The engine for a backend: a breaker that five failures open for half a
    /// minute, and two repetitions of a request.
    pub fn new(cfg: &BackendConfig) -> (r: Self)
        ensures
            r.insecure == cfg.webdav_host.insecure_skip_verify,
            r.max_retries == 2,
            r.circuit_breaker@ == (BreakerView {
                threshold: 5,
                cooldown: 30000,
                failures: 0,
                open_at: 0,
                open: false,
            }),
    {
        let stream: StreamConfig = StreamConfig::default();
        ProxyEngine {
            insecure: cfg.webdav_host.insecure_skip_verify,
            circuit_breaker: CircuitBreaker::new(
                stream.circuit_breaker_threshold,
                stream.circuit_breaker_cooldown_secs * 1000,
            ),
            max_retries: stream.retry_max_attempts,
        }
    }

    /// The address of a path at the upstream server.
    pub fn upstream_url(cfg: &BackendConfig, path: &str) -> (r: String)
        ensures
            r@ == address(cfg.webdav_host.url@, path@),
    {
        let base: String = trimmed_end(&cfg.webdav_host.url, '/');
        if starts_with_char(path, '/') {
            join2(&base, path)
        } else {
            join3(&base, "/", path)
        }
    }

    /// Whether a request may be sent at some time. If not, the error for it.
    pub fn check_circuit(&mut self, now_ms: u64) -> (r: Option<ProxyError>)
        ensures
            r is Some <==> old(self).circuit_breaker@.blocks(now_ms),
            r matches Some(e) ==> e@ == ErrorView::BadGateway("circuit open"@),
            final(self).circuit_breaker@ == old(self).circuit_breaker@.asked(now_ms),
            final(self).max_retries == old(self).max_retries,
            final(self).insecure == old(self).insecure,
    {
        if self.circuit_breaker.allow_at(now_ms) {
            None
        } else {
            Some(ProxyError::bad_gateway("circuit open"))
        }
    }

    /// Notes what an exchange said about the health of the server.
    pub fn settle(&mut self, record: Record, now_ms: u64)
        requires
            record == Record::Failure ==> old(self).circuit_breaker@.failures < usize::MAX,
        ensures
            final(self).circuit_breaker@ == match record {
                Record::Nothing => old(self).circuit_breaker@,
                Record::Success => old(self).circuit_breaker@.closed(),
                Record::Failure => old(self).circuit_breaker@.failed(now_ms),
            },
            final(self).max_retries == old(self).max_retries,
            final(self).insecure == old(self).insecure,
    {
        match record {
            Record::Nothing => {},
            Record::Success => self.circuit_breaker.record_success(),
            Record::Failure => self.circuit_breaker.record_failure_at(now_ms),
        }
    }
}

/// A request to the upstream server.
pub struct Request {
    pub method: String,
    pub url: String,
    pub headers: HeaderMap<HeaderValue>,
}

/// The view of a request.
pub struct RequestView {
    pub method: Seq<char>,
    pub url: Seq<char>,
    pub headers: Fields,
}

impl View for Request {
    type V = RequestView;

    open spec fn view(&self) -> RequestView {
        RequestView {
            method: self.method@,
            url: self.url@,
            headers: header_values(self.headers),
        }
    }
}

/// A response of the upstream server. The body is only there where it is read
/// as a whole.
pub struct Response {
    pub status: u16,
    pub headers: HeaderMap<HeaderValue>,
    pub body: Vec<u8>,
}

/// The view of a response.
pub struct ResponseView {
    pub status: u16,
    pub headers: Fields,
    pub body: Seq<u8>,
}

impl View for Response {
    type V = ResponseView;

    open spec fn view(&self) -> ResponseView {
        ResponseView {
            status: self.status,
            headers: header_values(self.headers),
            body: self.body@,
        }
    }
}

/// What the body of an answer is made of.
pub enum ReplyBody {
    /// Nothing.
    Empty,
    /// The body of the response, as it is.
    Copy,
    /// The body of the response, decrypted.
    Decrypt(DecryptJob),
}

/// The view of what a body is made of.
pub enum BodyView {
    Empty,
    Copy,
    Decrypt(DownloadView),
}

impl View for ReplyBody {
    type V = BodyView;

    open spec fn view(&self) -> BodyView {
        match self {
            ReplyBody::Empty => BodyView::Empty,
            ReplyBody::Copy => BodyView::Copy,
            ReplyBody::Decrypt(job) => BodyView::Decrypt(job@),
        }
    }
}

/// An answer to a client.
pub struct Reply {
    pub status: u16,
    pub headers: HeaderMap<HeaderValue>,
    pub body: ReplyBody,
}

/// The view of an answer.
pub struct ReplyView {
    pub status: u16,
    pub headers: Fields,
    pub body: BodyView,
}

impl View for Reply {
    type V = ReplyView;

    open spec fn view(&self) -> ReplyView {
        ReplyView {
            status: self.status,
            headers: header_values(self.headers),
            body: self.body@,
        }
    }
}

impl Reply {
    /// Whether a job that decrypts the body is in order.
    pub open spec fn wf(&self) -> bool {
        self.body matches ReplyBody::Decrypt(job) ==> job.wf()
    }
}

/// The address of a path is the address of the server, without slashes at its
/// end, one slash, and the path.
pub proof fn law_address(base: Seq<char>, slashes: nat, path: Seq<char>)
    requires
        base.len() > 0 ==> base.last() != '/',
        path.len() > 0 ==> path[0] != '/',
    ensures
        address(base + Seq::new(slashes, |i: int| '/'), path) == base + "/"@ + path,
        address(base + Seq::new(slashes, |i: int| '/'), "/"@ + path) == base + "/"@ + path,
{
    law_trim_end(base, '/', slashes);
    reveal_strlit("/");
    assert(base + ("/"@ + path) =~= base + "/"@ + path);
}

/// A status speaks of a failure of the server if it is one of 500 to 599, and of
/// its health otherwise.
pub proof fn law_record(status: u16)
    ensures
        500 <= status < 600 ==> record_of(status) == Record::Failure,
        status < 500 || 600 <= status ==> record_of(status) == Record::Success,
{
}

/// A status says that a request succeeded if it is one of 200 to 299.
pub proof fn law_success(status: u16)
    ensures
        is_success(status) <==> status / 100 == 2,
        is_server_error(status) <==> status / 100 == 5,
{
}

} // verus!
