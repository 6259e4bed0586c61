//! What can go wrong between a client and the upstream server.
use vstd::prelude::*;

use crate::text::join2;

verus! {

/// Why a request could not be answered.
#[derive(Debug)]
pub enum ProxyError {
    /// The exchange with the upstream server failed.
    Proxy(String),
    /// The proxy itself cannot do what is asked.
    Internal(String),
    /// The upstream server is not to be asked for now.
    BadGateway(String),
}

/// The view of an error.
pub enum ErrorView {
    Proxy(Seq<char>),
    Internal(Seq<char>),
    BadGateway(Seq<char>),
}

impl View for ProxyError {
    type V = ErrorView;

    open spec fn view(&self) -> ErrorView {
        match self {
            ProxyError::Proxy(msg) => ErrorView::Proxy(msg@),
            ProxyError::Internal(msg) => ErrorView::Internal(msg@),
            ProxyError::BadGateway(msg) => ErrorView::BadGateway(msg@),
        }
    }
}

impl ErrorView {
    /// The error as people read it.
    pub open spec fn text(self) -> Seq<char> {
        match self {
            ErrorView::Proxy(msg) => "proxy error: "@ + msg,
            ErrorView::Internal(msg) => "internal error: "@ + msg,
            ErrorView::BadGateway(msg) => "bad gateway: "@ + msg,
        }
    }
}

impl ProxyError {
    pub fn proxy(msg: &str) -> (r: Self)
        ensures
            r@ == ErrorView::Proxy(msg@),
    {
        ProxyError::Proxy(msg.to_string())
    }

    pub fn internal(msg: &str) -> (r: Self)
        ensures
            r@ == ErrorView::Internal(msg@),
    {
        ProxyError::Internal(msg.to_string())
    }

    pub fn bad_gateway(msg: &str) -> (r: Self)
        ensures
            r@ == ErrorView::BadGateway(msg@),
    {
        ProxyError::BadGateway(msg.to_string())
    }

    /// The error as people read it.
    pub fn message(&self) -> (r: String)
        ensures
            r@ == self@.text(),
    {
        match self {
            ProxyError::Proxy(msg) => join2("proxy error: ", msg),
            ProxyError::Internal(msg) => join2("internal error: ", msg),
            ProxyError::BadGateway(msg) => join2("bad gateway: ", msg),
        }
    }
}

/// People read of an error what kind it is of and what it says.
pub proof fn law_error_text(msg: Seq<char>)
    ensures
        ErrorView::Proxy(msg).text() == "proxy error: "@ + msg,
        ErrorView::Internal(msg).text() == "internal error: "@ + msg,
        ErrorView::BadGateway(msg).text() == "bad gateway: "@ + msg,
{
}

} // verus!
