//! What the proxy does with requests and with file contents.
pub mod cipher_engine;
pub mod download;
pub mod flow;
pub mod head;
pub mod headers;
pub mod proxy;
pub mod ranges;
pub mod requests;
pub mod upload;
pub mod upstream;
pub mod webdav_handler;
