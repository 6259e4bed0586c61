//! An encrypting WebDAV proxy: what it decides and computes.
pub mod backoff;
pub mod config;
pub mod crypto;
pub mod errors;
pub mod paths;
pub mod service;
pub mod text;
