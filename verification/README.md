# whim-dav-proxy

A WebDAV proxy that encrypts file contents, and if wanted file names, on their
way to an upstream server and decrypts them on their way back.

- `src/` is the library. Everything the proxy decides and computes is in it,
  stated in contracts and proved with Verus: the ciphers over pieces of a file
  (`crypto`), the codes of file names (`crypto::filename`), the flow of contents
  through a cipher (`service::flow`, `service::cipher_engine`), the exchange
  with the upstream server step by step (`service::download`, `service::head`,
  `service::upload`), the plan for each request of a client
  (`service::webdav_handler`), the circuit breaker and the repetition of requests
  (`backoff`), and the configuration (`config`).
- `app/` is the program around it: sockets, the HTTP client, the configuration
  file.
- `tests/` runs the library with the crates that it calls.

Functions whose names begin with `law_` state what holds of the library as a
whole, for instance that a download gives back what an upload was given.

What is not proved stands behind small functions marked
`#[verifier::external_body]`. Each says which function of which crate it calls
and what is taken for granted of it.
