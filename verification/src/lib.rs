//! The wire-protocol core of a minimal HTTP/1.1 server: buffers are parsed
//! into requests, dispatched against a small fixed route table, and the
//! responses rendered back to exact wire bytes, with gzip content encoding
//! when the client asks for it. Every step is specified against a
//! mathematical model of the bytes and proved; only the call into the gzip
//! encoder is taken on trust. Reading the socket, the filesystem work of
//! the `/files/` routes, and the accept loop live outside this crate and
//! hand it plain values.

pub mod bytes;
pub mod headers;
pub mod request;
pub mod response;
pub mod router;
pub mod gzip;
