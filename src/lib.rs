//! A framed request/response protocol for a connection-oriented server.
//!
//! - `frame`: length-prefixed (four-byte big-endian) and newline-delimited frames.
//! - `message`: the request and reply kinds, their mathematical values, and
//!   the `Request` and `Response` traits through which each kind is handled
//!   and written.
//! - `envelope`: the tagged binary envelope of requests and replies.
//! - `json`: flat JSON objects, as the text wire writes them.
//! - `text`: the JSON-line envelope of requests and replies.
//! - `dispatch`: reads one request and answers it; every failure becomes an
//!   error reply.
//! - `session`: the per-connection state machine: bytes in, reply frames out,
//!   one per request and in request order.

pub mod frame;
pub mod message;
pub mod envelope;
pub mod dispatch;
pub mod session;
pub mod json;
pub mod text;
