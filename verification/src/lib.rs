//! A minimal HTTP/1.1 wire codec, router, and connection state machine.
//!
//! The library parses raw request bytes into structured [`http::HttpRequest`]
//! values, dispatches them through a [`router::Router`] to a fixed set of
//! handlers, and serializes [`http::HttpResponse`] values back to wire bytes,
//! optionally gzip-compressed. Every function is specified against a
//! mathematical model of the wire format.

pub mod error;
pub mod headers;
pub mod http;
pub mod router;
pub mod server;
pub mod storage;
pub mod strutil;
