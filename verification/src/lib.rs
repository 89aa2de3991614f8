//! A minimal HTTP/1.1 server core, verified: the request parser, the
//! router, the response serializer, and the per-request dispatch
//! decision.  The embedding program supplies the sockets, the worker
//! pool and the handlers; everything protocol-shaped lives here, under
//! contracts.
pub mod common;
pub mod request;
pub mod response;
pub mod router;
pub mod routing;
pub mod server;
pub mod strmap;
pub mod strutil;
pub mod utils;
