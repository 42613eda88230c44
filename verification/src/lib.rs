//! A bridge from a host application to an external computation engine that
//! speaks a length-prefixed, JSON-bodied request/response protocol over a
//! byte stream: the frame codec, the request writer, the incremental reader,
//! and the request-multiplexing connection that correlates responses by id.

pub mod codec;
pub mod conn;
pub mod envelope;
pub mod json;
