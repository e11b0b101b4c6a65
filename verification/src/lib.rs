//! A verified SCGI (Simple Common Gateway Interface) protocol library.
//!
//! SCGI is a binary request-forwarding protocol used by front-end web servers
//! to delegate requests to backend application processes over a socket. The
//! request metadata travels as a netstring-framed header block
//! (`<decimal-digits>':' (name NUL value NUL)* ','`) followed by the raw body.
//!
//! The crate provides the wire-format decoder ([`codec`]), the decoded request
//! environment with its accessors ([`env`]), and the per-connection dispatch
//! state machine of the server ([`server`]). All I/O stays with the caller:
//! the library works on byte buffers and plain values.

pub mod codec;
pub mod env;
pub mod outside;
pub mod parse;
pub mod server;
