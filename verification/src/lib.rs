//! A small request/response cipher service: a client sends a text message and
//! a shift value to a server over a local stream channel; the server applies a
//! substitution cipher and returns the ciphertext, which the client reverses.
//!
//! This crate holds the verified core of that exchange: the cipher transform
//! (`cipher`), the wire codec for the two-field request record (`codec`), the
//! decimal shift parser (`shift`), and the worker's request-processing step
//! (`service`). Process plumbing (sockets, forking, reaping) lives outside the
//! library and hands it plain byte buffers.

pub mod cipher;
pub mod codec;
pub mod errors;
pub mod service;
pub mod shift;
