//! A verified core for a minimal Redis-flavoured (RESP) server: a codec that
//! parses and serializes frames, and a connection registry that accumulates
//! per-client bytes and decides each reply.

pub mod codec;
pub mod server;

pub use codec::RESP;
