//! The verified part of a relay transport over QUIC.
//!
//! - [`quic_framed`]: length-prefixed framing of relay frames on a QUIC stream,
//!   with [`varint`] for the length and [`buffer`] for the buffers
//! - [`stream`]: what the framing guarantees of a whole stream
//! - [`quic_relay`], [`connection`]: what the relay server does next, and what
//!   it does next with one client
//! - [`ping`], [`relay_bench`]: the benchmark of round trips through a relay
//! - [`text`]: numbers and columns as text
//!
//! Nothing here reads a socket or a clock. The owner of those performs the
//! actions that are decided here and reports what came of them.

pub mod buffer;
pub mod connection;
pub mod ping;
pub mod quic_framed;
pub mod quic_relay;
pub mod relay_bench;
pub mod stream;
pub mod text;
pub mod varint;
