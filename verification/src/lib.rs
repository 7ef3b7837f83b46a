//! A miniature key-value server library: a length-prefixed wire codec, an
//! in-memory key space with per-key expiry, a command dispatcher, and a
//! best-effort snapshot loader. All state-changing and parsing logic is
//! verified; sockets, clocks and files live outside the library and hand in
//! plain values (byte vectors and millisecond timestamps).

pub mod codec;
pub mod dispatch;
pub mod http;
pub mod keyspace;
pub mod snapshot;
