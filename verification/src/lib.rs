//! The core of a small key-value service: the wire protocol for frames, the
//! commands that frames ask for, the store, and the states that a connection
//! goes through while it is served.
//!
//! Nothing here performs I/O. A driver owns the socket: it hands the bytes
//! that arrive to a [`connection::Connection`], lets a [`handler::State`]
//! tell it what to do next, and writes out the bytes that it is given.
//!
//! - [`frame`] and [`codec`]: frames, their encoding, and reading them back;
//!   [`roundtrip`] holds what is proved of the two together.
//! - [`connection`]: bytes in, whole frames out.
//! - [`command`]: what a request frame asks for.
//! - [`store`] and [`shard`]: the mapping from keys to values, as one map or
//!   in shards.
//! - [`handler`]: executing requests, and the state machine of a connection;
//!   [`theorems`] holds what is proved of requests served one after the other.
//! - [`payload`], [`text`], [`line`], [`decimal`]: the pieces underneath.

pub mod codec;
pub mod command;
pub mod connection;
pub mod decimal;
pub mod frame;
pub mod handler;
pub mod line;
pub mod payload;
pub mod roundtrip;
pub mod shard;
pub mod store;
pub mod text;
pub mod theorems;
