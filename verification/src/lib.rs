//! A small key-value store served over a length-prefixed text protocol.
//!
//! Bytes arrive, are decoded to a frame, read as a command, run against
//! the store, and answered with a frame that is encoded again. The
//! modules, leaves first:
//!
//! - [`frame`]: the tagged values of the protocol;
//! - [`decimal`], [`wire`]: numerals, and the byte encoding of a frame;
//! - [`grammar`], [`decode`]: the grammar of the encoding, and the decoder
//!   that computes it;
//! - [`roundtrip`]: that decoding and encoding invert one another;
//! - [`command`]: a frame read as a command name and arguments;
//! - [`store`]: the map from keys to values;
//! - [`commands`]: the dispatcher, from a request to a reply and a new
//!   state of the store;
//! - [`connection`]: one step of a client connection;
//! - [`laws`]: what holds of the dispatcher across several requests.
//!
//! A store is a plain value and its operations are sequential. A server
//! that serves several clients at once keeps one store behind a lock and
//! holds the lock for one [`commands::dispatch`] at a time; decoding and
//! encoding need no store and happen outside the lock.

pub mod command;
pub mod commands;
pub mod connection;
pub mod decimal;
pub mod decode;
pub mod frame;
pub mod grammar;
pub mod laws;
pub mod roundtrip;
pub mod store;
pub mod wire;
