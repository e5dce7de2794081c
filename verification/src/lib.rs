//! An in-memory store that maps each 8-bit key to an append-only sequence of
//! 32-bit values, served over a fixed-frame binary protocol.
//!
//! - `codec`: the wire format of requests and responses.
//! - `model`: the store as a mathematical map, what each command does to it,
//!   and the laws that follow.
//! - `store`: the store itself, which applies one command at a time.
//! - `connection`: the state machine of one client connection on the server.
//! - `client`: the client's side, building requests and reading responses.
//! - `timing`: figures over measured durations, for load tests.

pub mod client;
pub mod codec;
pub mod connection;
pub mod model;
pub mod store;
pub mod timing;
