//! A minimal, wire-compatible in-memory key-value server library: a
//! length-prefixed request codec, a typed command model, a keyspace with
//! per-key expiration, a binary snapshot decoder, and the executor that
//! ties a command to the store and its reply. Every function here carries
//! its contract; the network shell around it lives outside the library.
pub mod command;
pub mod rdb;
pub mod resp;
pub mod server;
pub mod store;
