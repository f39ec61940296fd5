//! Client-side transport for a message broker's length-prefixed binary
//! RPC protocol.
//!
//! The pieces, leaves first: [`util`] holds the big-endian length fields
//! and the error taxonomy; [`json`] the byte-level primitives of the
//! canonical JSON text; [`header`] and [`command`] the message and its
//! frame codec, proved to round-trip exactly; [`reassembly`] the buffer
//! that cuts complete frames out of arbitrary read chunks; [`pending`] the
//! in-flight table; [`channel_core`] the connection actor's state machine
//! and dispatch decisions; [`topic_config`] the topic table; [`service`]
//! the front-end stubs.  The socket, timer and file work around all of
//! this belongs to the program that runs it.

pub mod channel_core;
pub mod command;
pub mod header;
pub mod json;
pub mod pending;
pub mod reassembly;
pub mod service;
pub mod text;
pub mod topic_config;
pub mod util;

pub use util::Error;
