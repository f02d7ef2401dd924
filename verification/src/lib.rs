//! Networking core of a small multiplayer block game: message framing, delivery
//! tiers over datagrams, connection lifecycle, and the bookkeeping around the
//! fixed-tick simulation. Everything here is pure: sockets, clocks and floating
//! point arithmetic belong to the caller, which hands in bytes, millisecond
//! timestamps and IEEE-754 bit patterns.

pub mod client;
pub mod connection;
pub mod envelope;
pub mod guarantees;
pub mod message;
pub mod peer;
pub mod reliable;
pub mod sequence;
pub mod server;
pub mod wire;
