//! Redpine: a connection-oriented UDP messaging library for real-time
//! applications, delivering both reliable and unreliable datagrams.

use vstd::prelude::*;

pub mod admission;
pub mod bits;
pub mod buffer;
pub mod client;
pub mod connection;
pub mod endpoint;
pub mod frame;
pub mod handshake;
pub mod host;
pub mod id;
pub mod laws;
pub mod link;
mod random;
pub mod server;
pub mod sessions;
pub mod timer_queue;
pub mod timer_wheel;
pub mod wait;

verus! {

/// How a packet is to be delivered to the remote end.
pub enum SendMode {
    /// Delivered in order, and resent until acknowledged.
    Reliable,
    /// Delivered at most once; given up once the lifetime in milliseconds has passed.
    Unreliable(u16),
}

/// Why a connection could not be established, or was lost.
#[derive(Debug, Clone, Copy, PartialEq, Eq, Structural)]
pub enum ErrorKind {
    /// The remote host has not answered for too long.
    Timeout,
    /// The server has no room for another client.
    Capacity,
    /// The connection parameters of client and server do not match.
    Parameter,
}

} // verus!
