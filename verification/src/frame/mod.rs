//! Frames: what is sent in one UDP packet.

use vstd::prelude::*;

pub mod format;
pub mod serial;

verus! {

#[derive(Debug, Clone, Copy, Eq, PartialEq, Structural)]
pub enum FrameType {
    HandshakeAlpha,
    HandshakeAlphaAck,
    HandshakeBeta,
    HandshakeBetaAck,
    Close,
    CloseAck,
    StreamSegment,
    StreamAck,
    StreamSegmentAck,
    StreamSync,
}

/// Why a server turns a client down.
#[derive(Debug, Clone, Copy, Eq, PartialEq, Structural)]
pub enum HandshakeErrorKind {
    /// The server has no room for another client.
    Capacity,
    /// The connection parameters of client and server do not match.
    Parameter,
}

#[derive(Debug, Clone, Copy)]
pub struct ConnectionParams {
    pub packet_size_in_max: u32,
    pub packet_size_out_max: u32,
}

/// A fragment of a packet on its way.
#[derive(Debug)]
pub struct Datagram<'a> {
    pub id: u32,
    pub unrel: bool,
    pub first: bool,
    pub last: bool,
    pub data: &'a [u8],
}

/// What a [`Datagram`] stands for.
#[verifier::ext_equal]
pub struct DatagramView {
    pub id: u32,
    pub unrel: bool,
    pub first: bool,
    pub last: bool,
    pub data: Seq<u8>,
}

impl<'a> View for Datagram<'a> {
    type V = DatagramView;

    open spec fn view(&self) -> DatagramView {
        DatagramView {
            id: self.id,
            unrel: self.unrel,
            first: self.first,
            last: self.last,
            data: self.data@,
        }
    }
}

#[derive(Debug)]
pub struct HandshakeAlphaFrame {
    pub protocol_id: u16,
    pub client_nonce: u32,
}

#[derive(Debug)]
pub struct HandshakeAlphaAckFrame {
    pub server_params: ConnectionParams,
    pub client_nonce: u32,
    pub server_nonce: u32,
    pub server_timestamp: u32,
    pub server_mac: u64,
}

#[derive(Debug)]
pub struct HandshakeBetaFrame {
    pub client_params: ConnectionParams,
    pub client_nonce: u32,
    pub server_nonce: u32,
    pub server_timestamp: u32,
    pub server_mac: u64,
}

#[derive(Debug)]
pub struct HandshakeBetaAckFrame {
    pub error: Option<HandshakeErrorKind>,
    pub client_nonce: u32,
}

#[derive(Debug)]
pub struct CloseFrame {
    pub remote_nonce: u32,
}

#[derive(Debug)]
pub struct CloseAckFrame {
    pub remote_nonce: u32,
}

#[derive(Debug)]
pub struct StreamSegmentHeader {
    pub id: u32,
    pub nonce: bool,
}

#[derive(Debug)]
pub struct StreamAck {
    pub segment_id: u32,
    pub segment_history: u8,
    pub segment_checksum: bool,
    pub rel_fragment_id: Option<u32>,
}

#[derive(Debug)]
pub struct StreamSync {
    pub next_segment_id: u32,
}

} // verus!
