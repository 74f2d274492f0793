//! The frames of a link.

use vstd::prelude::*;

verus! {

#[derive(Debug, Clone, Copy, Eq, PartialEq, Structural)]
pub enum FrameType {
    HandshakeSyn,
    HandshakeSynAck,
    HandshakeAck,
    Close,
    CloseAck,
    StreamData,
    StreamAck,
    StreamDataAck,
    StreamSync,
}

#[derive(Debug, Clone, Copy)]
pub struct ConnectionParams {
    pub protocol_id: u8,
    pub receive_rate_max: u32,
    pub packet_size_in_max: u32,
    pub packet_size_out_max: u32,
}

#[derive(Debug)]
pub struct HandshakeSynFrame {
    pub client_params: ConnectionParams,
    pub client_mode: u32,
    pub client_nonce: u32,
}

#[derive(Debug)]
pub struct HandshakeSynAckFrame {
    pub server_params: ConnectionParams,
    pub client_mode: u32,
    pub client_nonce: u32,
    pub server_nonce: u32,
    pub mac: u64,
}

#[derive(Debug)]
pub struct HandshakeAckFrame {
    pub client_mode: u32,
    pub client_nonce: u32,
    pub server_nonce: u32,
    pub mac: u64,
}

#[derive(Debug)]
pub struct CloseFrame {
    pub mode: u32,
    pub remote_nonce: u32,
}

#[derive(Debug)]
pub struct CloseAckFrame {
    pub remote_nonce: u32,
}

#[derive(Debug)]
pub struct StreamDataHeader {
    pub id: u32,
}

#[derive(Debug)]
pub struct StreamAck {
    /// The data frame which is expected next.
    pub data_id: u32,
    /// The unreliable fragment which is expected next.
    pub unrel_id: Option<u32>,
    /// The reliable fragment which is expected next.
    pub rel_id: Option<u32>,
}

} // verus!
