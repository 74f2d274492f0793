//! Where everything is in a frame.

use vstd::prelude::*;

use super::serial::{
    encode_datagram, frame_bytes, law_datagram_round_trip, lemma_u16_at, lemma_u32_at, lemma_u64_at,
    u16_at, u32_at, u64_at, BlockSerial,
};
use super::{
    CloseAckFrame, CloseFrame, DatagramView, FrameType, HandshakeAlphaAckFrame, HandshakeAlphaFrame,
    HandshakeBetaAckFrame, HandshakeBetaFrame, HandshakeErrorKind, StreamAck, StreamSegmentHeader,
    StreamSync,
};

verus! {

/// The first byte of a frame tells its type, the payload comes next, and four more bytes at the end
/// hold the checksum.
pub proof fn law_frame_format(kind: FrameType, payload: Seq<u8>)
    ensures
        ({
            let bytes = frame_bytes(kind, payload);
            &&& bytes.len() == payload.len() + 5
            &&& bytes.subrange(1, bytes.len() - 4) == payload
            &&& bytes[0] == match kind {
                FrameType::HandshakeAlpha => 0u8,
                FrameType::HandshakeAlphaAck => 1,
                FrameType::HandshakeBeta => 2,
                FrameType::HandshakeBetaAck => 3,
                FrameType::Close => 4,
                FrameType::CloseAck => 5,
                FrameType::StreamSegment => 6,
                FrameType::StreamAck => 7,
                FrameType::StreamSegmentAck => 8,
                FrameType::StreamSync => 9,
            }
        }),
{
    let bytes = frame_bytes(kind, payload);
    assert(bytes.subrange(1, bytes.len() - 4) =~= payload);
}

/// The first frame of a handshake holds the protocol and the client's nonce.
pub proof fn law_alpha_format(frame: HandshakeAlphaFrame)
    ensures
        frame.encode().len() == 6,
        u16_at(frame.encode(), 0) == frame.protocol_id,
        u32_at(frame.encode(), 2) == frame.client_nonce,
{
    lemma_u16_at(frame.encode(), 0, frame.protocol_id);
    lemma_u32_at(frame.encode(), 2, frame.client_nonce);
}

/// The answer holds the server's limits, both nonces, the time and the code.
pub proof fn law_alpha_ack_format(frame: HandshakeAlphaAckFrame)
    ensures
        frame.encode().len() == 28,
        u32_at(frame.encode(), 0) == frame.server_params.packet_size_in_max,
        u32_at(frame.encode(), 4) == frame.server_params.packet_size_out_max,
        u32_at(frame.encode(), 8) == frame.client_nonce,
        u32_at(frame.encode(), 12) == frame.server_nonce,
        u32_at(frame.encode(), 16) == frame.server_timestamp,
        u64_at(frame.encode(), 20) == frame.server_mac,
{
    let bytes = frame.encode();
    lemma_u32_at(bytes, 0, frame.server_params.packet_size_in_max);
    lemma_u32_at(bytes, 4, frame.server_params.packet_size_out_max);
    lemma_u32_at(bytes, 8, frame.client_nonce);
    lemma_u32_at(bytes, 12, frame.server_nonce);
    lemma_u32_at(bytes, 16, frame.server_timestamp);
    lemma_u64_at(bytes, 20, frame.server_mac);
}

/// The second frame of a handshake holds the client's limits, and returns the rest of the answer.
pub proof fn law_beta_format(frame: HandshakeBetaFrame)
    ensures
        frame.encode().len() == 28,
        u32_at(frame.encode(), 0) == frame.client_params.packet_size_in_max,
        u32_at(frame.encode(), 4) == frame.client_params.packet_size_out_max,
        u32_at(frame.encode(), 8) == frame.client_nonce,
        u32_at(frame.encode(), 12) == frame.server_nonce,
        u32_at(frame.encode(), 16) == frame.server_timestamp,
        u64_at(frame.encode(), 20) == frame.server_mac,
{
    let bytes = frame.encode();
    lemma_u32_at(bytes, 0, frame.client_params.packet_size_in_max);
    lemma_u32_at(bytes, 4, frame.client_params.packet_size_out_max);
    lemma_u32_at(bytes, 8, frame.client_nonce);
    lemma_u32_at(bytes, 12, frame.server_nonce);
    lemma_u32_at(bytes, 16, frame.server_timestamp);
    lemma_u64_at(bytes, 20, frame.server_mac);
}

/// What it is answered with holds the reason for which the client is refused, if it is, and its
/// nonce.
pub proof fn law_beta_ack_format(frame: HandshakeBetaAckFrame)
    ensures
        frame.encode().len() == 5,
        u32_at(frame.encode(), 1) == frame.client_nonce,
        frame.encode()[0] == match frame.error {
            None => 0u8,
            Some(HandshakeErrorKind::Capacity) => 1,
            Some(HandshakeErrorKind::Parameter) => 2,
        },
{
    lemma_u32_at(frame.encode(), 1, frame.client_nonce);
}

/// The frames which close a connection hold the nonce of the host to which they are sent, and a
/// sync holds the ID of the segment which is sent next.
pub proof fn law_close_and_sync_format(close: CloseFrame, close_ack: CloseAckFrame, sync: StreamSync)
    ensures
        close.encode().len() == 4 && close_ack.encode().len() == 4 && sync.encode().len() == 4,
        u32_at(close.encode(), 0) == close.remote_nonce,
        u32_at(close_ack.encode(), 0) == close_ack.remote_nonce,
        u32_at(sync.encode(), 0) == sync.next_segment_id,
{
    lemma_u32_at(close.encode(), 0, close.remote_nonce);
    lemma_u32_at(close_ack.encode(), 0, close_ack.remote_nonce);
    lemma_u32_at(sync.encode(), 0, sync.next_segment_id);
}

/// A segment begins with its nonce and its ID. An acknowledgement holds the ID of the segment which
/// is expected next, and that of the reliable fragment which is, if it acknowledges any.
pub proof fn law_stream_format(header: StreamSegmentHeader, ack: StreamAck)
    requires
        ack.segment_history < 32,
    ensures
        header.encode().len() == 5,
        u32_at(header.encode(), 1) == header.id,
        header.encode()[0] == if header.nonce {
            1u8
        } else {
            0
        },
        ack.encode().len() == 9,
        u32_at(ack.encode(), 1) == ack.segment_id,
        ack.rel_fragment_id matches Some(id) ==> u32_at(ack.encode(), 5) == id,
        ack.rel_fragment_id is None ==> u32_at(ack.encode(), 5) == 0,
        ack.encode()[0] & 0x1F == ack.segment_history,
        (ack.encode()[0] & 0x20 != 0) == ack.segment_checksum,
        (ack.encode()[0] & 0x80 != 0) == (ack.rel_fragment_id is Some),
{
    lemma_u32_at(header.encode(), 1, header.id);
    lemma_u32_at(ack.encode(), 1, ack.segment_id);
    lemma_u32_at(
        ack.encode(),
        5,
        match ack.rel_fragment_id {
            Some(id) => id,
            None => 0,
        },
    );
    ack.round_trip(Seq::empty());
    assert(ack.encode() + Seq::empty() =~= ack.encode());
}

/// A datagram begins with three flags, the ID of its fragment and the amount of data which follows.
pub proof fn law_datagram_format(datagram: DatagramView)
    requires
        datagram.data.len() <= 65535,
    ensures
        ({
            let bytes = encode_datagram(datagram);
            &&& bytes.len() == 7 + datagram.data.len()
            &&& (bytes[0] & 0x01 != 0) == datagram.unrel
            &&& (bytes[0] & 0x02 != 0) == datagram.first
            &&& (bytes[0] & 0x04 != 0) == datagram.last
            &&& u32_at(bytes, 1) == datagram.id
            &&& u16_at(bytes, 5) == datagram.data.len()
            &&& bytes.skip(7) == datagram.data
        }),
{
    let bytes = encode_datagram(datagram);
    lemma_u32_at(bytes, 1, datagram.id);
    lemma_u16_at(bytes, 5, datagram.data.len() as u16);
    law_datagram_round_trip(datagram, Seq::empty());
    assert(bytes + Seq::empty() =~= bytes);
    assert(bytes.skip(7) =~= datagram.data);
}

} // verus!
