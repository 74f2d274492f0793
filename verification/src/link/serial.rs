//! The bytes of the frames of a link. Frames end with four bytes which are kept for a checksum.

use vstd::prelude::*;

use super::frame::{
    CloseAckFrame, CloseFrame, ConnectionParams, FrameType, HandshakeAckFrame,
    HandshakeSynAckFrame, HandshakeSynFrame, StreamAck, StreamDataHeader,
};
use crate::frame::serial::{
    be32, be64, lemma_u32_at, lemma_u64_at, u32_at, u64_at, BlockSerial, Reader, Serial, Writer,
    FRAME_CRC_SIZE, FRAME_HEADER_SIZE, FRAME_OVERHEAD_SIZE, FRAME_TYPE_MASK,
};

verus! {

pub const HANDSHAKE_SYN_SIZE: usize = 21;

pub const HANDSHAKE_SYN_ACK_SIZE: usize = 33;

pub const HANDSHAKE_ACK_SIZE: usize = 20;

pub const CLOSE_SIZE: usize = 8;

pub const CLOSE_ACK_SIZE: usize = 4;

pub const STREAM_DATA_HEADER_SIZE: usize = 4;

pub const STREAM_ACK_SIZE: usize = 13;

impl BlockSerial for HandshakeSynFrame {
    const SIZE: usize = HANDSHAKE_SYN_SIZE;

    open spec fn encode(&self) -> Seq<u8> {
        seq![self.client_params.protocol_id] + be32(self.client_params.receive_rate_max) + be32(self.client_params.packet_size_in_max) + be32(self.client_params.packet_size_out_max) + be32(self.client_mode) + be32(self.client_nonce)
    }

    open spec fn decode(bytes: Seq<u8>) -> Self {
        HandshakeSynFrame {
            client_params: ConnectionParams {
                protocol_id: bytes[0],
                receive_rate_max: u32_at(bytes, 1),
                packet_size_in_max: u32_at(bytes, 5),
                packet_size_out_max: u32_at(bytes, 9),
            },
            client_mode: u32_at(bytes, 13),
            client_nonce: u32_at(bytes, 17),
        }
    }

    open spec fn is_canonical(&self) -> bool {
        true
    }

    proof fn round_trip(&self, rest: Seq<u8>) {
        let bytes = self.encode() + rest;
        lemma_u32_at(bytes, 1, self.client_params.receive_rate_max);
        lemma_u32_at(bytes, 5, self.client_params.packet_size_in_max);
        lemma_u32_at(bytes, 9, self.client_params.packet_size_out_max);
        lemma_u32_at(bytes, 13, self.client_mode);
        lemma_u32_at(bytes, 17, self.client_nonce);
    }

    fn read(rd: &mut Reader<'_>) -> Self {
        let protocol_id: u8 = rd.read_u8();
        let receive_rate_max: u32 = rd.read_u32();
        let packet_size_in_max: u32 = rd.read_u32();
        let packet_size_out_max: u32 = rd.read_u32();
        let client_mode: u32 = rd.read_u32();
        let client_nonce: u32 = rd.read_u32();
        assert(rd.rest() =~= old(rd).rest().skip(Self::SIZE as int));

        Self {
            client_params: ConnectionParams {
                protocol_id,
                receive_rate_max,
                packet_size_in_max,
                packet_size_out_max,
            },
            client_mode,
            client_nonce,
        }
    }

    fn write(wr: &mut Writer<'_>, obj: &Self) {
        wr.write_u8(obj.client_params.protocol_id);
        wr.write_u32(obj.client_params.receive_rate_max);
        wr.write_u32(obj.client_params.packet_size_in_max);
        wr.write_u32(obj.client_params.packet_size_out_max);
        wr.write_u32(obj.client_mode);
        wr.write_u32(obj.client_nonce);
        assert(wr.written() =~= old(wr).written() + obj.encode());
        assert(wr.rest() =~= old(wr).rest().skip(Self::SIZE as int));
    }
}

impl BlockSerial for HandshakeSynAckFrame {
    const SIZE: usize = HANDSHAKE_SYN_ACK_SIZE;

    open spec fn encode(&self) -> Seq<u8> {
        seq![self.server_params.protocol_id] + be32(self.server_params.receive_rate_max) + be32(self.server_params.packet_size_in_max) + be32(self.server_params.packet_size_out_max) + be32(self.client_mode) + be32(self.client_nonce) + be32(self.server_nonce) + be64(self.mac)
    }

    open spec fn decode(bytes: Seq<u8>) -> Self {
        HandshakeSynAckFrame {
            server_params: ConnectionParams {
                protocol_id: bytes[0],
                receive_rate_max: u32_at(bytes, 1),
                packet_size_in_max: u32_at(bytes, 5),
                packet_size_out_max: u32_at(bytes, 9),
            },
            client_mode: u32_at(bytes, 13),
            client_nonce: u32_at(bytes, 17),
            server_nonce: u32_at(bytes, 21),
            mac: u64_at(bytes, 25),
        }
    }

    open spec fn is_canonical(&self) -> bool {
        true
    }

    proof fn round_trip(&self, rest: Seq<u8>) {
        let bytes = self.encode() + rest;
        lemma_u32_at(bytes, 1, self.server_params.receive_rate_max);
        lemma_u32_at(bytes, 5, self.server_params.packet_size_in_max);
        lemma_u32_at(bytes, 9, self.server_params.packet_size_out_max);
        lemma_u32_at(bytes, 13, self.client_mode);
        lemma_u32_at(bytes, 17, self.client_nonce);
        lemma_u32_at(bytes, 21, self.server_nonce);
        lemma_u64_at(bytes, 25, self.mac);
    }

    fn read(rd: &mut Reader<'_>) -> Self {
        let protocol_id: u8 = rd.read_u8();
        let receive_rate_max: u32 = rd.read_u32();
        let packet_size_in_max: u32 = rd.read_u32();
        let packet_size_out_max: u32 = rd.read_u32();
        let client_mode: u32 = rd.read_u32();
        let client_nonce: u32 = rd.read_u32();
        let server_nonce: u32 = rd.read_u32();
        let mac: u64 = rd.read_u64();
        assert(rd.rest() =~= old(rd).rest().skip(Self::SIZE as int));

        Self {
            server_params: ConnectionParams {
                protocol_id,
                receive_rate_max,
                packet_size_in_max,
                packet_size_out_max,
            },
            client_mode,
            client_nonce,
            server_nonce,
            mac,
        }
    }

    fn write(wr: &mut Writer<'_>, obj: &Self) {
        wr.write_u8(obj.server_params.protocol_id);
        wr.write_u32(obj.server_params.receive_rate_max);
        wr.write_u32(obj.server_params.packet_size_in_max);
        wr.write_u32(obj.server_params.packet_size_out_max);
        wr.write_u32(obj.client_mode);
        wr.write_u32(obj.client_nonce);
        wr.write_u32(obj.server_nonce);
        wr.write_u64(obj.mac);
        assert(wr.written() =~= old(wr).written() + obj.encode());
        assert(wr.rest() =~= old(wr).rest().skip(Self::SIZE as int));
    }
}

impl BlockSerial for HandshakeAckFrame {
    const SIZE: usize = HANDSHAKE_ACK_SIZE;

    open spec fn encode(&self) -> Seq<u8> {
        be32(self.client_mode) + be32(self.client_nonce) + be32(self.server_nonce) + be64(self.mac)
    }

    open spec fn decode(bytes: Seq<u8>) -> Self {
        HandshakeAckFrame {
            client_mode: u32_at(bytes, 0),
            client_nonce: u32_at(bytes, 4),
            server_nonce: u32_at(bytes, 8),
            mac: u64_at(bytes, 12),
        }
    }

    open spec fn is_canonical(&self) -> bool {
        true
    }

    proof fn round_trip(&self, rest: Seq<u8>) {
        let bytes = self.encode() + rest;
        lemma_u32_at(bytes, 0, self.client_mode);
        lemma_u32_at(bytes, 4, self.client_nonce);
        lemma_u32_at(bytes, 8, self.server_nonce);
        lemma_u64_at(bytes, 12, self.mac);
    }

    fn read(rd: &mut Reader<'_>) -> Self {
        let client_mode: u32 = rd.read_u32();
        let client_nonce: u32 = rd.read_u32();
        let server_nonce: u32 = rd.read_u32();
        let mac: u64 = rd.read_u64();
        assert(rd.rest() =~= old(rd).rest().skip(Self::SIZE as int));

        Self {
            client_mode,
            client_nonce,
            server_nonce,
            mac,
        }
    }

    fn write(wr: &mut Writer<'_>, obj: &Self) {
        wr.write_u32(obj.client_mode);
        wr.write_u32(obj.client_nonce);
        wr.write_u32(obj.server_nonce);
        wr.write_u64(obj.mac);
        assert(wr.written() =~= old(wr).written() + obj.encode());
        assert(wr.rest() =~= old(wr).rest().skip(Self::SIZE as int));
    }
}

impl BlockSerial for CloseFrame {
    const SIZE: usize = CLOSE_SIZE;

    open spec fn encode(&self) -> Seq<u8> {
        be32(self.mode) + be32(self.remote_nonce)
    }

    open spec fn decode(bytes: Seq<u8>) -> Self {
        CloseFrame {
            mode: u32_at(bytes, 0),
            remote_nonce: u32_at(bytes, 4),
        }
    }

    open spec fn is_canonical(&self) -> bool {
        true
    }

    proof fn round_trip(&self, rest: Seq<u8>) {
        let bytes = self.encode() + rest;
        lemma_u32_at(bytes, 0, self.mode);
        lemma_u32_at(bytes, 4, self.remote_nonce);
    }

    fn read(rd: &mut Reader<'_>) -> Self {
        let mode: u32 = rd.read_u32();
        let remote_nonce: u32 = rd.read_u32();
        assert(rd.rest() =~= old(rd).rest().skip(Self::SIZE as int));

        Self {
            mode,
            remote_nonce,
        }
    }

    fn write(wr: &mut Writer<'_>, obj: &Self) {
        wr.write_u32(obj.mode);
        wr.write_u32(obj.remote_nonce);
        assert(wr.written() =~= old(wr).written() + obj.encode());
        assert(wr.rest() =~= old(wr).rest().skip(Self::SIZE as int));
    }
}

impl BlockSerial for CloseAckFrame {
    const SIZE: usize = CLOSE_ACK_SIZE;

    open spec fn encode(&self) -> Seq<u8> {
        be32(self.remote_nonce)
    }

    open spec fn decode(bytes: Seq<u8>) -> Self {
        CloseAckFrame {
            remote_nonce: u32_at(bytes, 0),
        }
    }

    open spec fn is_canonical(&self) -> bool {
        true
    }

    proof fn round_trip(&self, rest: Seq<u8>) {
        let bytes = self.encode() + rest;
        lemma_u32_at(bytes, 0, self.remote_nonce);
    }

    fn read(rd: &mut Reader<'_>) -> Self {
        let remote_nonce: u32 = rd.read_u32();
        assert(rd.rest() =~= old(rd).rest().skip(Self::SIZE as int));

        Self {
            remote_nonce,
        }
    }

    fn write(wr: &mut Writer<'_>, obj: &Self) {
        wr.write_u32(obj.remote_nonce);
        assert(wr.written() =~= old(wr).written() + obj.encode());
        assert(wr.rest() =~= old(wr).rest().skip(Self::SIZE as int));
    }
}

impl BlockSerial for StreamDataHeader {
    const SIZE: usize = STREAM_DATA_HEADER_SIZE;

    open spec fn encode(&self) -> Seq<u8> {
        be32(self.id)
    }

    open spec fn decode(bytes: Seq<u8>) -> Self {
        StreamDataHeader {
            id: u32_at(bytes, 0),
        }
    }

    open spec fn is_canonical(&self) -> bool {
        true
    }

    proof fn round_trip(&self, rest: Seq<u8>) {
        let bytes = self.encode() + rest;
        lemma_u32_at(bytes, 0, self.id);
    }

    fn read(rd: &mut Reader<'_>) -> Self {
        let id: u32 = rd.read_u32();
        assert(rd.rest() =~= old(rd).rest().skip(Self::SIZE as int));

        Self {
            id,
        }
    }

    fn write(wr: &mut Writer<'_>, obj: &Self) {
        wr.write_u32(obj.id);
        assert(wr.written() =~= old(wr).written() + obj.encode());
        assert(wr.rest() =~= old(wr).rest().skip(Self::SIZE as int));
    }
}

/// The first byte of an acknowledgement: which fragments are acknowledged.
pub open spec fn ack_info(has_unrel: bool, has_rel: bool) -> u8 {
    (if has_unrel {
        0x01u8
    } else {
        0x00u8
    }) | (if has_rel {
        0x02u8
    } else {
        0x00u8
    })
}

/// The ID in a field which may be left empty.
pub open spec fn id_or_zero(id: Option<u32>) -> u32 {
    match id {
        Some(id) => id,
        None => 0,
    }
}

proof fn lemma_ack_info(has_unrel: bool, has_rel: bool)
    by (bit_vector)
    ensures
        (ack_info(has_unrel, has_rel) & 0x01 != 0) == has_unrel,
        (ack_info(has_unrel, has_rel) & 0x02 != 0) == has_rel,
{
}

impl StreamAck {
    /// The bytes of this acknowledgement. Both IDs have their place, whether or not they are given.
    pub open spec fn encode(&self) -> Seq<u8> {
        seq![ack_info(self.unrel_id is Some, self.rel_id is Some)] + be32(self.data_id) + be32(
            id_or_zero(self.unrel_id),
        ) + be32(id_or_zero(self.rel_id))
    }

    /// The acknowledgement at the front of `bytes`. IDs which are given follow one another.
    pub open spec fn decode(bytes: Seq<u8>) -> StreamAck {
        StreamAck {
            data_id: u32_at(bytes, 1),
            unrel_id: if bytes[0] & 0x01 != 0 {
                Some(u32_at(bytes, 5))
            } else {
                None
            },
            rel_id: if bytes[0] & 0x02 == 0 {
                None
            } else if bytes[0] & 0x01 != 0 {
                Some(u32_at(bytes, 9))
            } else {
                Some(u32_at(bytes, 5))
            },
        }
    }

    /// How many bytes that acknowledgement takes.
    pub open spec fn decoded_size(bytes: Seq<u8>) -> int {
        5 + (if bytes[0] & 0x01 != 0 {
            4int
        } else {
            0
        }) + (if bytes[0] & 0x02 != 0 {
            4int
        } else {
            0
        })
    }
}

/// An acknowledgement with both IDs is read as it was written. Of any other, the ID of the data frame
/// and that of the unreliable fragment are read as they were written, but fewer bytes are taken than
/// were written. Where only that of the reliable fragment is given, a zero is read in its stead.
pub proof fn law_ack_round_trip(ack: StreamAck, rest: Seq<u8>)
    ensures
        ({
            let bytes = ack.encode() + rest;
            let read = StreamAck::decode(bytes);
            &&& ack.encode().len() == STREAM_ACK_SIZE
            &&& read.data_id == ack.data_id
            &&& read.unrel_id == ack.unrel_id
            &&& read.rel_id == if ack.unrel_id is None && ack.rel_id is Some {
                Some(0u32)
            } else {
                ack.rel_id
            }
            &&& ack.unrel_id is Some && ack.rel_id is Some ==> read == ack
                && StreamAck::decoded_size(bytes) == STREAM_ACK_SIZE
            &&& ack.unrel_id is None || ack.rel_id is None ==> StreamAck::decoded_size(bytes)
                < STREAM_ACK_SIZE
        }),
{
    let bytes = ack.encode() + rest;
    lemma_u32_at(bytes, 1, ack.data_id);
    lemma_u32_at(bytes, 5, id_or_zero(ack.unrel_id));
    lemma_u32_at(bytes, 9, id_or_zero(ack.rel_id));
    lemma_ack_info(ack.unrel_id is Some, ack.rel_id is Some);
}

impl<'a> Serial<'a> for StreamAck {
    open spec fn encoding(&self) -> Seq<u8> {
        self.encode()
    }

    open spec fn is_encodable(&self) -> bool {
        true
    }

    open spec fn is_readable(bytes: Seq<u8>) -> bool {
        bytes.len() >= STREAM_ACK_SIZE
    }

    open spec fn is_reading(bytes: Seq<u8>, obj: Self) -> bool {
        obj == StreamAck::decode(bytes)
    }

    open spec fn reading_size(bytes: Seq<u8>) -> int {
        StreamAck::decoded_size(bytes)
    }

    fn read(buffer: &'a [u8]) -> (result: Option<(Self, usize)>) {
        if buffer.len() < STREAM_ACK_SIZE {
            return None;
        }
        let mut rd = Reader::new(buffer);

        let info: u8 = rd.read_u8();

        let data_id: u32 = rd.read_u32();

        let unrel_id: Option<u32> = if info & 0x01 != 0 {
            Some(rd.read_u32())
        } else {
            None
        };

        let rel_id: Option<u32> = if info & 0x02 != 0 {
            Some(rd.read_u32())
        } else {
            None
        };

        Some((Self { data_id, unrel_id, rel_id }, rd.bytes_read()))
    }

    fn write(buffer: &mut [u8], obj: &Self) -> (result: Option<usize>) {
        proof {
            law_ack_round_trip(*obj, Seq::empty());
        }
        if buffer.len() < STREAM_ACK_SIZE {
            return None;
        }
        let unrel_bit: u8 = if obj.unrel_id.is_some() {
            0x01
        } else {
            0x00
        };
        let rel_bit: u8 = if obj.rel_id.is_some() {
            0x02
        } else {
            0x00
        };

        let mut wr = Writer::new(buffer);

        wr.write_u8(unrel_bit | rel_bit);
        wr.write_u32(obj.data_id);
        wr.write_u32(
            match obj.unrel_id {
                Some(id) => id,
                None => 0,
            },
        );
        wr.write_u32(
            match obj.rel_id {
                Some(id) => id,
                None => 0,
            },
        );

        let size: usize = wr.bytes_written();
        proof {
            assert(wr.buffer@ =~= wr.written() + wr.rest());
            assert(wr.written() =~= obj.encode());
        }
        Some(size)
    }
}

/// The number of bytes which the header of a data frame takes.
pub proof fn lemma_header_size()
    ensures
        <StreamDataHeader as BlockSerial>::SIZE == STREAM_DATA_HEADER_SIZE,
{
}

/// The first byte of a frame.
pub open spec fn type_byte(frame_type: FrameType) -> u8 {
    match frame_type {
        FrameType::HandshakeSyn => 0x00,
        FrameType::HandshakeSynAck => 0x01,
        FrameType::HandshakeAck => 0x02,
        FrameType::Close => 0x03,
        FrameType::CloseAck => 0x04,
        FrameType::StreamData => 0x05,
        FrameType::StreamAck => 0x06,
        FrameType::StreamDataAck => 0x07,
        FrameType::StreamSync => 0x08,
    }
}

/// The type which the low bits of the first byte of a frame tell.
pub open spec fn byte_type(bits: u8) -> Option<FrameType> {
    match bits {
        0x00 => Some(FrameType::HandshakeSyn),
        0x01 => Some(FrameType::HandshakeSynAck),
        0x02 => Some(FrameType::HandshakeAck),
        0x03 => Some(FrameType::Close),
        0x04 => Some(FrameType::CloseAck),
        0x05 => Some(FrameType::StreamData),
        0x06 => Some(FrameType::StreamAck),
        0x07 => Some(FrameType::StreamDataAck),
        0x08 => Some(FrameType::StreamSync),
        _ => None,
    }
}

/// The bytes of a frame of a given type.
pub open spec fn frame_bytes(frame_type: FrameType, payload: Seq<u8>) -> Seq<u8> {
    seq![type_byte(frame_type)] + payload + seq![0u8, 0, 0, 0]
}

/// The type of a frame, if it is long enough to have one.
pub open spec fn frame_type(bytes: Seq<u8>) -> Option<FrameType> {
    if bytes.len() < FRAME_OVERHEAD_SIZE {
        None
    } else {
        byte_type(bytes[0] & FRAME_TYPE_MASK)
    }
}

/// What lies between the first byte of a frame and its last four.
pub open spec fn frame_payload(bytes: Seq<u8>) -> Seq<u8> {
    bytes.subrange(FRAME_HEADER_SIZE as int, bytes.len() - FRAME_CRC_SIZE)
}

/// A frame which is written arrives with its type and its payload.
pub proof fn law_frame_round_trip(kind: FrameType, payload: Seq<u8>)
    ensures
        frame_type(frame_bytes(kind, payload)) == Some(kind),
        frame_payload(frame_bytes(kind, payload)) == payload,
{
    let bytes = frame_bytes(kind, payload);
    assert(frame_payload(bytes) =~= payload);
    let bits = type_byte(kind);
    assert(bits <= 0x08 ==> bits & 0x0F == bits) by (bit_vector);
}

/// Writes a frame.
pub struct FrameWriter<'a> {
    pub buffer: &'a mut [u8],
    pub write_idx: usize,
}

impl<'a> FrameWriter<'a> {
    pub open spec fn wf(&self) -> bool {
        FRAME_HEADER_SIZE <= self.write_idx && self.write_idx + FRAME_CRC_SIZE <= self.buffer@.len()
    }

    /// The frame so far, without its last four bytes.
    pub open spec fn content(&self) -> Seq<u8> {
        self.buffer@.take(self.write_idx as int)
    }

    /// How many more bytes the frame can hold.
    pub open spec fn room(&self) -> int {
        self.buffer@.len() - self.write_idx - FRAME_CRC_SIZE
    }

    /// Begins a frame, if the buffer can hold one.
    pub fn new(buffer: &'a mut [u8], frame_type: FrameType) -> (result: Option<Self>)
        ensures
            match result {
                Some(writer) => {
                    &&& old(buffer)@.len() >= FRAME_OVERHEAD_SIZE
                    &&& writer.wf()
                    &&& writer.content() == seq![type_byte(frame_type)]
                    &&& writer.buffer@.len() == old(buffer)@.len()
                    &&& final(buffer)@ == final(writer.buffer)@
                },
                None => old(buffer)@.len() < FRAME_OVERHEAD_SIZE && final(buffer)@ == old(
                    buffer,
                )@,
            },
    {
        if buffer.len() < FRAME_HEADER_SIZE + FRAME_CRC_SIZE {
            return None;
        }
        let type_bits: u8 = match frame_type {
            FrameType::HandshakeSyn => 0x00,
            FrameType::HandshakeSynAck => 0x01,
            FrameType::HandshakeAck => 0x02,
            FrameType::Close => 0x03,
            FrameType::CloseAck => 0x04,
            FrameType::StreamData => 0x05,
            FrameType::StreamAck => 0x06,
            FrameType::StreamDataAck => 0x07,
            FrameType::StreamSync => 0x08,
        };

        buffer[0] = type_bits;

        let writer = Self { buffer, write_idx: FRAME_HEADER_SIZE };
        assert(writer.content() =~= seq![type_bits]);
        Some(writer)
    }

    /// Appends a value to the frame. Returns whether there was room for it.
    pub fn write<'b, A>(&mut self, obj: &A) -> (fits: bool) where A: Serial<'b>
        requires
            old(self).wf(),
            obj.encoding().len() <= old(self).room() ==> obj.is_encodable(),
        ensures
            final(self).wf(),
            fits == (obj.encoding().len() <= old(self).room()),
            final(self).content() == if fits {
                old(self).content() + obj.encoding()
            } else {
                old(self).content()
            },
            final(self).buffer@.len() == old(self).buffer@.len(),
            final(final(self).buffer)@ == final(old(self).buffer)@,
    {
        let begin_idx: usize = self.write_idx;
        let end_idx: usize = self.buffer.len() - FRAME_CRC_SIZE;

        let (_, tail) = self.buffer.split_at_mut(begin_idx);
        let (window, _) = tail.split_at_mut(end_idx - begin_idx);

        if let Some(size) = A::write(window, obj) {
            self.write_idx = self.write_idx + size;

            return true;
        }
        false
    }

    /// Hands out the frame.
    pub fn finalize(self) -> (frame: &'a [u8])
        requires
            self.wf(),
        ensures
            frame@ == self.content() + seq![0u8, 0, 0, 0],
            final(self.buffer)@.len() == old(self.buffer)@.len(),
    {
        let ghost content = self.content();
        let buffer = self.buffer;
        let idx: usize = self.write_idx;

        buffer[idx] = 0;
        buffer[idx + 1] = 0;
        buffer[idx + 2] = 0;
        buffer[idx + 3] = 0;

        let frame_size: usize = idx + FRAME_CRC_SIZE;
        assert(buffer@.take(frame_size as int) =~= content + seq![0u8, 0, 0, 0]);

        vstd::slice::slice_subrange(buffer, 0, frame_size)
    }
}

/// Reads a frame.
pub struct FrameReader<'a> {
    buffer: &'a [u8],
    read_idx: usize,
}

impl<'a> FrameReader<'a> {
    pub closed spec fn wf(&self) -> bool {
        self.read_idx + FRAME_CRC_SIZE <= self.buffer@.len()
    }

    /// The bytes of the payload which have not been read yet.
    pub closed spec fn rest(&self) -> Seq<u8> {
        self.buffer@.subrange(self.read_idx as int, self.buffer@.len() - FRAME_CRC_SIZE)
    }

    /// Begins to read a frame, if it has a known type.
    pub fn new(buffer: &'a [u8]) -> (result: Option<(Self, FrameType)>)
        ensures
            match result {
                Some((reader, kind)) => {
                    &&& frame_type(buffer@) == Some(kind)
                    &&& reader.wf()
                    &&& reader.rest() == frame_payload(buffer@)
                },
                None => frame_type(buffer@) is None,
            },
    {
        if buffer.len() < FRAME_HEADER_SIZE + FRAME_CRC_SIZE {
            return None;
        }
        let frame_type = match buffer[0] & FRAME_TYPE_MASK {
            0x00 => FrameType::HandshakeSyn,
            0x01 => FrameType::HandshakeSynAck,
            0x02 => FrameType::HandshakeAck,
            0x03 => FrameType::Close,
            0x04 => FrameType::CloseAck,
            0x05 => FrameType::StreamData,
            0x06 => FrameType::StreamAck,
            0x07 => FrameType::StreamDataAck,
            0x08 => FrameType::StreamSync,
            _ => return None,
        };
        Some((Self { buffer, read_idx: FRAME_HEADER_SIZE }, frame_type))
    }

    /// Reads the next value, if there is a whole one.
    pub fn read<A>(&mut self) -> (result: Option<A>) where A: Serial<'a>
        requires
            old(self).wf(),
        ensures
            final(self).wf(),
            match result {
                Some(obj) => {
                    &&& A::is_readable(old(self).rest())
                    &&& A::is_reading(old(self).rest(), obj)
                    &&& 0 <= A::reading_size(old(self).rest()) <= old(self).rest().len()
                    &&& final(self).rest() == old(self).rest().skip(
                        A::reading_size(old(self).rest()),
                    )
                },
                None => !A::is_readable(old(self).rest()) && final(self).rest() == old(self).rest(),
            },
    {
        let begin_idx: usize = self.read_idx;
        let end_idx: usize = self.buffer.len() - FRAME_CRC_SIZE;

        let bytes: &'a [u8] = vstd::slice::slice_subrange(self.buffer, begin_idx, end_idx);
        assert(bytes@ =~= self.rest());

        if let Some((obj, size)) = A::read(bytes) {
            self.read_idx = self.read_idx + size;
            assert(self.rest() =~= old(self).rest().skip(size as int));
            return Some(obj);
        }
        None
    }
}

} // verus!
