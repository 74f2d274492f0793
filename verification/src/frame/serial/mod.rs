//! How frames are laid out as bytes.

use vstd::prelude::*;

use super::{
    CloseAckFrame, CloseFrame, ConnectionParams, Datagram, DatagramView, FrameType,
    HandshakeAlphaAckFrame, HandshakeAlphaFrame, HandshakeBetaAckFrame, HandshakeBetaFrame,
    HandshakeErrorKind, StreamAck, StreamSegmentHeader, StreamSync,
};

pub mod crc;

verus! {

pub const PROTOCOL_ID: u16 = 0;

pub const FRAME_HEADER_SIZE: usize = 1;

pub const FRAME_CRC_SIZE: usize = 4;

pub const FRAME_OVERHEAD_SIZE: usize = FRAME_HEADER_SIZE + FRAME_CRC_SIZE;

pub const HANDSHAKE_ALPHA_SIZE: usize = 6;

pub const HANDSHAKE_ALPHA_ACK_SIZE: usize = 28;

pub const HANDSHAKE_BETA_SIZE: usize = 28;

pub const HANDSHAKE_BETA_ACK_SIZE: usize = 5;

pub const CLOSE_SIZE: usize = 4;

pub const CLOSE_ACK_SIZE: usize = 4;

pub const STREAM_SEGMENT_HEADER_SIZE: usize = 5;

pub const STREAM_ACK_SIZE: usize = 9;

pub const STREAM_SYNC_SIZE: usize = 4;

pub const DATAGRAM_HEADER_SIZE: usize = 7;

pub const DATAGRAM_DATA_SIZE_MAX: usize = 65535;

pub const DATAGRAM_UNREL_BIT: u8 = 0x01;

pub const DATAGRAM_FIRST_BIT: u8 = 0x02;

pub const DATAGRAM_LAST_BIT: u8 = 0x04;

pub const FRAME_TYPE_MASK: u8 = 0x0F;

pub const HANDSHAKE_ALPHA_FRAME_SIZE_MAX: usize = 1472;

/// The bytes of a value, most significant first.
pub open spec fn be16(value: u16) -> Seq<u8> {
    seq![(value >> 8) as u8, value as u8]
}

/// The bytes of a value, most significant first.
pub open spec fn be32(value: u32) -> Seq<u8> {
    seq![(value >> 24) as u8, (value >> 16) as u8, (value >> 8) as u8, value as u8]
}

/// The bytes of a value, most significant first.
pub open spec fn be64(value: u64) -> Seq<u8> {
    seq![
        (value >> 56) as u8,
        (value >> 48) as u8,
        (value >> 40) as u8,
        (value >> 32) as u8,
        (value >> 24) as u8,
        (value >> 16) as u8,
        (value >> 8) as u8,
        value as u8,
    ]
}

/// The value of which the bytes start at index `i`.
pub open spec fn u16_at(bytes: Seq<u8>, i: int) -> u16 {
    ((bytes[i] as u16) << 8) | bytes[i + 1] as u16
}

/// The value of which the bytes start at index `i`.
pub open spec fn u32_at(bytes: Seq<u8>, i: int) -> u32 {
    ((bytes[i] as u32) << 24) | ((bytes[i + 1] as u32) << 16) | ((bytes[i + 2] as u32) << 8)
        | bytes[i + 3] as u32
}

/// The value of which the bytes start at index `i`.
pub open spec fn u64_at(bytes: Seq<u8>, i: int) -> u64 {
    ((bytes[i] as u64) << 56) | ((bytes[i + 1] as u64) << 48) | ((bytes[i + 2] as u64) << 40) | ((
    bytes[i + 3] as u64) << 32) | ((bytes[i + 4] as u64) << 24) | ((bytes[i + 5] as u64) << 16) | ((
    bytes[i + 6] as u64) << 8) | bytes[i + 7] as u64
}

pub proof fn lemma_u16_at(bytes: Seq<u8>, i: int, value: u16)
    requires
        0 <= i,
        bytes[i] == be16(value)[0],
        bytes[i + 1] == be16(value)[1],
    ensures
        u16_at(bytes, i) == value,
{
    assert((((value >> 8) as u8) as u16) << 8 | (value as u8) as u16 == value) by (bit_vector);
}

pub proof fn lemma_u32_at(bytes: Seq<u8>, i: int, value: u32)
    requires
        0 <= i,
        bytes[i] == be32(value)[0],
        bytes[i + 1] == be32(value)[1],
        bytes[i + 2] == be32(value)[2],
        bytes[i + 3] == be32(value)[3],
    ensures
        u32_at(bytes, i) == value,
{
    assert((((value >> 24) as u8) as u32) << 24 | (((value >> 16) as u8) as u32) << 16 | (((value
        >> 8) as u8) as u32) << 8 | (value as u8) as u32 == value) by (bit_vector);
}

pub proof fn lemma_u64_at(bytes: Seq<u8>, i: int, value: u64)
    requires
        0 <= i,
        forall|k: int| 0 <= k < 8 ==> #[trigger] bytes[i + k] == be64(value)[k],
    ensures
        u64_at(bytes, i) == value,
{
    assert(bytes[i + 0] == be64(value)[0]);
    assert((((value >> 56) as u8) as u64) << 56 | (((value >> 48) as u8) as u64) << 48 | (((value
        >> 40) as u8) as u64) << 40 | (((value >> 32) as u8) as u64) << 32 | (((value >> 24) as u8)
        as u64) << 24 | (((value >> 16) as u8) as u64) << 16 | (((value >> 8) as u8) as u64) << 8
        | (value as u8) as u64 == value) by (bit_vector);
}

/// Reads values from the front of a buffer.
pub struct Reader<'a> {
    pub buffer: &'a [u8],
    pub bytes_read: usize,
}

impl<'a> Reader<'a> {
    /// The bytes which have not been read yet.
    pub open spec fn rest(&self) -> Seq<u8> {
        self.buffer@.skip(self.bytes_read as int)
    }

    pub open spec fn wf(&self) -> bool {
        self.bytes_read <= self.buffer@.len()
    }

    /// What holds once `n` bytes have been read.
    pub open spec fn has_read(&self, before: Reader<'a>, n: int) -> bool {
        &&& self.wf()
        &&& self.buffer == before.buffer
        &&& self.bytes_read == before.bytes_read + n
        &&& self.rest() == before.rest().skip(n)
    }

    pub fn new(buffer: &'a [u8]) -> (reader: Self)
        ensures
            reader.wf(),
            reader.buffer == buffer,
            reader.bytes_read == 0,
            reader.rest() == buffer@,
    {
        let reader = Self { buffer, bytes_read: 0 };
        assert(reader.rest() =~= buffer@);
        reader
    }

    pub fn bytes_read(&self) -> (count: usize)
        ensures
            count == self.bytes_read,
    {
        self.bytes_read
    }

    pub fn read_u8(&mut self) -> (value: u8)
        requires
            old(self).wf(),
            old(self).rest().len() >= 1,
        ensures
            value == old(self).rest()[0],
            final(self).has_read(*old(self), 1),
    {
        let value: u8 = self.buffer[self.bytes_read];
        self.bytes_read = self.bytes_read + 1;
        assert(self.rest() =~= old(self).rest().skip(1));
        value
    }

    pub fn read_u16(&mut self) -> (value: u16)
        requires
            old(self).wf(),
            old(self).rest().len() >= 2,
        ensures
            value == u16_at(old(self).rest(), 0),
            final(self).has_read(*old(self), 2),
    {
        let i: usize = self.bytes_read;
        let value: u16 = ((self.buffer[i] as u16) << 8) | self.buffer[i + 1] as u16;
        self.bytes_read = self.bytes_read + 2;
        assert(self.rest() =~= old(self).rest().skip(2));
        value
    }

    pub fn read_u32(&mut self) -> (value: u32)
        requires
            old(self).wf(),
            old(self).rest().len() >= 4,
        ensures
            value == u32_at(old(self).rest(), 0),
            final(self).has_read(*old(self), 4),
    {
        let i: usize = self.bytes_read;
        let value: u32 = ((self.buffer[i] as u32) << 24) | ((self.buffer[i + 1] as u32) << 16) | ((
        self.buffer[i + 2] as u32) << 8) | self.buffer[i + 3] as u32;
        self.bytes_read = self.bytes_read + 4;
        assert(self.rest() =~= old(self).rest().skip(4));
        value
    }

    pub fn read_u64(&mut self) -> (value: u64)
        requires
            old(self).wf(),
            old(self).rest().len() >= 8,
        ensures
            value == u64_at(old(self).rest(), 0),
            final(self).has_read(*old(self), 8),
    {
        let i: usize = self.bytes_read;
        let value: u64 = ((self.buffer[i] as u64) << 56) | ((self.buffer[i + 1] as u64) << 48) | ((
        self.buffer[i + 2] as u64) << 40) | ((self.buffer[i + 3] as u64) << 32) | ((self.buffer[i
            + 4] as u64) << 24) | ((self.buffer[i + 5] as u64) << 16) | ((self.buffer[i
            + 6] as u64) << 8) | self.buffer[i + 7] as u64;
        self.bytes_read = self.bytes_read + 8;
        assert(self.rest() =~= old(self).rest().skip(8));
        value
    }
}

/// Writes values to the front of a buffer.
pub struct Writer<'a> {
    pub buffer: &'a mut [u8],
    pub bytes_written: usize,
}

impl<'a> Writer<'a> {
    pub open spec fn wf(&self) -> bool {
        self.bytes_written <= self.buffer@.len()
    }

    /// The bytes which have been written.
    pub open spec fn written(&self) -> Seq<u8> {
        self.buffer@.take(self.bytes_written as int)
    }

    /// The bytes of the buffer which have not been written over yet.
    pub open spec fn rest(&self) -> Seq<u8> {
        self.buffer@.skip(self.bytes_written as int)
    }

    /// What holds once `bytes` have been written.
    pub open spec fn has_written(&self, before: Writer<'a>, bytes: Seq<u8>) -> bool {
        &&& self.wf()
        &&& self.bytes_written == before.bytes_written + bytes.len()
        &&& self.written() == before.written() + bytes
        &&& self.rest() == before.rest().skip(bytes.len() as int)
        &&& self.buffer@.len() == before.buffer@.len()
    }

    pub fn new(buffer: &'a mut [u8]) -> (writer: Self)
        ensures
            writer.wf(),
            writer.bytes_written == 0,
            writer.written() == Seq::<u8>::empty(),
            writer.rest() == old(buffer)@,
            writer.buffer@ == old(buffer)@,
            final(buffer)@ == final(writer.buffer)@,
    {
        let writer = Self { buffer, bytes_written: 0 };
        assert(writer.written() =~= Seq::empty());
        assert(writer.rest() =~= writer.buffer@);
        writer
    }

    pub fn bytes_remaining(&self) -> (count: usize)
        requires
            self.wf(),
        ensures
            count == self.rest().len(),
    {
        self.buffer.len() - self.bytes_written
    }

    pub fn bytes_written(&self) -> (count: usize)
        ensures
            count == self.bytes_written,
    {
        self.bytes_written
    }

    pub fn write_u8(&mut self, value: u8)
        requires
            old(self).wf(),
            old(self).rest().len() >= 1,
        ensures
            final(self).has_written(*old(self), seq![value]),
            final(final(self).buffer)@ == final(old(self).buffer)@,
    {
        self.buffer[self.bytes_written] = value;
        self.bytes_written = self.bytes_written + 1;
        assert(self.written() =~= old(self).written() + seq![value]);
        assert(self.rest() =~= old(self).rest().skip(1));
    }

    pub fn write_u16(&mut self, value: u16)
        requires
            old(self).wf(),
            old(self).rest().len() >= 2,
        ensures
            final(self).has_written(*old(self), be16(value)),
            final(final(self).buffer)@ == final(old(self).buffer)@,
    {
        self.write_u8((value >> 8) as u8);
        self.write_u8(value as u8);
        assert(self.written() =~= old(self).written() + be16(value));
        assert(self.rest() =~= old(self).rest().skip(2));
    }

    pub fn write_u32(&mut self, value: u32)
        requires
            old(self).wf(),
            old(self).rest().len() >= 4,
        ensures
            final(self).has_written(*old(self), be32(value)),
            final(final(self).buffer)@ == final(old(self).buffer)@,
    {
        self.write_u8((value >> 24) as u8);
        self.write_u8((value >> 16) as u8);
        self.write_u8((value >> 8) as u8);
        self.write_u8(value as u8);
        assert(self.written() =~= old(self).written() + be32(value));
        assert(self.rest() =~= old(self).rest().skip(4));
    }

    pub fn write_u64(&mut self, value: u64)
        requires
            old(self).wf(),
            old(self).rest().len() >= 8,
        ensures
            final(self).has_written(*old(self), be64(value)),
            final(final(self).buffer)@ == final(old(self).buffer)@,
    {
        self.write_u8((value >> 56) as u8);
        self.write_u8((value >> 48) as u8);
        self.write_u8((value >> 40) as u8);
        self.write_u8((value >> 32) as u8);
        self.write_u8((value >> 24) as u8);
        self.write_u8((value >> 16) as u8);
        self.write_u8((value >> 8) as u8);
        self.write_u8(value as u8);
        assert(self.written() =~= old(self).written() + be64(value));
        assert(self.rest() =~= old(self).rest().skip(8));
    }

    pub fn write_slice(&mut self, bytes: &[u8])
        requires
            old(self).wf(),
            old(self).rest().len() >= bytes@.len(),
        ensures
            final(self).has_written(*old(self), bytes@),
            final(final(self).buffer)@ == final(old(self).buffer)@,
    {
        let mut i: usize = 0;
        assert(self.written() =~= old(self).written() + bytes@.take(0));
        assert(self.rest() =~= old(self).rest().skip(0));
        while i < bytes.len()
            invariant
                self.wf(),
                i <= bytes@.len() <= old(self).rest().len(),
                self.has_written(*old(self), bytes@.take(i as int)),
                final(self.buffer)@ == final(old(self).buffer)@,
            decreases bytes@.len() - i,
        {
            self.write_u8(bytes[i]);
            i = i + 1;
            assert(self.written() =~= old(self).written() + bytes@.take(i as int));
            assert(self.rest() =~= old(self).rest().skip(i as int));
        }
        assert(bytes@.take(i as int) =~= bytes@);
    }
}

/// Values which always take the same number of bytes.
pub trait BlockSerial: Sized {
    const SIZE: usize;

    /// The bytes of this value.
    spec fn encode(&self) -> Seq<u8>;

    /// The value at the front of `bytes`.
    spec fn decode(bytes: Seq<u8>) -> Self;

    /// Whether all of this value goes into its bytes.
    spec fn is_canonical(&self) -> bool;

    /// A value which is written and read back stays the same.
    proof fn round_trip(&self, rest: Seq<u8>)
        ensures
            self.encode().len() == Self::SIZE,
            self.is_canonical() ==> Self::decode(self.encode() + rest) == *self,
    ;

    fn read(rd: &mut Reader<'_>) -> (obj: Self)
        requires
            old(rd).wf(),
            old(rd).rest().len() >= Self::SIZE,
        ensures
            obj == Self::decode(old(rd).rest()),
            final(rd).has_read(*old(rd), Self::SIZE as int),
    ;

    fn write(wr: &mut Writer<'_>, obj: &Self)
        requires
            old(wr).wf(),
            old(wr).rest().len() >= Self::SIZE,
        ensures
            final(wr).has_written(*old(wr), obj.encode()),
            final(final(wr).buffer)@ == final(old(wr).buffer)@,
    ;
}

impl BlockSerial for HandshakeAlphaFrame {
    const SIZE: usize = HANDSHAKE_ALPHA_SIZE;

    open spec fn encode(&self) -> Seq<u8> {
        be16(self.protocol_id) + be32(self.client_nonce)
    }

    open spec fn decode(bytes: Seq<u8>) -> Self {
        HandshakeAlphaFrame { protocol_id: u16_at(bytes, 0), client_nonce: u32_at(bytes, 2) }
    }

    open spec fn is_canonical(&self) -> bool {
        true
    }

    proof fn round_trip(&self, rest: Seq<u8>) {
        let bytes = self.encode() + rest;
        lemma_u16_at(bytes, 0, self.protocol_id);
        lemma_u32_at(bytes, 2, self.client_nonce);
    }

    fn read(rd: &mut Reader<'_>) -> Self {
        let protocol_id: u16 = rd.read_u16();
        let client_nonce: u32 = rd.read_u32();
        assert(rd.rest() =~= old(rd).rest().skip(Self::SIZE as int));

        Self { protocol_id, client_nonce }
    }

    fn write(wr: &mut Writer<'_>, obj: &Self) {
        wr.write_u16(obj.protocol_id);
        wr.write_u32(obj.client_nonce);
        assert(wr.written() =~= old(wr).written() + obj.encode());
        assert(wr.rest() =~= old(wr).rest().skip(Self::SIZE as int));
    }
}

impl BlockSerial for HandshakeAlphaAckFrame {
    const SIZE: usize = HANDSHAKE_ALPHA_ACK_SIZE;

    open spec fn encode(&self) -> Seq<u8> {
        be32(self.server_params.packet_size_in_max) + be32(self.server_params.packet_size_out_max) + be32(
            self.client_nonce,
        ) + be32(self.server_nonce) + be32(self.server_timestamp) + be64(self.server_mac)
    }

    open spec fn decode(bytes: Seq<u8>) -> Self {
        HandshakeAlphaAckFrame {
            server_params: ConnectionParams {
                packet_size_in_max: u32_at(bytes, 0),
                packet_size_out_max: u32_at(bytes, 4),
            },
            client_nonce: u32_at(bytes, 8),
            server_nonce: u32_at(bytes, 12),
            server_timestamp: u32_at(bytes, 16),
            server_mac: u64_at(bytes, 20),
        }
    }

    open spec fn is_canonical(&self) -> bool {
        true
    }

    proof fn round_trip(&self, rest: Seq<u8>) {
        let bytes = self.encode() + rest;
        lemma_u32_at(bytes, 0, self.server_params.packet_size_in_max);
        lemma_u32_at(bytes, 4, self.server_params.packet_size_out_max);
        lemma_u32_at(bytes, 8, self.client_nonce);
        lemma_u32_at(bytes, 12, self.server_nonce);
        lemma_u32_at(bytes, 16, self.server_timestamp);
        lemma_u64_at(bytes, 20, self.server_mac);
    }

    fn read(rd: &mut Reader<'_>) -> Self {
        let packet_size_in_max: u32 = rd.read_u32();
        let packet_size_out_max: u32 = rd.read_u32();
        let client_nonce: u32 = rd.read_u32();
        let server_nonce: u32 = rd.read_u32();
        let server_timestamp: u32 = rd.read_u32();
        let server_mac: u64 = rd.read_u64();
        assert(rd.rest() =~= old(rd).rest().skip(Self::SIZE as int));

        Self {
            server_params: ConnectionParams { packet_size_in_max, packet_size_out_max },
            client_nonce,
            server_nonce,
            server_timestamp,
            server_mac,
        }
    }

    fn write(wr: &mut Writer<'_>, obj: &Self) {
        wr.write_u32(obj.server_params.packet_size_in_max);
        wr.write_u32(obj.server_params.packet_size_out_max);
        wr.write_u32(obj.client_nonce);
        wr.write_u32(obj.server_nonce);
        wr.write_u32(obj.server_timestamp);
        wr.write_u64(obj.server_mac);
        assert(wr.written() =~= old(wr).written() + obj.encode());
        assert(wr.rest() =~= old(wr).rest().skip(Self::SIZE as int));
    }
}

impl BlockSerial for HandshakeBetaFrame {
    const SIZE: usize = HANDSHAKE_BETA_SIZE;

    open spec fn encode(&self) -> Seq<u8> {
        be32(self.client_params.packet_size_in_max) + be32(self.client_params.packet_size_out_max) + be32(
            self.client_nonce,
        ) + be32(self.server_nonce) + be32(self.server_timestamp) + be64(self.server_mac)
    }

    open spec fn decode(bytes: Seq<u8>) -> Self {
        HandshakeBetaFrame {
            client_params: ConnectionParams {
                packet_size_in_max: u32_at(bytes, 0),
                packet_size_out_max: u32_at(bytes, 4),
            },
            client_nonce: u32_at(bytes, 8),
            server_nonce: u32_at(bytes, 12),
            server_timestamp: u32_at(bytes, 16),
            server_mac: u64_at(bytes, 20),
        }
    }

    open spec fn is_canonical(&self) -> bool {
        true
    }

    proof fn round_trip(&self, rest: Seq<u8>) {
        let bytes = self.encode() + rest;
        lemma_u32_at(bytes, 0, self.client_params.packet_size_in_max);
        lemma_u32_at(bytes, 4, self.client_params.packet_size_out_max);
        lemma_u32_at(bytes, 8, self.client_nonce);
        lemma_u32_at(bytes, 12, self.server_nonce);
        lemma_u32_at(bytes, 16, self.server_timestamp);
        lemma_u64_at(bytes, 20, self.server_mac);
    }

    fn read(rd: &mut Reader<'_>) -> Self {
        let packet_size_in_max: u32 = rd.read_u32();
        let packet_size_out_max: u32 = rd.read_u32();
        let client_nonce: u32 = rd.read_u32();
        let server_nonce: u32 = rd.read_u32();
        let server_timestamp: u32 = rd.read_u32();
        let server_mac: u64 = rd.read_u64();
        assert(rd.rest() =~= old(rd).rest().skip(Self::SIZE as int));

        Self {
            client_params: ConnectionParams { packet_size_in_max, packet_size_out_max },
            client_nonce,
            server_nonce,
            server_timestamp,
            server_mac,
        }
    }

    fn write(wr: &mut Writer<'_>, obj: &Self) {
        wr.write_u32(obj.client_params.packet_size_in_max);
        wr.write_u32(obj.client_params.packet_size_out_max);
        wr.write_u32(obj.client_nonce);
        wr.write_u32(obj.server_nonce);
        wr.write_u32(obj.server_timestamp);
        wr.write_u64(obj.server_mac);
        assert(wr.written() =~= old(wr).written() + obj.encode());
        assert(wr.rest() =~= old(wr).rest().skip(Self::SIZE as int));
    }
}

/// The status byte of a handshake's outcome.
pub open spec fn status_byte(error: Option<HandshakeErrorKind>) -> u8 {
    match error {
        None => 0x00,
        Some(HandshakeErrorKind::Capacity) => 0x01,
        Some(HandshakeErrorKind::Parameter) => 0x02,
    }
}

/// The outcome which a status byte tells. Unknown errors count as parameter errors.
pub open spec fn status_error(status: u8) -> Option<HandshakeErrorKind> {
    if status == 0x00 {
        None
    } else if status == 0x01 {
        Some(HandshakeErrorKind::Capacity)
    } else {
        Some(HandshakeErrorKind::Parameter)
    }
}

impl BlockSerial for HandshakeBetaAckFrame {
    const SIZE: usize = HANDSHAKE_BETA_ACK_SIZE;

    open spec fn encode(&self) -> Seq<u8> {
        seq![status_byte(self.error)] + be32(self.client_nonce)
    }

    open spec fn decode(bytes: Seq<u8>) -> Self {
        HandshakeBetaAckFrame { error: status_error(bytes[0]), client_nonce: u32_at(bytes, 1) }
    }

    open spec fn is_canonical(&self) -> bool {
        true
    }

    proof fn round_trip(&self, rest: Seq<u8>) {
        lemma_u32_at(self.encode() + rest, 1, self.client_nonce);
    }

    fn read(rd: &mut Reader<'_>) -> Self {
        let status: u8 = rd.read_u8();
        let client_nonce: u32 = rd.read_u32();
        assert(rd.rest() =~= old(rd).rest().skip(Self::SIZE as int));

        let error = match status {
            0x00 => None,
            0x01 => Some(HandshakeErrorKind::Capacity),
            _ => Some(HandshakeErrorKind::Parameter),
        };

        Self { error, client_nonce }
    }

    fn write(wr: &mut Writer<'_>, obj: &Self) {
        let status: u8 = match obj.error {
            None => 0x00,
            Some(HandshakeErrorKind::Capacity) => 0x01,
            Some(HandshakeErrorKind::Parameter) => 0x02,
        };

        wr.write_u8(status);
        wr.write_u32(obj.client_nonce);
        assert(wr.written() =~= old(wr).written() + obj.encode());
        assert(wr.rest() =~= old(wr).rest().skip(Self::SIZE as int));
    }
}

impl BlockSerial for CloseFrame {
    const SIZE: usize = CLOSE_SIZE;

    open spec fn encode(&self) -> Seq<u8> {
        be32(self.remote_nonce)
    }

    open spec fn decode(bytes: Seq<u8>) -> Self {
        CloseFrame { remote_nonce: u32_at(bytes, 0) }
    }

    open spec fn is_canonical(&self) -> bool {
        true
    }

    proof fn round_trip(&self, rest: Seq<u8>) {
        lemma_u32_at(self.encode() + rest, 0, self.remote_nonce);
    }

    fn read(rd: &mut Reader<'_>) -> Self {
        let remote_nonce: u32 = rd.read_u32();

        Self { remote_nonce }
    }

    fn write(wr: &mut Writer<'_>, obj: &Self) {
        wr.write_u32(obj.remote_nonce);
    }
}

impl BlockSerial for CloseAckFrame {
    const SIZE: usize = CLOSE_ACK_SIZE;

    open spec fn encode(&self) -> Seq<u8> {
        be32(self.remote_nonce)
    }

    open spec fn decode(bytes: Seq<u8>) -> Self {
        CloseAckFrame { remote_nonce: u32_at(bytes, 0) }
    }

    open spec fn is_canonical(&self) -> bool {
        true
    }

    proof fn round_trip(&self, rest: Seq<u8>) {
        lemma_u32_at(self.encode() + rest, 0, self.remote_nonce);
    }

    fn read(rd: &mut Reader<'_>) -> Self {
        let remote_nonce: u32 = rd.read_u32();

        Self { remote_nonce }
    }

    fn write(wr: &mut Writer<'_>, obj: &Self) {
        wr.write_u32(obj.remote_nonce);
    }
}

impl BlockSerial for StreamSync {
    const SIZE: usize = STREAM_SYNC_SIZE;

    open spec fn encode(&self) -> Seq<u8> {
        be32(self.next_segment_id)
    }

    open spec fn decode(bytes: Seq<u8>) -> Self {
        StreamSync { next_segment_id: u32_at(bytes, 0) }
    }

    open spec fn is_canonical(&self) -> bool {
        true
    }

    proof fn round_trip(&self, rest: Seq<u8>) {
        lemma_u32_at(self.encode() + rest, 0, self.next_segment_id);
    }

    fn read(rd: &mut Reader<'_>) -> Self {
        let next_segment_id: u32 = rd.read_u32();

        Self { next_segment_id }
    }

    fn write(wr: &mut Writer<'_>, obj: &Self) {
        wr.write_u32(obj.next_segment_id);
    }
}

impl BlockSerial for StreamSegmentHeader {
    const SIZE: usize = STREAM_SEGMENT_HEADER_SIZE;

    open spec fn encode(&self) -> Seq<u8> {
        seq![
            if self.nonce {
                0x01u8
            } else {
                0x00u8
            },
        ] + be32(self.id)
    }

    open spec fn decode(bytes: Seq<u8>) -> Self {
        StreamSegmentHeader { nonce: bytes[0] & 0x01 != 0, id: u32_at(bytes, 1) }
    }

    open spec fn is_canonical(&self) -> bool {
        true
    }

    proof fn round_trip(&self, rest: Seq<u8>) {
        lemma_u32_at(self.encode() + rest, 1, self.id);
        assert(0x01u8 & 0x01 != 0 && 0x00u8 & 0x01 == 0) by (bit_vector);
    }

    fn read(rd: &mut Reader<'_>) -> Self {
        let info: u8 = rd.read_u8();
        let id: u32 = rd.read_u32();
        assert(rd.rest() =~= old(rd).rest().skip(Self::SIZE as int));

        Self { id, nonce: info & 0x01 != 0 }
    }

    fn write(wr: &mut Writer<'_>, obj: &Self) {
        let mut info: u8 = 0;
        if obj.nonce {
            info = 0x01;
        }
        wr.write_u8(info);
        wr.write_u32(obj.id);
        assert(wr.written() =~= old(wr).written() + obj.encode());
        assert(wr.rest() =~= old(wr).rest().skip(Self::SIZE as int));
    }
}

/// The first byte of an acknowledgement: five bits of history, the checksum of the nonces, and
/// whether a fragment is acknowledged too.
pub open spec fn ack_info(history: u8, checksum: bool, has_fragment: bool) -> u8 {
    (if has_fragment {
        0x80u8
    } else {
        0x00u8
    }) | (if checksum {
        0x20u8
    } else {
        0x00u8
    }) | (history & 0x1F)
}

impl BlockSerial for StreamAck {
    const SIZE: usize = STREAM_ACK_SIZE;

    open spec fn encode(&self) -> Seq<u8> {
        seq![
            ack_info(
                self.segment_history,
                self.segment_checksum,
                self.rel_fragment_id is Some,
            ),
        ] + be32(self.segment_id) + be32(
            match self.rel_fragment_id {
                Some(id) => id,
                None => 0,
            },
        )
    }

    open spec fn decode(bytes: Seq<u8>) -> Self {
        StreamAck {
            segment_id: u32_at(bytes, 1),
            segment_history: bytes[0] & 0x1F,
            segment_checksum: bytes[0] & 0x20 != 0,
            rel_fragment_id: if bytes[0] & 0x80 != 0 {
                Some(u32_at(bytes, 5))
            } else {
                None
            },
        }
    }

    open spec fn is_canonical(&self) -> bool {
        self.segment_history <= 0x1F
    }

    proof fn round_trip(&self, rest: Seq<u8>) {
        let bytes = self.encode() + rest;
        lemma_u32_at(bytes, 1, self.segment_id);
        lemma_u32_at(
            bytes,
            5,
            match self.rel_fragment_id {
                Some(id) => id,
                None => 0,
            },
        );
        lemma_ack_info(
            self.segment_history,
            self.segment_checksum,
            self.rel_fragment_id is Some,
        );
    }

    fn read(rd: &mut Reader<'_>) -> Self {
        let info: u8 = rd.read_u8();
        let segment_id: u32 = rd.read_u32();
        let rel_fragment_id: u32 = rd.read_u32();
        assert(rd.rest() =~= old(rd).rest().skip(Self::SIZE as int));

        Self {
            segment_id,
            segment_history: info & 0x1F,
            segment_checksum: info & 0x20 != 0,
            rel_fragment_id: if info & 0x80 != 0 {
                Some(rel_fragment_id)
            } else {
                None
            },
        }
    }

    fn write(wr: &mut Writer<'_>, obj: &Self) {
        let fragment_bit: u8 = if obj.rel_fragment_id.is_some() {
            0x80
        } else {
            0x00
        };
        let checksum_bit: u8 = if obj.segment_checksum {
            0x20
        } else {
            0x00
        };
        let info: u8 = fragment_bit | checksum_bit | (obj.segment_history & 0x1F);

        wr.write_u8(info);
        wr.write_u32(obj.segment_id);
        wr.write_u32(
            match obj.rel_fragment_id {
                Some(id) => id,
                None => 0,
            },
        );
        assert(wr.written() =~= old(wr).written() + obj.encode());
        assert(wr.rest() =~= old(wr).rest().skip(Self::SIZE as int));
    }
}

proof fn lemma_ack_info(history: u8, checksum: bool, has_fragment: bool)
    by (bit_vector)
    ensures
        ack_info(history, checksum, has_fragment) & 0x1F == history & 0x1F,
        history <= 0x1F ==> history & 0x1F == history,
        (ack_info(history, checksum, has_fragment) & 0x20 != 0) == checksum,
        (ack_info(history, checksum, has_fragment) & 0x80 != 0) == has_fragment,
{
}

/// Values which can be read from, and written to, the front of a buffer.
pub trait Serial<'a>: Sized {
    /// The bytes of this value.
    spec fn encoding(&self) -> Seq<u8>;

    /// Whether this value has proper bytes.
    spec fn is_encodable(&self) -> bool;

    /// Whether a value can be read from the front of `bytes`.
    spec fn is_readable(bytes: Seq<u8>) -> bool;

    /// Whether `obj` is the value at the front of `bytes`.
    spec fn is_reading(bytes: Seq<u8>, obj: Self) -> bool;

    /// How many bytes the value at the front of `bytes` takes.
    spec fn reading_size(bytes: Seq<u8>) -> int;

    fn read(buffer: &'a [u8]) -> (result: Option<(Self, usize)>)
        ensures
            match result {
                Some((obj, size)) => {
                    &&& Self::is_readable(buffer@)
                    &&& Self::is_reading(buffer@, obj)
                    &&& size == Self::reading_size(buffer@)
                    &&& size <= buffer@.len()
                },
                None => !Self::is_readable(buffer@),
            },
    ;

    fn write(buffer: &mut [u8], obj: &Self) -> (result: Option<usize>)
        requires
            obj.encoding().len() <= old(buffer)@.len() ==> obj.is_encodable(),
        ensures
            match result {
                Some(size) => {
                    &&& size == obj.encoding().len()
                    &&& size <= old(buffer)@.len()
                    &&& final(buffer)@ == obj.encoding() + old(buffer)@.skip(size as int)
                },
                None => obj.encoding().len() > old(buffer)@.len() && final(buffer)@ == old(
                    buffer,
                )@,
            },
    ;
}

impl<'a, T> Serial<'a> for T where T: BlockSerial {
    open spec fn encoding(&self) -> Seq<u8> {
        self.encode()
    }

    open spec fn is_encodable(&self) -> bool {
        true
    }

    open spec fn is_readable(bytes: Seq<u8>) -> bool {
        bytes.len() >= T::SIZE
    }

    open spec fn is_reading(bytes: Seq<u8>, obj: Self) -> bool {
        obj == T::decode(bytes)
    }

    open spec fn reading_size(bytes: Seq<u8>) -> int {
        T::SIZE as int
    }

    fn read(buffer: &'a [u8]) -> (result: Option<(Self, usize)>) {
        if buffer.len() < T::SIZE {
            return None;
        }
        let mut rd = Reader::new(buffer);

        let obj = <T as BlockSerial>::read(&mut rd);

        Some((obj, rd.bytes_read()))
    }

    fn write(buffer: &mut [u8], obj: &Self) -> (result: Option<usize>) {
        proof {
            obj.round_trip(Seq::empty());
        }
        if buffer.len() < T::SIZE {
            return None;
        }
        let mut wr = Writer::new(buffer);

        <T as BlockSerial>::write(&mut wr, obj);

        let size: usize = wr.bytes_written();
        proof {
            assert(wr.buffer@ =~= wr.written() + wr.rest());
            assert(wr.written() =~= obj.encode());
        }
        Some(size)
    }
}

/// The flags of a datagram.
pub open spec fn datagram_info(unrel: bool, first: bool, last: bool) -> u8 {
    (if unrel {
        DATAGRAM_UNREL_BIT
    } else {
        0
    }) | (if first {
        DATAGRAM_FIRST_BIT
    } else {
        0
    }) | (if last {
        DATAGRAM_LAST_BIT
    } else {
        0
    })
}

/// The bytes of a datagram: its flags, its ID, the length of its data, and the data.
pub open spec fn encode_datagram(datagram: DatagramView) -> Seq<u8> {
    seq![datagram_info(datagram.unrel, datagram.first, datagram.last)] + be32(datagram.id) + be16(
        datagram.data.len() as u16,
    ) + datagram.data
}

/// The datagram at the front of `bytes`, if there is a whole one.
pub open spec fn decode_datagram(bytes: Seq<u8>) -> Option<DatagramView> {
    let end = DATAGRAM_HEADER_SIZE + u16_at(bytes, 5);
    if bytes.len() < DATAGRAM_HEADER_SIZE || bytes.len() < end {
        None
    } else {
        Some(
            DatagramView {
                id: u32_at(bytes, 1),
                unrel: bytes[0] & DATAGRAM_UNREL_BIT != 0,
                first: bytes[0] & DATAGRAM_FIRST_BIT != 0,
                last: bytes[0] & DATAGRAM_LAST_BIT != 0,
                data: bytes.subrange(DATAGRAM_HEADER_SIZE as int, end),
            },
        )
    }
}

proof fn lemma_datagram_info(unrel: bool, first: bool, last: bool)
    by (bit_vector)
    ensures
        (datagram_info(unrel, first, last) & DATAGRAM_UNREL_BIT != 0) == unrel,
        (datagram_info(unrel, first, last) & DATAGRAM_FIRST_BIT != 0) == first,
        (datagram_info(unrel, first, last) & DATAGRAM_LAST_BIT != 0) == last,
{
}

/// A datagram which is written and read back stays the same, whatever follows it.
pub proof fn law_datagram_round_trip(datagram: DatagramView, rest: Seq<u8>)
    requires
        datagram.data.len() <= DATAGRAM_DATA_SIZE_MAX,
    ensures
        decode_datagram(encode_datagram(datagram) + rest) == Some(datagram),
{
    let bytes = encode_datagram(datagram) + rest;
    lemma_u32_at(bytes, 1, datagram.id);
    lemma_u16_at(bytes, 5, datagram.data.len() as u16);
    lemma_datagram_info(datagram.unrel, datagram.first, datagram.last);
    assert(bytes.subrange(7, 7 + datagram.data.len() as int) =~= datagram.data);
}

impl<'a> Serial<'a> for Datagram<'a> {
    open spec fn encoding(&self) -> Seq<u8> {
        encode_datagram(self@)
    }

    open spec fn is_encodable(&self) -> bool {
        self.data@.len() <= DATAGRAM_DATA_SIZE_MAX
    }

    open spec fn is_readable(bytes: Seq<u8>) -> bool {
        decode_datagram(bytes) is Some
    }

    open spec fn is_reading(bytes: Seq<u8>, obj: Self) -> bool {
        decode_datagram(bytes) == Some(obj@)
    }

    open spec fn reading_size(bytes: Seq<u8>) -> int {
        DATAGRAM_HEADER_SIZE + u16_at(bytes, 5)
    }

    fn read(src: &'a [u8]) -> (result: Option<(Self, usize)>) {
        if src.len() < DATAGRAM_HEADER_SIZE {
            return None;
        }
        let mut rd = Reader::new(src);

        let info_bits: u8 = rd.read_u8();
        let id: u32 = rd.read_u32();
        let data_len: usize = rd.read_u16() as usize;

        if src.len() - DATAGRAM_HEADER_SIZE < data_len {
            return None;
        }
        let datagram = Datagram {
            id,
            unrel: info_bits & DATAGRAM_UNREL_BIT != 0,
            first: info_bits & DATAGRAM_FIRST_BIT != 0,
            last: info_bits & DATAGRAM_LAST_BIT != 0,
            data: vstd::slice::slice_subrange(
                src,
                DATAGRAM_HEADER_SIZE,
                DATAGRAM_HEADER_SIZE + data_len,
            ),
        };
        Some((datagram, DATAGRAM_HEADER_SIZE + data_len))
    }

    fn write(dst: &mut [u8], obj: &Self) -> (result: Option<usize>) {
        if dst.len() < DATAGRAM_HEADER_SIZE || dst.len() - DATAGRAM_HEADER_SIZE < obj.data.len() {
            return None;
        }
        let unrel_bit: u8 = if obj.unrel {
            DATAGRAM_UNREL_BIT
        } else {
            0
        };
        let first_bit: u8 = if obj.first {
            DATAGRAM_FIRST_BIT
        } else {
            0
        };
        let last_bit: u8 = if obj.last {
            DATAGRAM_LAST_BIT
        } else {
            0
        };
        let info_bits: u8 = unrel_bit | first_bit | last_bit;
        let data_len_u16: u16 = obj.data.len() as u16;

        let mut wr = Writer::new(dst);

        wr.write_u8(info_bits);
        wr.write_u32(obj.id);
        wr.write_u16(data_len_u16);

        wr.write_slice(obj.data);

        proof {
            assert(wr.buffer@ =~= wr.written() + wr.rest());
            assert(wr.written() =~= encode_datagram(obj@));
        }
        Some(DATAGRAM_HEADER_SIZE + obj.data.len())
    }
}

/// The first byte of a frame.
pub open spec fn type_byte(frame_type: FrameType) -> u8 {
    match frame_type {
        FrameType::HandshakeAlpha => 0x00,
        FrameType::HandshakeAlphaAck => 0x01,
        FrameType::HandshakeBeta => 0x02,
        FrameType::HandshakeBetaAck => 0x03,
        FrameType::Close => 0x04,
        FrameType::CloseAck => 0x05,
        FrameType::StreamSegment => 0x06,
        FrameType::StreamAck => 0x07,
        FrameType::StreamSegmentAck => 0x08,
        FrameType::StreamSync => 0x09,
    }
}

/// The type which the low bits of the first byte of a frame tell.
pub open spec fn byte_type(bits: u8) -> Option<FrameType> {
    match bits {
        0x00 => Some(FrameType::HandshakeAlpha),
        0x01 => Some(FrameType::HandshakeAlphaAck),
        0x02 => Some(FrameType::HandshakeBeta),
        0x03 => Some(FrameType::HandshakeBetaAck),
        0x04 => Some(FrameType::Close),
        0x05 => Some(FrameType::CloseAck),
        0x06 => Some(FrameType::StreamSegment),
        0x07 => Some(FrameType::StreamAck),
        0x08 => Some(FrameType::StreamSegmentAck),
        0x09 => Some(FrameType::StreamSync),
        _ => None,
    }
}

/// The bytes of a value, least significant first.
pub open spec fn le32(value: u32) -> Seq<u8> {
    seq![value as u8, (value >> 8) as u8, (value >> 16) as u8, (value >> 24) as u8]
}

/// A frame with its checksum.
pub open spec fn sealed(content: Seq<u8>) -> Seq<u8> {
    content + le32(crc::checksum(content))
}

/// The bytes of a frame of a given type.
pub open spec fn frame_bytes(frame_type: FrameType, payload: Seq<u8>) -> Seq<u8> {
    sealed(seq![type_byte(frame_type)] + payload)
}

/// Whether the checksum at the end of `bytes` matches what comes before it.
pub open spec fn is_intact(bytes: Seq<u8>) -> bool {
    bytes.len() >= FRAME_CRC_SIZE && bytes == sealed(bytes.take(bytes.len() - FRAME_CRC_SIZE))
}

/// The type of a frame.
pub open spec fn frame_type(bytes: Seq<u8>) -> Option<FrameType> {
    byte_type(bytes[0] & FRAME_TYPE_MASK)
}

/// What lies between the first byte of a frame and its checksum.
pub open spec fn frame_payload(bytes: Seq<u8>) -> Seq<u8> {
    bytes.subrange(FRAME_HEADER_SIZE as int, bytes.len() - FRAME_CRC_SIZE)
}

/// A frame which is written arrives intact, with its type and its payload.
pub proof fn law_frame_round_trip(kind: FrameType, payload: Seq<u8>)
    ensures
        frame_bytes(kind, payload).len() == payload.len() + FRAME_OVERHEAD_SIZE,
        is_intact(frame_bytes(kind, payload)),
        frame_type(frame_bytes(kind, payload)) == Some(kind),
        frame_payload(frame_bytes(kind, payload)) == payload,
{
    let content = seq![type_byte(kind)] + payload;
    let bytes = frame_bytes(kind, payload);
    assert(bytes.take(bytes.len() - 4) =~= content);
    assert(frame_payload(bytes) =~= payload);
    let bits = type_byte(kind);
    assert(bits <= 0x09 ==> bits & 0x0F == bits) by (bit_vector);
}

/// A frame of which one byte is changed on the way, whichever it is, is not intact any more.
pub proof fn law_damage_shows(frame: Seq<u8>, i: int, byte: u8)
    requires
        is_intact(frame),
        0 <= i < frame.len(),
        frame[i] != byte,
    ensures
        !is_intact(frame.update(i, byte)),
{
    let n = frame.len() - FRAME_CRC_SIZE;
    let content = frame.take(n);
    let damaged = frame.update(i, byte);
    if i < n {
        assert(damaged.take(n) =~= content.update(i, byte));
        crc::law_changed_byte_shows(content, i, byte);
        if is_intact(damaged) {
            let a = crc::checksum(content);
            let b = crc::checksum(damaged.take(n));
            assert(le32(a) =~= frame.skip(n));
            assert(le32(b) =~= damaged.skip(n));
            assert(frame.skip(n) =~= damaged.skip(n));
            crate::server::handshake_mac::lemma_le32_injective(a, b);
        }
    } else {
        assert(damaged.take(n) =~= content);
    }
}

/// Writes a frame.
pub struct FrameWriter<'a> {
    pub buffer: &'a mut [u8],
    pub write_idx: usize,
}

impl<'a> FrameWriter<'a> {
    pub open spec fn wf(&self) -> bool {
        FRAME_HEADER_SIZE <= self.write_idx && self.write_idx + FRAME_CRC_SIZE <= self.buffer@.len()
    }

    /// The frame so far, without its checksum.
    pub open spec fn content(&self) -> Seq<u8> {
        self.buffer@.take(self.write_idx as int)
    }

    /// How many more bytes the frame can hold.
    pub open spec fn room(&self) -> int {
        self.buffer@.len() - self.write_idx - FRAME_CRC_SIZE
    }

    pub fn new(buffer: &'a mut [u8], frame_type: FrameType) -> (writer: Self)
        requires
            old(buffer)@.len() >= FRAME_OVERHEAD_SIZE,
        ensures
            writer.wf(),
            writer.content() == seq![type_byte(frame_type)],
            writer.buffer@ == old(buffer)@.update(0, type_byte(frame_type)),
            final(buffer)@ == final(writer.buffer)@,
    {
        let type_bits: u8 = match frame_type {
            FrameType::HandshakeAlpha => 0x00,
            FrameType::HandshakeAlphaAck => 0x01,
            FrameType::HandshakeBeta => 0x02,
            FrameType::HandshakeBetaAck => 0x03,
            FrameType::Close => 0x04,
            FrameType::CloseAck => 0x05,
            FrameType::StreamSegment => 0x06,
            FrameType::StreamAck => 0x07,
            FrameType::StreamSegmentAck => 0x08,
            FrameType::StreamSync => 0x09,
        };

        buffer[0] = type_bits;

        let writer = Self { buffer, write_idx: FRAME_HEADER_SIZE };
        assert(writer.content() =~= seq![type_bits]);
        writer
    }

    /// Appends a value to the frame. Returns whether there was room for it.
    pub fn write<'b, A>(&mut self, obj: &A) -> (fits: bool) where A: Serial<'b>
        requires
            old(self).wf(),
            obj.encoding().len() <= old(self).room() ==> obj.is_encodable(),
        ensures
            final(self).wf(),
            fits == (obj.encoding().len() <= old(self).room()),
            final(self).content() == if fits {
                old(self).content() + obj.encoding()
            } else {
                old(self).content()
            },
            final(self).buffer@.len() == old(self).buffer@.len(),
            final(self).buffer@.skip(final(self).write_idx as int) == old(self).buffer@.skip(
                final(self).write_idx as int,
            ),
            final(final(self).buffer)@ == final(old(self).buffer)@,
    {
        let begin_idx: usize = self.write_idx;
        let end_idx: usize = self.buffer.len() - FRAME_CRC_SIZE;

        let (_, tail) = self.buffer.split_at_mut(begin_idx);
        let (window, _) = tail.split_at_mut(end_idx - begin_idx);

        if let Some(size) = A::write(window, obj) {
            self.write_idx = self.write_idx + size;

            return true;
        }
        false
    }

    /// Appends the checksum, and hands out the frame.
    pub fn finalize(self) -> (frame: &'a [u8])
        requires
            self.wf(),
        ensures
            frame@ == sealed(self.content()),
            final(self.buffer)@ == frame@ + old(self.buffer)@.skip(frame@.len() as int),
    {
        let ghost before = self.buffer@;
        let ghost content = self.content();
        let buffer = self.buffer;
        let idx: usize = self.write_idx;

        let frame_crc: u32 = crc::compute(vstd::slice::slice_subrange(buffer, 0, idx));

        buffer[idx] = frame_crc as u8;
        buffer[idx + 1] = (frame_crc >> 8) as u8;
        buffer[idx + 2] = (frame_crc >> 16) as u8;
        buffer[idx + 3] = (frame_crc >> 24) as u8;

        let frame_size: usize = idx + crc::SIZE;
        assert(buffer@.take(frame_size as int) =~= sealed(content));
        assert(buffer@ =~= sealed(content) + before.skip(frame_size as int));

        vstd::slice::slice_subrange(buffer, 0, frame_size)
    }
}

/// Reads values from a payload.
pub struct PayloadReader<'a> {
    buffer: &'a [u8],
    read_idx: usize,
}

impl<'a> PayloadReader<'a> {
    pub closed spec fn wf(&self) -> bool {
        self.read_idx <= self.buffer@.len()
    }

    /// The bytes which have not been read yet.
    pub closed spec fn rest(&self) -> Seq<u8> {
        self.buffer@.skip(self.read_idx as int)
    }

    pub fn new(buffer: &'a [u8]) -> (reader: Self)
        ensures
            reader.wf(),
            reader.rest() == buffer@,
    {
        let reader = Self { buffer, read_idx: 0 };
        assert(reader.rest() =~= buffer@);
        reader
    }

    /// Reads the next value, if there is a whole one.
    pub fn read<A>(&mut self) -> (result: Option<A>) where A: Serial<'a>
        requires
            old(self).wf(),
        ensures
            final(self).wf(),
            match result {
                Some(obj) => {
                    &&& A::is_readable(old(self).rest())
                    &&& A::is_reading(old(self).rest(), obj)
                    &&& 0 <= A::reading_size(old(self).rest()) <= old(self).rest().len()
                    &&& final(self).rest() == old(self).rest().skip(
                        A::reading_size(old(self).rest()),
                    )
                },
                None => !A::is_readable(old(self).rest()) && final(self).rest() == old(self).rest(),
            },
    {
        let begin_idx: usize = self.read_idx;
        let end_idx: usize = self.buffer.len();

        let bytes: &'a [u8] = vstd::slice::slice_subrange(self.buffer, begin_idx, end_idx);
        assert(bytes@ =~= self.rest());

        if let Some((obj, size)) = A::read(bytes) {
            self.read_idx = self.read_idx + size;
            assert(self.rest() =~= old(self).rest().skip(size as int));
            return Some(obj);
        }
        None
    }

    pub fn remaining_bytes(&self) -> (bytes: &'a [u8])
        requires
            self.wf(),
        ensures
            bytes@ == self.rest(),
    {
        let begin_idx: usize = self.read_idx;
        let end_idx: usize = self.buffer.len();

        let bytes: &'a [u8] = vstd::slice::slice_subrange(self.buffer, begin_idx, end_idx);
        assert(bytes@ =~= self.rest());
        bytes
    }
}

pub fn verify_minimum_size(frame_bytes: &[u8]) -> (valid: bool)
    ensures
        valid == (frame_bytes@.len() >= FRAME_OVERHEAD_SIZE),
{
    frame_bytes.len() >= FRAME_OVERHEAD_SIZE
}

/// The size of an initial handshake frame, which is padded so that a server never replies with more
/// than it receives.
pub open spec fn alpha_frame_size(frame_size_max: int) -> int {
    if frame_size_max < HANDSHAKE_ALPHA_FRAME_SIZE_MAX {
        frame_size_max
    } else {
        HANDSHAKE_ALPHA_FRAME_SIZE_MAX as int
    }
}

pub fn verify_handshake_alpha_size_and_crc(frame_bytes: &[u8], frame_size_max: usize) -> (valid:
    bool)
    requires
        frame_size_max >= HANDSHAKE_ALPHA_SIZE + FRAME_OVERHEAD_SIZE,
    ensures
        valid == (frame_bytes@.len() == alpha_frame_size(frame_size_max as int) && is_intact(
            frame_bytes@.take(HANDSHAKE_ALPHA_SIZE + FRAME_OVERHEAD_SIZE),
        )),
{
    let expected_size: usize = if frame_size_max < HANDSHAKE_ALPHA_FRAME_SIZE_MAX {
        frame_size_max
    } else {
        HANDSHAKE_ALPHA_FRAME_SIZE_MAX
    };
    if frame_bytes.len() == expected_size {
        let head = vstd::slice::slice_subrange(
            frame_bytes,
            0,
            HANDSHAKE_ALPHA_SIZE + FRAME_OVERHEAD_SIZE,
        );
        assert(head@ =~= frame_bytes@.take(HANDSHAKE_ALPHA_SIZE + FRAME_OVERHEAD_SIZE));
        return verify_crc(head);
    }
    false
}

pub fn verify_handshake_beta_size_and_crc(frame_bytes: &[u8]) -> (valid: bool)
    ensures
        valid == (frame_bytes@.len() == HANDSHAKE_BETA_SIZE + FRAME_OVERHEAD_SIZE && is_intact(
            frame_bytes@,
        )),
{
    if frame_bytes.len() == HANDSHAKE_BETA_SIZE + FRAME_OVERHEAD_SIZE {
        return verify_crc(frame_bytes);
    }
    false
}

pub fn read_type(frame_bytes: &[u8]) -> (result: Option<FrameType>)
    requires
        frame_bytes@.len() >= FRAME_OVERHEAD_SIZE,
    ensures
        result == frame_type(frame_bytes@),
{
    match frame_bytes[0] & FRAME_TYPE_MASK {
        0x00 => Some(FrameType::HandshakeAlpha),
        0x01 => Some(FrameType::HandshakeAlphaAck),
        0x02 => Some(FrameType::HandshakeBeta),
        0x03 => Some(FrameType::HandshakeBetaAck),
        0x04 => Some(FrameType::Close),
        0x05 => Some(FrameType::CloseAck),
        0x06 => Some(FrameType::StreamSegment),
        0x07 => Some(FrameType::StreamAck),
        0x08 => Some(FrameType::StreamSegmentAck),
        0x09 => Some(FrameType::StreamSync),
        _ => None,
    }
}

/// Whether the checksum at the end of `buffer` matches what comes before it.
pub fn verify_crc(buffer: &[u8]) -> (valid: bool)
    requires
        buffer@.len() >= crc::SIZE,
    ensures
        valid == is_intact(buffer@),
{
    let data_len: usize = buffer.len() - crc::SIZE;
    let data = vstd::slice::slice_subrange(buffer, 0, data_len);

    let crc: u32 = crc::compute(data);
    let valid: bool = buffer[data_len] == crc as u8 && buffer[data_len + 1] == (crc >> 8) as u8
        && buffer[data_len + 2] == (crc >> 16) as u8 && buffer[data_len + 3] == (crc >> 24) as u8;

    proof {
        assert(data@ =~= buffer@.take(data_len as int));
        let expected = sealed(data@);
        if valid {
            assert(buffer@ =~= expected);
        } else if buffer@ == expected {
            assert(expected[data_len as int] == le32(crc)[0]);
            assert(expected[data_len + 1] == le32(crc)[1]);
            assert(expected[data_len + 2] == le32(crc)[2]);
            assert(expected[data_len + 3] == le32(crc)[3]);
        }
    }
    valid
}

pub fn payload(frame_bytes: &[u8]) -> (bytes: &[u8])
    requires
        frame_bytes@.len() >= FRAME_OVERHEAD_SIZE,
    ensures
        bytes@ == frame_payload(frame_bytes@),
{
    let payload_begin: usize = FRAME_HEADER_SIZE;
    let payload_end: usize = frame_bytes.len() - FRAME_CRC_SIZE;

    vstd::slice::slice_subrange(frame_bytes, payload_begin, payload_end)
}

/// Frames of a fixed size which hold one value.
pub trait SimpleFrame: BlockSerial {
    const FRAME_TYPE: FrameType;

    const FRAME_SIZE: usize;

    const PAYLOAD_SIZE: usize;

    /// A frame has room for its value.
    proof fn sizes()
        ensures
            Self::FRAME_SIZE == Self::PAYLOAD_SIZE + FRAME_OVERHEAD_SIZE,
            Self::SIZE <= Self::PAYLOAD_SIZE,
    ;
}

impl SimpleFrame for HandshakeAlphaFrame {
    const FRAME_TYPE: FrameType = FrameType::HandshakeAlpha;

    const FRAME_SIZE: usize = HANDSHAKE_ALPHA_SIZE + FRAME_OVERHEAD_SIZE;

    const PAYLOAD_SIZE: usize = HANDSHAKE_ALPHA_SIZE;

    proof fn sizes() {
    }
}

impl SimpleFrame for HandshakeAlphaAckFrame {
    const FRAME_TYPE: FrameType = FrameType::HandshakeAlphaAck;

    const FRAME_SIZE: usize = HANDSHAKE_ALPHA_ACK_SIZE + FRAME_OVERHEAD_SIZE;

    const PAYLOAD_SIZE: usize = HANDSHAKE_ALPHA_ACK_SIZE;

    proof fn sizes() {
    }
}

impl SimpleFrame for HandshakeBetaFrame {
    const FRAME_TYPE: FrameType = FrameType::HandshakeBeta;

    const FRAME_SIZE: usize = HANDSHAKE_BETA_SIZE + FRAME_OVERHEAD_SIZE;

    const PAYLOAD_SIZE: usize = HANDSHAKE_BETA_SIZE;

    proof fn sizes() {
    }
}

impl SimpleFrame for HandshakeBetaAckFrame {
    const FRAME_TYPE: FrameType = FrameType::HandshakeBetaAck;

    const FRAME_SIZE: usize = HANDSHAKE_BETA_ACK_SIZE + FRAME_OVERHEAD_SIZE;

    const PAYLOAD_SIZE: usize = HANDSHAKE_BETA_ACK_SIZE;

    proof fn sizes() {
    }
}

impl SimpleFrame for CloseFrame {
    const FRAME_TYPE: FrameType = FrameType::Close;

    const FRAME_SIZE: usize = HANDSHAKE_BETA_SIZE + FRAME_OVERHEAD_SIZE;

    const PAYLOAD_SIZE: usize = HANDSHAKE_BETA_SIZE;

    proof fn sizes() {
    }
}

impl SimpleFrame for CloseAckFrame {
    const FRAME_TYPE: FrameType = FrameType::CloseAck;

    const FRAME_SIZE: usize = HANDSHAKE_BETA_ACK_SIZE + FRAME_OVERHEAD_SIZE;

    const PAYLOAD_SIZE: usize = HANDSHAKE_BETA_ACK_SIZE;

    proof fn sizes() {
    }
}

impl SimpleFrame for StreamSync {
    const FRAME_TYPE: FrameType = FrameType::StreamSync;

    const FRAME_SIZE: usize = STREAM_SYNC_SIZE + FRAME_OVERHEAD_SIZE;

    const PAYLOAD_SIZE: usize = STREAM_SYNC_SIZE;

    proof fn sizes() {
    }
}

/// The number of bytes which each value takes.
pub proof fn lemma_block_sizes()
    ensures
        <HandshakeAlphaFrame as BlockSerial>::SIZE == HANDSHAKE_ALPHA_SIZE,
        <HandshakeAlphaAckFrame as BlockSerial>::SIZE == HANDSHAKE_ALPHA_ACK_SIZE,
        <HandshakeBetaFrame as BlockSerial>::SIZE == HANDSHAKE_BETA_SIZE,
        <HandshakeBetaAckFrame as BlockSerial>::SIZE == HANDSHAKE_BETA_ACK_SIZE,
        <CloseFrame as BlockSerial>::SIZE == CLOSE_SIZE,
        <CloseAckFrame as BlockSerial>::SIZE == CLOSE_ACK_SIZE,
        <StreamSync as BlockSerial>::SIZE == STREAM_SYNC_SIZE,
        <StreamSegmentHeader as BlockSerial>::SIZE == STREAM_SEGMENT_HEADER_SIZE,
        <StreamAck as BlockSerial>::SIZE == STREAM_ACK_SIZE,
{
}

/// The type and the size of each frame which holds one value.
pub proof fn lemma_frame_sizes()
    ensures
        <HandshakeAlphaFrame as SimpleFrame>::FRAME_TYPE == FrameType::HandshakeAlpha,
        <HandshakeAlphaFrame as SimpleFrame>::FRAME_SIZE == HANDSHAKE_ALPHA_SIZE + FRAME_OVERHEAD_SIZE,
        <HandshakeAlphaAckFrame as SimpleFrame>::FRAME_TYPE == FrameType::HandshakeAlphaAck,
        <HandshakeAlphaAckFrame as SimpleFrame>::FRAME_SIZE == HANDSHAKE_ALPHA_ACK_SIZE + FRAME_OVERHEAD_SIZE,
        <HandshakeBetaFrame as SimpleFrame>::FRAME_TYPE == FrameType::HandshakeBeta,
        <HandshakeBetaFrame as SimpleFrame>::FRAME_SIZE == HANDSHAKE_BETA_SIZE + FRAME_OVERHEAD_SIZE,
        <HandshakeBetaAckFrame as SimpleFrame>::FRAME_TYPE == FrameType::HandshakeBetaAck,
        <HandshakeBetaAckFrame as SimpleFrame>::FRAME_SIZE == HANDSHAKE_BETA_ACK_SIZE + FRAME_OVERHEAD_SIZE,
        <CloseFrame as SimpleFrame>::FRAME_TYPE == FrameType::Close,
        <CloseFrame as SimpleFrame>::FRAME_SIZE == HANDSHAKE_BETA_SIZE + FRAME_OVERHEAD_SIZE,
        <CloseAckFrame as SimpleFrame>::FRAME_TYPE == FrameType::CloseAck,
        <CloseAckFrame as SimpleFrame>::FRAME_SIZE == HANDSHAKE_BETA_ACK_SIZE + FRAME_OVERHEAD_SIZE,
        <StreamSync as SimpleFrame>::FRAME_TYPE == FrameType::StreamSync,
        <StreamSync as SimpleFrame>::FRAME_SIZE == STREAM_SYNC_SIZE + FRAME_OVERHEAD_SIZE,
{
}

/// The bytes of a frame which holds one value.
pub open spec fn simple_frame<T: SimpleFrame>(obj: T) -> Seq<u8> {
    frame_bytes(T::FRAME_TYPE, obj.encode())
}

/// Writing of frames which hold one value.
pub trait SimpleFrameWrite: Sized {
    /// The frame which holds this value.
    spec fn frame(&self) -> Seq<u8>;

    /// The size of a buffer for the frame.
    spec fn buffer_size() -> int;

    fn write<'a>(&self, dst: &'a mut [u8]) -> (frame: &'a [u8])
        requires
            old(dst)@.len() >= Self::buffer_size(),
        ensures
            frame@ == self.frame(),
            final(dst)@.len() == old(dst)@.len(),
    ;

    /// Writes the frame to the front of a buffer of its own, which is otherwise zero.
    fn write_boxed(&self) -> (buffer: Box<[u8]>)
        ensures
            buffer@.len() == Self::buffer_size(),
            self.frame().len() <= buffer@.len(),
            buffer@ == self.frame() + zeros(Self::buffer_size() - self.frame().len()),
    ;
}

impl<T> SimpleFrameWrite for T where T: SimpleFrame {
    open spec fn frame(&self) -> Seq<u8> {
        simple_frame(*self)
    }

    open spec fn buffer_size() -> int {
        T::FRAME_SIZE as int
    }

    fn write<'a>(&self, dst: &'a mut [u8]) -> (frame: &'a [u8]) {
        proof {
            T::sizes();
            self.round_trip(Seq::empty());
        }
        let mut wr = FrameWriter::new(dst, T::FRAME_TYPE);
        let _ = wr.write(self);
        wr.finalize()
    }

    fn write_boxed(&self) -> (buffer: Box<[u8]>) {
        proof {
            T::sizes();
            self.round_trip(Seq::empty());
        }
        write_padded(self, T::FRAME_SIZE)
    }
}

/// Some zeros.
pub open spec fn zeros(n: int) -> Seq<u8> {
    Seq::new(n as nat, |i: int| 0u8)
}

/// Writes a frame to the front of a buffer of `size` bytes, which is otherwise zero.
fn write_padded<T: SimpleFrame>(obj: &T, size: usize) -> (boxed: Box<[u8]>)
    requires
        size >= T::SIZE + FRAME_OVERHEAD_SIZE,
    ensures
        simple_frame(*obj).len() == T::SIZE + FRAME_OVERHEAD_SIZE,
        boxed@ == simple_frame(*obj) + zeros(size - simple_frame(*obj).len()),
{
    proof {
        obj.round_trip(Seq::empty());
        law_frame_round_trip(T::FRAME_TYPE, obj.encode());
    }
    let mut buffer: Vec<u8> = vec![0; size];
    let ghost blank = buffer@;
    let mut wr = FrameWriter::new(buffer.as_mut_slice(), T::FRAME_TYPE);
    let ghost started = wr.buffer@;
    let _ = wr.write(obj);
    let ghost filled = wr.buffer@;
    let ghost end = wr.write_idx as int;
    assert(wr.content() =~= seq![type_byte(T::FRAME_TYPE)] + obj.encode());
    let _ = wr.finalize();
    proof {
        assert forall|i: int| end <= i < size implies filled[i] == 0 by {
            assert(filled.skip(end)[i - end] == started.skip(end)[i - end]);
            assert(started[i] == blank[i]);
        }
        assert(buffer@ =~= simple_frame(*obj) + zeros(size - simple_frame(*obj).len()));
    }
    crate::buffer::into_boxed(buffer)
}

/// Writes an initial handshake frame to the front of a buffer of its proper size, which is otherwise
/// zero.
pub fn write_handshake_alpha(obj: &HandshakeAlphaFrame, frame_size_max: usize) -> (buffer: Box<
    [u8],
>)
    requires
        frame_size_max >= HANDSHAKE_ALPHA_SIZE + FRAME_OVERHEAD_SIZE,
    ensures
        buffer@ == simple_frame(*obj) + zeros(
            alpha_frame_size(frame_size_max as int) - HANDSHAKE_ALPHA_SIZE - FRAME_OVERHEAD_SIZE,
        ),
{
    let frame_size: usize = if frame_size_max < HANDSHAKE_ALPHA_FRAME_SIZE_MAX {
        frame_size_max
    } else {
        HANDSHAKE_ALPHA_FRAME_SIZE_MAX
    };
    write_padded(obj, frame_size)
}

/// Reading of payloads which hold one value.
pub trait SimplePayloadRead: Sized {
    /// The value in a payload, if the payload is long enough.
    spec fn in_payload(src: Seq<u8>) -> Option<Self>;

    fn read(src: &[u8]) -> (result: Option<Self>)
        ensures
            result == Self::in_payload(src@),
    ;
}

impl<T> SimplePayloadRead for T where T: SimpleFrame {
    open spec fn in_payload(src: Seq<u8>) -> Option<Self> {
        if src.len() >= T::SIZE {
            Some(T::decode(src))
        } else {
            None
        }
    }

    fn read(src: &[u8]) -> (result: Option<Self>) {
        PayloadReader::new(src).read::<Self>()
    }
}

/// A value which is sent in a frame of its own arrives intact, and unchanged.
pub proof fn law_simple_frame_round_trip<T: SimpleFrame>(obj: T)
    requires
        obj.is_canonical(),
    ensures
        is_intact(simple_frame(obj)),
        frame_type(simple_frame(obj)) == Some(T::FRAME_TYPE),
        T::in_payload(frame_payload(simple_frame(obj))) == Some(obj),
{
    law_frame_round_trip(T::FRAME_TYPE, obj.encode());
    obj.round_trip(Seq::empty());
    assert(obj.encode() + Seq::empty() =~= obj.encode());
}

/// An initial handshake frame, padded to its proper size, is accepted as such by whoever expects the
/// same size.
pub proof fn law_handshake_alpha_round_trip(
    obj: HandshakeAlphaFrame,
    frame_size_max: int,
    bytes: Seq<u8>,
)
    requires
        frame_size_max >= HANDSHAKE_ALPHA_SIZE + FRAME_OVERHEAD_SIZE,
        bytes == simple_frame(obj) + zeros(
            alpha_frame_size(frame_size_max) - HANDSHAKE_ALPHA_SIZE - FRAME_OVERHEAD_SIZE,
        ),
    ensures
        bytes.len() == alpha_frame_size(frame_size_max),
        is_intact(bytes.take(HANDSHAKE_ALPHA_SIZE + FRAME_OVERHEAD_SIZE)),
        frame_type(bytes) == Some(FrameType::HandshakeAlpha),
        HandshakeAlphaFrame::in_payload(frame_payload(bytes)) == Some(obj),
{
    let head = simple_frame(obj);
    law_simple_frame_round_trip(obj);
    obj.round_trip(Seq::empty());
    assert(bytes.take(HANDSHAKE_ALPHA_SIZE + FRAME_OVERHEAD_SIZE) =~= head);
    let rest = frame_payload(bytes).skip(HANDSHAKE_ALPHA_SIZE as int);
    assert(frame_payload(bytes) =~= obj.encode() + rest);
    obj.round_trip(rest);
}

} // verus!
