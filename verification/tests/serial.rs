use redpine::frame::serial::{
    crc, payload, read_type, verify_crc, verify_handshake_alpha_size_and_crc,
    verify_handshake_beta_size_and_crc, verify_minimum_size, write_handshake_alpha, FrameWriter,
    PayloadReader, Reader, SimpleFrameWrite, SimplePayloadRead, Writer, PROTOCOL_ID,
};
use redpine::frame::{
    CloseAckFrame, CloseFrame, ConnectionParams, Datagram, FrameType, HandshakeAlphaAckFrame,
    HandshakeAlphaFrame, HandshakeBetaAckFrame, HandshakeBetaFrame, HandshakeErrorKind, StreamAck,
    StreamSegmentHeader, StreamSync,
};

struct DatagramEntry {
    id: u32,
    unrel: bool,
    first: bool,
    last: bool,
    data: Box<[u8]>,
}

fn random_bytes(size: usize) -> Box<[u8]> {
    (0..size)
        .map(|_| rand::random::<u8>())
        .collect::<Vec<_>>()
        .into_boxed_slice()
}

#[test]
fn mod_stream_data() {
    for datagram_count in 0..8 {
        let mut datagrams = Vec::new();

        let mut buf = [0; 32 * 1024];
        let mut writer = FrameWriter::new(&mut buf, FrameType::StreamSegment);

        for i in 0..datagram_count {
            let size = if i == 0 {
                0
            } else {
                rand::random::<usize>() % 2048
            };

            let dg_entry = DatagramEntry {
                id: rand::random::<u32>(),
                unrel: rand::random::<bool>(),
                first: rand::random::<bool>(),
                last: rand::random::<bool>(),
                data: random_bytes(size),
            };

            writer.write(&Datagram {
                id: dg_entry.id,
                unrel: dg_entry.unrel,
                first: dg_entry.first,
                last: dg_entry.last,
                data: &dg_entry.data,
            });

            datagrams.push(dg_entry);
        }

        let frame = writer.finalize();

        assert!(verify_minimum_size(frame));
        assert!(verify_crc(frame));
        assert_eq!(read_type(frame), Some(FrameType::StreamSegment));

        let mut reader = PayloadReader::new(payload(frame));

        for i in 0..datagram_count {
            let dg = reader.read::<Datagram>().unwrap();

            assert_eq!(dg.id, datagrams[i].id);
            assert_eq!(dg.unrel, datagrams[i].unrel);
            assert_eq!(dg.first, datagrams[i].first);
            assert_eq!(dg.last, datagrams[i].last);
            assert_eq!(dg.data, datagrams[i].data.as_ref());
        }

        assert!(reader.read::<Datagram>().is_none());
    }
}

#[test]
fn crc_check_value() {
    assert_eq!(crc::compute(b"123456789"), 0xCBF4_3926);
    assert_eq!(crc::compute(b""), 0);
}

#[test]
fn reader_and_writer_are_big_endian() {
    let mut buf = [0u8; 18];
    let mut wr = Writer::new(&mut buf);
    assert_eq!(wr.bytes_remaining(), 18);
    wr.write_u8(0x01);
    wr.write_u16(0x0203);
    wr.write_u32(0x0405_0607);
    wr.write_u64(0x0809_0A0B_0C0D_0E0F);
    wr.write_slice(&[0x10, 0x11]);
    assert_eq!(wr.bytes_written(), 17);
    assert_eq!(wr.bytes_remaining(), 1);
    assert_eq!(
        buf,
        [1, 2, 3, 4, 5, 6, 7, 8, 9, 10, 11, 12, 13, 14, 15, 16, 17, 0]
    );

    let mut rd = Reader::new(&buf);
    assert_eq!(rd.read_u8(), 0x01);
    assert_eq!(rd.read_u16(), 0x0203);
    assert_eq!(rd.read_u32(), 0x0405_0607);
    assert_eq!(rd.read_u64(), 0x0809_0A0B_0C0D_0E0F);
    assert_eq!(rd.bytes_read(), 15);
}

#[test]
fn simple_frames_survive() {
    let mut buf = [0u8; 64];

    let frame = CloseFrame { remote_nonce: 0xDEAD_BEEF }.write(&mut buf).to_vec();
    assert_eq!(&frame[..5], &[0x04, 0xDE, 0xAD, 0xBE, 0xEF]);
    assert_eq!(frame.len(), 9);
    assert_eq!(read_type(&frame), Some(FrameType::Close));
    assert!(verify_crc(&frame));
    assert_eq!(CloseFrame::read(payload(&frame)).unwrap().remote_nonce, 0xDEAD_BEEF);

    let frame = CloseAckFrame { remote_nonce: 7 }.write(&mut buf).to_vec();
    assert_eq!(read_type(&frame), Some(FrameType::CloseAck));
    assert_eq!(CloseAckFrame::read(payload(&frame)).unwrap().remote_nonce, 7);

    let frame = StreamSync { next_segment_id: 99 }.write(&mut buf).to_vec();
    assert_eq!(read_type(&frame), Some(FrameType::StreamSync));
    assert_eq!(StreamSync::read(payload(&frame)).unwrap().next_segment_id, 99);

    let frame = HandshakeAlphaAckFrame {
        server_params: ConnectionParams {
            packet_size_in_max: 1,
            packet_size_out_max: 2,
        },
        client_nonce: 3,
        server_nonce: 4,
        server_timestamp: 5,
        server_mac: 6,
    }
    .write(&mut buf)
    .to_vec();
    let read = HandshakeAlphaAckFrame::read(payload(&frame)).unwrap();
    assert_eq!(read_type(&frame), Some(FrameType::HandshakeAlphaAck));
    assert_eq!(read.server_params.packet_size_in_max, 1);
    assert_eq!(read.server_params.packet_size_out_max, 2);
    assert_eq!(read.client_nonce, 3);
    assert_eq!(read.server_nonce, 4);
    assert_eq!(read.server_timestamp, 5);
    assert_eq!(read.server_mac, 6);

    for error in [
        None,
        Some(HandshakeErrorKind::Capacity),
        Some(HandshakeErrorKind::Parameter),
    ] {
        let frame = HandshakeBetaAckFrame {
            error,
            client_nonce: 8,
        }
        .write(&mut buf)
        .to_vec();
        let read = HandshakeBetaAckFrame::read(payload(&frame)).unwrap();
        assert_eq!(read_type(&frame), Some(FrameType::HandshakeBetaAck));
        assert_eq!(read.error, error);
        assert_eq!(read.client_nonce, 8);
    }

    // Too short
    assert!(CloseFrame::read(&[1, 2, 3]).is_none());
}

#[test]
fn handshake_alpha_is_padded() {
    let alpha = HandshakeAlphaFrame {
        protocol_id: PROTOCOL_ID,
        client_nonce: 0x0102_0304,
    };
    let frame = write_handshake_alpha(&alpha, 1472);
    assert_eq!(frame.len(), 1472);
    assert!(frame[11..].iter().all(|&byte| byte == 0));
    assert!(verify_handshake_alpha_size_and_crc(&frame, 1472));
    assert!(!verify_handshake_alpha_size_and_crc(&frame[..1471], 1472));
    assert_eq!(read_type(&frame), Some(FrameType::HandshakeAlpha));
    let read = HandshakeAlphaFrame::read(payload(&frame)).unwrap();
    assert_eq!(read.protocol_id, PROTOCOL_ID);
    assert_eq!(read.client_nonce, 0x0102_0304);

    let mut damaged = frame.to_vec();
    damaged[3] ^= 0x10;
    assert!(!verify_handshake_alpha_size_and_crc(&damaged, 1472));

    assert_eq!(write_handshake_alpha(&alpha, 600).len(), 600);
    assert_eq!(write_handshake_alpha(&alpha, 9000).len(), 1472);
}

#[test]
fn handshake_beta_size_is_checked() {
    let beta = HandshakeBetaFrame {
        client_params: ConnectionParams {
            packet_size_in_max: 1,
            packet_size_out_max: 2,
        },
        client_nonce: 3,
        server_nonce: 4,
        server_timestamp: 5,
        server_mac: 6,
    };
    let frame = beta.write_boxed();
    assert_eq!(frame.len(), 33);
    assert!(verify_handshake_beta_size_and_crc(&frame));
    assert!(!verify_handshake_beta_size_and_crc(&frame[..32]));
    let read = HandshakeBetaFrame::read(payload(&frame)).unwrap();
    assert_eq!(read.server_mac, 6);
}

#[test]
fn damage_is_noticed() {
    let mut buf = [0u8; 64];
    let frame = StreamSync { next_segment_id: 0x1234_5678 }.write(&mut buf).to_vec();
    for i in 0..frame.len() * 8 {
        let mut damaged = frame.clone();
        damaged[i / 8] ^= 1 << (i % 8);
        assert!(!verify_crc(&damaged));
    }
}

#[test]
fn unknown_types_are_refused() {
    for byte in 0..=255u8 {
        let known = read_type(&[byte, 0, 0, 0, 0]).is_some();
        assert_eq!(known, byte & 0x0F <= 0x09);
    }
    assert!(!verify_minimum_size(&[0, 0, 0, 0]));
    assert!(verify_minimum_size(&[0, 0, 0, 0, 0]));
}

#[test]
fn stream_frames_hold_several_values() {
    let mut buf = [0u8; 128];
    let mut writer = FrameWriter::new(&mut buf, FrameType::StreamSegmentAck);
    assert!(writer.write(&StreamAck {
        segment_id: 0x0A0B_0C0D,
        segment_history: 0x15,
        segment_checksum: true,
        rel_fragment_id: Some(0x0102_0304),
    }));
    assert!(writer.write(&StreamSegmentHeader {
        id: 0x1111_2222,
        nonce: true,
    }));
    let frame = writer.finalize();
    assert_eq!(&frame[1..10], &[0xB5, 0x0A, 0x0B, 0x0C, 0x0D, 1, 2, 3, 4]);

    let mut reader = PayloadReader::new(payload(frame));
    let ack = reader.read::<StreamAck>().unwrap();
    assert_eq!(ack.segment_id, 0x0A0B_0C0D);
    assert_eq!(ack.segment_history, 0x15);
    assert!(ack.segment_checksum);
    assert_eq!(ack.rel_fragment_id, Some(0x0102_0304));
    let header = reader.read::<StreamSegmentHeader>().unwrap();
    assert_eq!(header.id, 0x1111_2222);
    assert!(header.nonce);
    assert!(reader.remaining_bytes().is_empty());
}

#[test]
fn writing_stops_when_the_frame_is_full() {
    let mut buf = [0u8; 5 + 7 + 3];
    let mut writer = FrameWriter::new(&mut buf, FrameType::StreamSegment);
    let too_long = Datagram {
        id: 0,
        unrel: false,
        first: true,
        last: true,
        data: &[1, 2, 3, 4],
    };
    let fitting = Datagram {
        id: 0,
        unrel: false,
        first: true,
        last: true,
        data: &[1, 2, 3],
    };
    assert!(!writer.write(&too_long));
    assert!(writer.write(&fitting));
    assert!(!writer.write(&fitting));
    let frame = writer.finalize();
    assert_eq!(&frame[1..11], &[0x06, 0, 0, 0, 0, 0, 3, 1, 2, 3]);
}
