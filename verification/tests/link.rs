use redpine::buffer::segment::RxBuffer;
use redpine::frame::Datagram;
use redpine::link::frame::{
    CloseFrame, ConnectionParams, FrameType, HandshakeAckFrame, HandshakeSynAckFrame,
    HandshakeSynFrame, StreamAck, StreamDataHeader,
};
use redpine::link::prio::{SendModeType, TxPrioState};
use redpine::link::serial::{FrameReader, FrameWriter};
use redpine::link::window::{FrameRxWindow, FrameTxWindow};
use redpine::link::{Action, ActionLog, Endpoint, TimerName};
use redpine::SendMode;

#[test]
fn endpoint_tx_state() {
    let mut host_ctx = ActionLog::new();
    let mut endpoint = Endpoint::new();

    endpoint.actual_flush(true, true, true, &mut host_ctx);

    let expected = vec![6, 3, 0, 0, 0, 0, 0, 0, 0, 0, 0, 0, 0, 0, 0, 0, 0, 0];
    assert!(matches!(&host_ctx.actions[..], [Action::SendFrame(frame)] if *frame == expected));
}

struct DatagramEntry {
    id: u32,
    unrel: bool,
    first: bool,
    last: bool,
    data: Box<[u8]>,
}

fn random_bytes(size: usize) -> Box<[u8]> {
    (0..size)
        .map(|_| rand::random::<u8>())
        .collect::<Vec<_>>()
        .into_boxed_slice()
}

#[test]
fn serial_stream_data() {
    for datagram_count in 0..8 {
        let mut datagrams = Vec::new();

        let mut buf = [0; 32 * 1024];
        let mut writer = FrameWriter::new(&mut buf, FrameType::StreamData).unwrap();

        for i in 0..datagram_count {
            let size = if i == 0 {
                0
            } else {
                rand::random::<usize>() % 2048
            };

            let dg_entry = DatagramEntry {
                id: rand::random::<u32>(),
                unrel: rand::random::<bool>(),
                first: rand::random::<bool>(),
                last: rand::random::<bool>(),
                data: random_bytes(size),
            };

            writer.write(&Datagram {
                id: dg_entry.id,
                unrel: dg_entry.unrel,
                first: dg_entry.first,
                last: dg_entry.last,
                data: &dg_entry.data,
            });

            datagrams.push(dg_entry);
        }

        let frame = writer.finalize();

        let (mut reader, frame_type) = FrameReader::new(frame).unwrap();
        assert_eq!(frame_type, FrameType::StreamData);

        for i in 0..datagram_count {
            let dg = reader.read::<Datagram>().unwrap();

            assert_eq!(dg.id, datagrams[i].id);
            assert_eq!(dg.unrel, datagrams[i].unrel);
            assert_eq!(dg.first, datagrams[i].first);
            assert_eq!(dg.last, datagrams[i].last);
            assert_eq!(dg.data, datagrams[i].data.as_ref());
        }

        assert!(reader.read::<Datagram>().is_none());
    }
}

fn params() -> ConnectionParams {
    ConnectionParams {
        protocol_id: 1,
        receive_rate_max: 2,
        packet_size_in_max: 3,
        packet_size_out_max: 4,
    }
}

#[test]
fn link_frames_survive() {
    let mut buf = [0u8; 64];
    let mut writer = FrameWriter::new(&mut buf, FrameType::HandshakeSyn).unwrap();
    assert!(writer.write(&HandshakeSynFrame {
        client_params: params(),
        client_mode: 5,
        client_nonce: 6,
    }));
    let frame = writer.finalize();
    assert_eq!(frame.len(), 1 + 21 + 4);
    let (mut reader, kind) = FrameReader::new(frame).unwrap();
    assert_eq!(kind, FrameType::HandshakeSyn);
    let syn = reader.read::<HandshakeSynFrame>().unwrap();
    assert_eq!(syn.client_params.protocol_id, 1);
    assert_eq!(syn.client_params.packet_size_out_max, 4);
    assert_eq!(syn.client_mode, 5);
    assert_eq!(syn.client_nonce, 6);

    let mut writer = FrameWriter::new(&mut buf, FrameType::HandshakeSynAck).unwrap();
    assert!(writer.write(&HandshakeSynAckFrame {
        server_params: params(),
        client_mode: 5,
        client_nonce: 6,
        server_nonce: 7,
        mac: 8,
    }));
    let frame = writer.finalize();
    let (mut reader, kind) = FrameReader::new(frame).unwrap();
    assert_eq!(kind, FrameType::HandshakeSynAck);
    let ack = reader.read::<HandshakeSynAckFrame>().unwrap();
    assert_eq!((ack.server_nonce, ack.mac), (7, 8));
    assert_eq!(ack.server_params.receive_rate_max, 2);

    let mut writer = FrameWriter::new(&mut buf, FrameType::HandshakeAck).unwrap();
    assert!(writer.write(&HandshakeAckFrame {
        client_mode: 1,
        client_nonce: 2,
        server_nonce: 3,
        mac: 4,
    }));
    let frame = writer.finalize();
    let (mut reader, _) = FrameReader::new(frame).unwrap();
    assert_eq!(reader.read::<HandshakeAckFrame>().unwrap().mac, 4);

    let mut writer = FrameWriter::new(&mut buf, FrameType::Close).unwrap();
    assert!(writer.write(&CloseFrame {
        mode: 1,
        remote_nonce: 2,
    }));
    let frame = writer.finalize();
    assert_eq!(frame, &[3, 0, 0, 0, 1, 0, 0, 0, 2, 0, 0, 0, 0]);

    let mut writer = FrameWriter::new(&mut buf, FrameType::StreamDataAck).unwrap();
    assert!(writer.write(&StreamAck {
        data_id: 9,
        unrel_id: Some(3),
        rel_id: Some(4),
    }));
    assert!(writer.write(&StreamDataHeader { id: 10 }));
    let frame = writer.finalize();
    let (mut reader, _) = FrameReader::new(frame).unwrap();
    let ack = reader.read::<StreamAck>().unwrap();
    assert_eq!((ack.data_id, ack.unrel_id, ack.rel_id), (9, Some(3), Some(4)));
    assert_eq!(reader.read::<StreamDataHeader>().unwrap().id, 10);

    assert!(FrameWriter::new(&mut [0u8; 4], FrameType::Close).is_none());
    assert!(FrameReader::new(&[0u8; 4]).is_none());
    assert!(FrameReader::new(&[0x09, 0, 0, 0, 0]).is_none());
}

#[test]
fn ack_ids_are_read_one_after_the_other() {
    // The frame has one byte of flags, the ID of a data frame, and two more
    let cases = [
        (0, None, None, 0x0000_0011),
        (1, Some(0x11), None, 0x0000_0022),
        (2, None, Some(0x11), 0x0000_0022),
        (3, Some(0x11), Some(0x22), 0x0000_0033),
    ];
    for (flags, unrel_id, rel_id, next) in cases {
        let frame = [
            7, flags, 0, 0, 0, 9, 0, 0, 0, 0x11, 0, 0, 0, 0x22, 0, 0, 0, 0x33, 0, 0, 0, 0,
        ];
        let (mut reader, _) = FrameReader::new(&frame).unwrap();
        let ack = reader.read::<StreamAck>().unwrap();
        assert_eq!((ack.data_id, ack.unrel_id, ack.rel_id), (9, unrel_id, rel_id));
        assert_eq!(reader.read::<StreamDataHeader>().unwrap().id, next);
    }

    // Both IDs have to be there, even if none is given
    let short = [6, 0, 0, 0, 0, 9, 0, 0, 0, 0x11, 0, 0, 0, 0, 0, 0, 0];
    let (mut reader, _) = FrameReader::new(&short).unwrap();
    assert!(reader.read::<StreamAck>().is_none());

    // A reliable fragment on its own is written to the second place
    let mut buf = [0u8; 64];
    let mut writer = FrameWriter::new(&mut buf, FrameType::StreamAck).unwrap();
    assert!(writer.write(&StreamAck {
        data_id: 9,
        unrel_id: None,
        rel_id: Some(4),
    }));
    let frame = writer.finalize();
    assert_eq!(frame, &[6, 2, 0, 0, 0, 9, 0, 0, 0, 0, 0, 0, 0, 4, 0, 0, 0, 0]);
    let (mut reader, _) = FrameReader::new(frame).unwrap();
    assert_eq!(reader.read::<StreamAck>().unwrap().rel_id, Some(0));
}

#[test]
fn frame_windows() {
    let mut tx = FrameTxWindow::new(u32::MAX, 3);
    for i in 0..3u32 {
        assert!(tx.can_send());
        assert_eq!(tx.next_id(), u32::MAX.wrapping_add(i));
        tx.mark_sent(10 + i as usize);
    }
    assert!(!tx.can_send());
    assert_eq!(tx.bytes_in_transit(), 33);
    assert!(!tx.acknowledge(u32::MAX));
    assert!(!tx.acknowledge(3));
    assert!(tx.acknowledge(1));
    assert_eq!(tx.bytes_in_transit(), 12);
    assert!(tx.can_send());
    assert!(tx.acknowledge(2));
    assert_eq!(tx.bytes_in_transit(), 0);

    let mut rx = FrameRxWindow::new(5, 2);
    assert!(rx.can_receive(5) && rx.can_receive(6));
    assert!(!rx.can_receive(4) && !rx.can_receive(7));
    rx.mark_received(6);
    assert_eq!(rx.next_expected_id(), 7);
}

#[test]
fn prio_counter() {
    let mut prio = TxPrioState::new(1, 5, 4, 100);
    assert_eq!(prio.next_mode(), SendModeType::Reliable);
    prio.mark_sent(1);
    assert_eq!(prio.counter, -4);
    assert_eq!(prio.next_mode(), SendModeType::Unreliable);
    prio.mark_sent(1);
    assert_eq!(prio.counter, -3);
    prio.mark_sent(1000);
    assert_eq!(prio.counter, 100);
    prio.mark_sent(1000);
    assert_eq!(prio.counter, -4);
}

#[test]
fn one_reliable_datagram_goes_with_five_unreliable_ones() {
    let mut prio = TxPrioState::new(1, 5, 100, 100);
    for counter in [0, -5, -4, -3, -2, -1, 0, -5, -4, -3, -2, -1, 0] {
        assert_eq!(prio.counter, counter);
        let expected = if counter == 0 {
            SendModeType::Reliable
        } else {
            SendModeType::Unreliable
        };
        assert_eq!(prio.next_mode(), expected);
        prio.mark_sent(1);
    }
}

#[test]
fn the_counter_follows_the_queue_served() {
    let mut prio = TxPrioState::new(1, 5, 100, 3);
    prio.mark_sent_on(SendModeType::Reliable, 1);
    assert_eq!(prio.counter, -5);
    prio.mark_sent_on(SendModeType::Reliable, 1);
    assert_eq!(prio.counter, -10);
    prio.mark_sent_on(SendModeType::Reliable, 100);
    assert_eq!(prio.counter, -100);
    prio.mark_sent_on(SendModeType::Unreliable, 102);
    assert_eq!(prio.counter, 2);
    assert_eq!(prio.next_mode(), SendModeType::Reliable);
    prio.mark_sent_on(SendModeType::Unreliable, 1);
    assert_eq!(prio.counter, 3);
    prio.mark_sent_on(SendModeType::Unreliable, 1);
    assert_eq!(prio.counter, 3);
}

// What one channel has sent on its own is made up for as soon as the other has something to send
#[test]
fn channels_make_up_for_what_was_sent_alone() {
    let mut endpoint = Endpoint::new();
    let mut log = ActionLog::new();
    // Fifteen packets fill the congestion window, and move the counter down as far as it goes
    for _ in 0..15 {
        endpoint.send(vec![0; 1000].into_boxed_slice(), SendMode::Reliable, &mut log);
    }
    assert_eq!(frames(&log).len(), 15);
    let mut log = ActionLog::new();
    for _ in 0..12 {
        endpoint.send(vec![1; 1000].into_boxed_slice(), SendMode::Reliable, &mut log);
        endpoint.send(vec![2; 1000].into_boxed_slice(), SendMode::Unreliable(0), &mut log);
    }
    assert!(frames(&log).is_empty());

    let ack = [6, 0, 0, 0, 0, 15, 0, 0, 0, 0, 0, 0, 0, 0, 0, 0, 0, 0];
    endpoint.handle_frame(&ack, &mut log);
    let sent: String = frames(&log)
        .iter()
        .map(|frame| {
            let (mut reader, _) = FrameReader::new(frame).unwrap();
            reader.read::<StreamDataHeader>().unwrap();
            let datagram = reader.read::<Datagram>().unwrap();
            assert!(reader.read::<Datagram>().is_none());
            if datagram.unrel { 'U' } else { 'R' }
        })
        .collect();
    assert_eq!(sent, "UUUUUUUUUURUURR");
}

#[test]
fn channels_share_a_link_by_weight() {
    let mut prio = TxPrioState::new(1, 5, 1_000_000, 1_000_000);
    let mut reliable = 0;
    let mut unreliable = 0;
    for i in 0..600usize {
        let size = 100 + i % 7;
        match prio.next_mode() {
            SendModeType::Reliable => reliable += size as i32,
            SendModeType::Unreliable => unreliable += size as i32,
        }
        prio.mark_sent(size);
        assert_eq!(prio.counter, unreliable - 5 * reliable);
        assert!(prio.counter.abs() <= 5 * 106);
    }
    assert!(reliable > 0);
}

fn frames(log: &ActionLog) -> Vec<Vec<u8>> {
    log.actions
        .iter()
        .filter_map(|action| match action {
            Action::SendFrame(frame) => Some(frame.clone()),
            _ => None,
        })
        .collect()
}

#[test]
fn packets_cross_a_link() {
    let mut a = Endpoint::new();
    let mut b = Endpoint::new();

    let mut log = ActionLog::new();
    a.init(7, &mut log);
    assert!(matches!(log.actions[0], Action::Connect));
    assert!(matches!(log.actions[1], Action::SetTimer(TimerName::Rto, 507)));

    let mut log = ActionLog::new();
    a.send(vec![1, 2, 3].into_boxed_slice(), SendMode::Reliable, &mut log);
    let sent = frames(&log);
    assert_eq!(sent.len(), 1);
    assert_eq!(
        sent[0],
        vec![5, 0, 0, 0, 0, 6, 0, 0, 0, 0, 0, 3, 1, 2, 3, 0, 0, 0, 0]
    );

    let mut log = ActionLog::new();
    b.handle_frame(&sent[0], &mut log);
    assert!(matches!(&log.actions[0], Action::Receive(packet) if packet.as_ref() == &[1, 2, 3]));
    let acks = frames(&log);
    assert_eq!(acks, vec![vec![6, 2, 0, 0, 0, 1, 0, 0, 0, 0, 0, 0, 0, 1, 0, 0, 0, 0]]);

    // The same frame again is out of the window
    let mut log = ActionLog::new();
    b.handle_frame(&sent[0], &mut log);
    assert!(log.actions.is_empty());

    let mut log = ActionLog::new();
    a.handle_frame(&acks[0], &mut log);
    assert!(log.actions.is_empty());

    let mut log = ActionLog::new();
    a.send(vec![9; 10].into_boxed_slice(), SendMode::Unreliable(100), &mut log);
    let sent = frames(&log);
    let mut log = ActionLog::new();
    b.handle_frame(&sent[0], &mut log);
    assert!(matches!(&log.actions[0], Action::Receive(packet) if packet.as_ref() == &[9; 10]));

    let mut log = ActionLog::new();
    a.handle_timer(TimerName::Rto, 0, &mut log);
    a.disconnect(&mut log);
    a.flush(&mut log);
    a.handle_frame(&[0x03, 0, 0, 0, 0], &mut log);
    assert!(log.actions.is_empty());
}

#[test]
fn segments_are_put_in_order() {
    let mut buffer = RxBuffer::new(10, 8, 16);
    let mut delivered = Vec::new();
    assert_eq!(buffer.receive(12, &[12], &mut delivered), 1);
    assert_eq!(buffer.receive(11, &[11], &mut delivered), 2);
    assert!(delivered.is_empty());
    assert_eq!(buffer.receive(10, &[10], &mut delivered), 0);
    assert_eq!(delivered, vec![vec![10], vec![11], vec![12]]);
    assert_eq!(buffer.next_expected_id(), 13);
    // Beyond the window
    assert_eq!(buffer.receive(21, &[0], &mut delivered), 0);
    assert_eq!(delivered.len(), 3);
    // Three out of order skip what is missing
    assert_eq!(buffer.receive(15, &[15], &mut delivered), 1);
    assert_eq!(buffer.receive(17, &[17], &mut delivered), 2);
    assert_eq!(buffer.receive(19, &[19], &mut delivered), 2);
    assert_eq!(delivered.len(), 4);
    assert_eq!(buffer.next_expected_id(), 16);
}
