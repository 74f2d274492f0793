use redpine::endpoint::fragment_tx::FragmentTxBuffers;
use redpine::endpoint::prio;
use redpine::endpoint::{Config, Endpoint, TimeoutAction};
use redpine::frame::serial::{payload, read_type, PayloadReader, SimpleFrameWrite};
use redpine::frame::{CloseAckFrame, CloseFrame, FrameType, StreamAck, StreamSegmentHeader};
use redpine::host::{Action, ActionQueue};
use redpine::SendMode;

fn active_endpoint() -> Endpoint {
    let mut queue = ActionQueue::new();
    let mut endpoint = Endpoint::new(Config {
        timeout_time_ms: 10_000,
        prio_config: prio::Config::new(&[1, 1, 1, 1], 10_000),
    });
    endpoint.init(0, &mut queue);
    endpoint
}

fn boxed(bytes: &[u8]) -> Box<[u8]> {
    bytes.to_vec().into_boxed_slice()
}

fn drain(queue: &mut ActionQueue) -> Vec<Action> {
    let mut actions = Vec::new();
    while let Some(action) = queue.pop() {
        actions.push(action);
    }
    actions
}

fn frames(actions: &[Action]) -> Vec<Vec<u8>> {
    actions
        .iter()
        .filter_map(|action| match action {
            Action::SendFrame(frame) => Some(frame.clone()),
            _ => None,
        })
        .collect()
}

fn packets(actions: &[Action]) -> Vec<Vec<u8>> {
    actions
        .iter()
        .filter_map(|action| match action {
            Action::Receive(packet) => Some(packet.to_vec()),
            _ => None,
        })
        .collect()
}

/// Hands a whole frame to an endpoint.
fn deliver(endpoint: &mut Endpoint, frame: &[u8], now_ms: u64) -> Vec<Action> {
    let mut queue = ActionQueue::new();
    let kind = read_type(frame).unwrap();
    endpoint.handle_frame(kind, payload(frame), now_ms, 0, &mut queue);
    drain(&mut queue)
}

/// The frames in which an endpoint sends a number of large packets.
fn segments(endpoint: &mut Endpoint, count: u8) -> Vec<Vec<u8>> {
    let mut queue = ActionQueue::new();
    for i in 0..count {
        endpoint.enqueue(boxed(&[i; 1200]), SendMode::Reliable, 0);
    }
    endpoint.flush(0, &mut queue);
    frames(&drain(&mut queue))
}

#[test]
fn segments_held_back_are_acknowledged() {
    let sent = segments(&mut active_endpoint(), 3);
    assert_eq!(sent.len(), 3);

    let mut receiver = active_endpoint();
    let actions = deliver(&mut receiver, &sent[1], 10);
    assert!(packets(&actions).is_empty());
    let answers = frames(&actions);
    assert_eq!(answers.len(), 1);
    assert!(matches!(read_type(&answers[0]), Some(FrameType::StreamAck)));
    let mut reader = PayloadReader::new(payload(&answers[0]));
    let ack = reader.read::<StreamAck>().unwrap();
    assert_eq!(ack.segment_id, 0);
    assert_eq!(ack.segment_history, 0);
    assert_eq!(ack.rel_fragment_id, None);

    // So are the missing segment, and one which comes again
    for (frame, expected_id, expected_history, count) in
        [(&sent[0], 2, 0b11, 2), (&sent[0], 2, 0b11, 0), (&sent[2], 3, 0b111, 1)]
    {
        let actions = deliver(&mut receiver, frame, 20);
        assert_eq!(packets(&actions).len(), count);
        let answers = frames(&actions);
        assert_eq!(answers.len(), 1);
        let mut reader = PayloadReader::new(payload(&answers[0]));
        let ack = reader.read::<StreamAck>().unwrap();
        assert_eq!(ack.segment_id, expected_id);
        assert_eq!(ack.segment_history, expected_history);
        assert_eq!(ack.rel_fragment_id.is_some(), count > 0);
    }
}

#[test]
fn one_frame_of_a_flush_acknowledges() {
    let mut endpoint = active_endpoint();
    for i in 0..20 {
        endpoint.enqueue(boxed(&[i; 1200]), SendMode::Reliable, 0);
    }
    let mut queue = ActionQueue::new();
    endpoint.flush_stream(true, true, 0, &mut queue);
    let actions = drain(&mut queue);
    assert_eq!(
        actions
            .iter()
            .filter(|action| matches!(action, Action::SetRtoTimer(1000)))
            .count(),
        1
    );
    let sent = frames(&actions);
    // The window is 10240 bytes, and the ninth packet is the one which fills it
    assert_eq!(sent.len(), 9);
    for (i, frame) in sent.iter().enumerate() {
        let kind = read_type(frame).unwrap();
        let mut reader = PayloadReader::new(payload(frame));
        if i == 0 {
            assert!(matches!(kind, FrameType::StreamSegmentAck));
            reader.read::<StreamAck>().unwrap();
        } else {
            assert!(matches!(kind, FrameType::StreamSegment));
        }
        assert_eq!(reader.read::<StreamSegmentHeader>().unwrap().id, i as u32);
    }
    // Nothing more fits
    endpoint.flush(1, &mut queue);
    assert!(frames(&drain(&mut queue)).is_empty());
}

fn disconnect_count(actions: &[Action]) -> usize {
    actions
        .iter()
        .filter(|action| matches!(action, Action::Disconnect))
        .count()
}

#[test]
fn disconnection_is_reported_once() {
    let close = CloseFrame { remote_nonce: 0 }.write_boxed();
    let close_ack = CloseAckFrame { remote_nonce: 0 }.write_boxed();
    let stray = CloseFrame { remote_nonce: 1 }.write_boxed();
    let stray_ack = CloseAckFrame { remote_nonce: 1 }.write_boxed();
    let segment = segments(&mut active_endpoint(), 1).remove(0);

    // Closed by this side
    let mut endpoint = active_endpoint();
    let mut queue = ActionQueue::new();
    endpoint.disconnect(100, &mut queue);
    let actions = drain(&mut queue);
    assert_eq!(frames(&actions).len(), 1);
    assert_eq!(disconnect_count(&actions), 0);
    endpoint.disconnect(100, &mut queue);
    assert!(drain(&mut queue).is_empty());
    for frame in [&segment[..], &stray[..], &stray_ack[..]] {
        assert!(deliver(&mut endpoint, frame, 105).is_empty());
    }
    let actions = deliver(&mut endpoint, &close_ack, 110);
    assert!(matches!(actions[..], [Action::Disconnect, Action::SetRtoTimer(_)]));
    for frame in [&segment[..], &stray[..], &close_ack[..]] {
        assert!(deliver(&mut endpoint, frame, 115).is_empty());
    }
    // A closed endpoint goes on confirming
    for _ in 0..3 {
        let actions = deliver(&mut endpoint, &close, 120);
        assert!(matches!(
            &actions[..],
            [Action::SendFrame(frame)] if matches!(read_type(frame), Some(FrameType::CloseAck))
        ));
    }
    assert_eq!(endpoint.handle_rto_timer(20_000, &mut queue), TimeoutAction::Terminate);
    assert_eq!(disconnect_count(&drain(&mut queue)), 0);

    // Closed by the other side, or by both
    for both in [false, true] {
        let mut endpoint = active_endpoint();
        if both {
            endpoint.disconnect(100, &mut queue);
            drain(&mut queue);
        }
        let actions = deliver(&mut endpoint, &close, 110);
        assert!(matches!(
            &actions[..],
            [Action::SendFrame(frame), Action::Disconnect, Action::SetRtoTimer(_)]
                if matches!(read_type(frame), Some(FrameType::CloseAck))
        ));
        assert_eq!(disconnect_count(&deliver(&mut endpoint, &close, 120)), 0);
        endpoint.disconnect(130, &mut queue);
        assert!(drain(&mut queue).is_empty());
    }
}

#[test]
fn packets_stay_for_their_time() {
    let config = || prio::Config::new(&[1, 1, 1, 1], 10_000);

    for (later_ms, ready) in [(100, true), (110, true), (111, false)] {
        let mut buffers = FragmentTxBuffers::new(0, 128, 100, config());
        assert!(!buffers.data_ready(100));
        buffers.enqueue(boxed(&[1; 250]), SendMode::Unreliable(10), 100);
        assert_eq!(buffers.data_ready(later_ms), ready);
    }

    let mut buffers = FragmentTxBuffers::new(0, 128, 100, config());
    buffers.enqueue(boxed(&[1; 250]), SendMode::Reliable, 100);
    assert!(buffers.data_ready(1_000_000));
}
