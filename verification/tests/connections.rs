use std::hash::Hasher;

use redpine::client::{ClientCore, Config as ClientConfig};
use redpine::endpoint::prio;
use redpine::endpoint::{ChannelBalanceConfig, Config, Endpoint, TimeoutAction};
use redpine::frame::serial::{
    payload, read_type, PayloadReader, SimpleFrameWrite, SimplePayloadRead,
};
use redpine::frame::{
    ConnectionParams, FrameType, HandshakeAlphaAckFrame, HandshakeBetaAckFrame, HandshakeBetaFrame,
    HandshakeErrorKind, StreamSegmentHeader,
};
use redpine::handshake::connection_params_compatible;
use redpine::host::{Action, ActionQueue, Event};
use redpine::server::handshake_mac::{Address, HandshakeMacHasher};
use redpine::server::peer::Peer;
use redpine::server::table::PeerTable;
use redpine::server::{next_timer_timeout, Config as ServerConfig, FrameAction, ServerCore};
use redpine::{ErrorKind, SendMode};

fn endpoint_config() -> Config {
    Config {
        timeout_time_ms: 10_000,
        prio_config: prio::Config::new(&[1, 1, 1, 1], 10_000),
    }
}

#[test]
fn mod_tx_state() {
    let mut host_ctx = ActionQueue::new();
    let mut endpoint = Endpoint::new(endpoint_config());

    endpoint.flush_stream(true, true, 0, &mut host_ctx);

    // Nothing has been received, so that the frame acknowledges nothing
    match host_ctx.pop() {
        Some(Action::SendFrame(frame)) => {
            assert_eq!(&frame[..10], &[0x07, 0x80, 0, 0, 0, 0, 0, 0, 0, 0]);
        }
        _ => panic!("expected a frame"),
    }
    assert!(host_ctx.pop().is_none());
}

const ADDR: Address = Address::V4([127, 0, 0, 1], 10000);

fn boxed(bytes: &[u8]) -> Box<[u8]> {
    bytes.to_vec().into_boxed_slice()
}

/// A client and a server's peer, both connected.
fn connected_pair() -> (ClientCore, Peer) {
    let server = ServerCore::<()>::new(
        ServerConfig::default(),
        HandshakeMacHasher::with_key([7; 16]),
    );
    let mut client = ClientCore::new(ClientConfig::default(), 0x1234_5678);
    let alpha = client.pop_frame().unwrap();
    let alpha_ack = match server.handle_frame(&alpha, &ADDR, 50) {
        FrameAction::Reply(frame) => frame,
        _ => panic!("expected a reply"),
    };
    client.handle_frame(&alpha_ack, 10, 0);
    let beta = client.pop_frame().unwrap();
    let (mut peer, beta_ack) = match server.handle_frame(&beta, &ADDR, 60) {
        FrameAction::Accept(peer, frame) => (peer, frame),
        _ => panic!("expected a new peer"),
    };
    client.handle_frame(&beta_ack, 20, 0);
    assert!(matches!(client.pop_event(), Some(Event::Connect)));
    assert!(matches!(peer.pop_event(), Some(Event::Connect)));
    assert!(client.pop_frame().is_none());
    (client, peer)
}

/// Hands frames back and forth until there are none left.
fn exchange(client: &mut ClientCore, peer: &mut Peer, now_ms: u64) {
    loop {
        let mut idle = true;
        while let Some(frame) = client.pop_frame() {
            let kind = read_type(&frame).unwrap();
            peer.handle_frame(kind, payload(&frame), now_ms, 1000);
            idle = false;
        }
        while let Some(frame) = peer.pop_frame() {
            client.handle_frame(&frame, now_ms, 1000);
            idle = false;
        }
        if idle {
            break;
        }
    }
}

#[test]
fn handshake_connects() {
    let (mut client, mut peer) = connected_pair();
    exchange(&mut client, &mut peer, 100);
    assert!(client.pop_event().is_none());
    assert!(peer.pop_event().is_none());
}

#[test]
fn packets_are_delivered_both_ways() {
    let (mut client, mut peer) = connected_pair();

    let large: Vec<u8> = (0..100_000u32).map(|i| (i * 7 % 251) as u8).collect();
    client.send(boxed(b"reliable"), SendMode::Reliable, 100);
    client.enqueue(boxed(b"unreliable"), SendMode::Unreliable(500), 100);
    client.enqueue(boxed(&large), SendMode::Reliable, 100);
    client.enqueue(boxed(b""), SendMode::Reliable, 100);
    client.flush(100);
    peer.send(boxed(b"hello"), SendMode::Reliable, 100);
    exchange(&mut client, &mut peer, 110);

    let mut received = Vec::new();
    while let Some(event) = peer.pop_event() {
        match event {
            Event::Receive(packet) => received.push(packet.to_vec()),
            _ => panic!("expected a packet"),
        }
    }
    let unreliable = received.iter().position(|packet| packet == b"unreliable");
    received.remove(unreliable.unwrap());
    assert_eq!(received, vec![b"reliable".to_vec(), large, b"".to_vec()]);

    assert!(matches!(client.pop_event(), Some(Event::Receive(packet)) if packet.as_ref() == b"hello"));
    assert!(client.pop_event().is_none());
}

#[test]
fn packets_wait_for_the_connection() {
    let server = ServerCore::<()>::new(
        ServerConfig::default(),
        HandshakeMacHasher::default(),
    );
    let mut client = ClientCore::connect(ClientConfig::default());
    client.send(boxed(b"first"), SendMode::Reliable, 0);
    client.send(boxed(b"second"), SendMode::Reliable, 0);
    client.flush(0);
    let alpha = client.pop_frame().unwrap();
    assert!(client.pop_frame().is_none());
    if let FrameAction::Reply(frame) = server.handle_frame(&alpha, &ADDR, 0) {
        client.handle_frame(&frame, 1, 0);
    }
    let beta = client.pop_frame().unwrap();
    if let FrameAction::Accept(mut peer, frame) = server.handle_frame(&beta, &ADDR, 1) {
        client.handle_frame(&frame, 2, 0);
        exchange(&mut client, &mut peer, 3);
        assert!(matches!(peer.pop_event(), Some(Event::Connect)));
        assert!(matches!(peer.pop_event(), Some(Event::Receive(p)) if p.as_ref() == b"first"));
        assert!(matches!(peer.pop_event(), Some(Event::Receive(p)) if p.as_ref() == b"second"));
    } else {
        panic!("expected a new peer");
    }
}

#[test]
fn lost_packets_are_sent_again() {
    let (mut client, mut peer) = connected_pair();
    client.send(boxed(b"lost"), SendMode::Reliable, 100);
    assert!(client.pop_frame().is_some());
    assert_eq!(client.next_timer_timeout(100), Some(1000));
    assert_eq!(client.next_timer_timeout(5000), Some(0));

    client.process_timeouts(1099);
    assert!(client.pop_frame().is_none());
    client.process_timeouts(1100);
    exchange(&mut client, &mut peer, 1110);
    assert!(matches!(peer.pop_event(), Some(Event::Receive(p)) if p.as_ref() == b"lost"));
    assert!(peer.pop_event().is_none());
    assert_eq!(client.next_timer_timeout(1110), None);
}

#[test]
fn round_trip_times_are_sampled() {
    let (mut client, mut peer) = connected_pair();
    peer.send(boxed(b"ping"), SendMode::Reliable, 100);
    let frame = peer.pop_frame().unwrap();
    client.handle_frame(&frame, 110, 0);
    let ack = client.pop_frame().unwrap();
    let kind = read_type(&ack).unwrap();
    assert!(peer.can_sample_rtt(137));
    assert!(!peer.can_sample_rtt(99));
    assert_eq!(peer.rtt_sample(kind, payload(&ack), 137), Some(37));
    assert_eq!(peer.rtt_sample(FrameType::StreamSync, payload(&ack), 137), None);

    client.send(boxed(b"pong"), SendMode::Reliable, 200);
    let frame = client.pop_frame().unwrap();
    peer.handle_frame(read_type(&frame).unwrap(), payload(&frame), 210, 0);
    let ack = peer.pop_frame().unwrap();
    assert!(client.can_sample_rtt(222));
    assert_eq!(client.rtt_sample(&ack, 222), Some(22));
    assert_eq!(client.rtt_sample(&ack[1..], 222), None);
}

#[test]
fn silence_ends_a_connection() {
    let (mut client, _peer) = connected_pair();
    client.send(boxed(b"anyone?"), SendMode::Reliable, 0);
    let mut now_ms = 0;
    let mut timeouts = Vec::new();
    while let Some(wait_ms) = client.next_timer_timeout(now_ms) {
        now_ms += wait_ms;
        timeouts.push(now_ms);
        client.process_timeouts(now_ms);
        while client.pop_frame().is_some() {}
    }
    // The timeout is doubled each time, until ten seconds have passed in all
    assert_eq!(timeouts, vec![1000, 3000, 7000, 15000]);
    assert!(matches!(client.pop_event(), Some(Event::Error(ErrorKind::Timeout))));
    assert!(client.pop_event().is_none());
    // Nothing more comes of the client
    client.send(boxed(b"late"), SendMode::Reliable, now_ms);
    client.disconnect(now_ms);
    client.process_timeouts(now_ms + 100_000);
    assert!(client.pop_frame().is_none());
}

#[test]
fn handshakes_time_out() {
    let mut client = ClientCore::new(ClientConfig::default(), 1);
    let alpha = client.pop_frame().unwrap();
    assert_eq!(alpha.len(), 1472);
    for i in 1..5u64 {
        assert_eq!(client.next_timer_timeout(2000 * (i - 1)), Some(2000));
        client.process_timeouts(2000 * i);
        assert_eq!(client.pop_frame().as_ref(), Some(&alpha));
    }
    client.process_timeouts(10_000);
    assert!(client.has_event());
    assert!(matches!(client.pop_event(), Some(Event::Error(ErrorKind::Timeout))));
    assert!(client.pop_frame().is_none());
}

#[test]
fn connections_are_closed_by_either_side() {
    let (mut client, mut peer) = connected_pair();
    client.disconnect(100);
    client.send(boxed(b"too late"), SendMode::Reliable, 100);
    exchange(&mut client, &mut peer, 110);
    assert!(matches!(client.pop_event(), Some(Event::Disconnect)));
    assert!(matches!(peer.pop_event(), Some(Event::Disconnect)));
    assert!(client.pop_event().is_none() && peer.pop_event().is_none());
    // The peer is kept for a while to confirm again
    assert!(!peer.test(10_110));
    assert!(peer.test(10_111));
    assert!(peer.expects_rto_timer());
    assert_eq!(peer.handle_rto_timer(10_111), TimeoutAction::Terminate);

    let (mut client, mut peer) = connected_pair();
    peer.disconnect(100);
    exchange(&mut client, &mut peer, 110);
    assert!(matches!(client.pop_event(), Some(Event::Disconnect)));
    assert!(matches!(peer.pop_event(), Some(Event::Disconnect)));
}

#[test]
fn a_lost_close_is_sent_again() {
    let (mut client, mut peer) = connected_pair();
    peer.disconnect(100);
    let first = peer.pop_frame().unwrap();
    assert!(peer.test(1101));
    assert_eq!(peer.handle_rto_timer(1101), TimeoutAction::Continue);
    let second = peer.pop_frame().unwrap();
    assert_eq!(first, second);
    client.handle_frame(&second, 1200, 0);
    exchange(&mut client, &mut peer, 1200);
    assert!(matches!(peer.pop_event(), Some(Event::Disconnect)));
}

fn alpha_ack_for<P>(server: &ServerCore<P>, addr: &Address, now_ms: u64) -> (ClientCore, Vec<u8>) {
    let mut client = ClientCore::new(ClientConfig::default(), 99);
    let alpha = client.pop_frame().unwrap();
    match server.handle_frame(&alpha, addr, now_ms) {
        FrameAction::Reply(frame) => (client, frame),
        _ => panic!("expected a reply"),
    }
}

#[test]
fn servers_have_limited_room() {
    let config = ServerConfig {
        peer_count_max: 1,
        ..ServerConfig::default()
    };
    let mut server = ServerCore::new(config, HandshakeMacHasher::default());
    let other = Address::V4([10, 0, 0, 1], 1);
    server.insert_peer(other, 5u32);
    assert_eq!(server.peer_count(), 1);

    let (mut client, alpha_ack) = alpha_ack_for(&server, &ADDR, 0);
    client.handle_frame(&alpha_ack, 0, 0);
    let beta = client.pop_frame().unwrap();
    let beta_ack = match server.handle_frame(&beta, &ADDR, 0) {
        FrameAction::Reply(frame) => frame,
        _ => panic!("expected a refusal"),
    };
    let read = HandshakeBetaAckFrame::read(payload(&beta_ack)).unwrap();
    assert_eq!(read.error, Some(HandshakeErrorKind::Capacity));
    client.handle_frame(&beta_ack, 1, 0);
    assert!(matches!(client.pop_event(), Some(Event::Error(ErrorKind::Capacity))));

    // A known client is always confirmed
    assert_eq!(server.remove_peer(&other), Some(5));
    assert_eq!(server.remove_peer(&other), None);
    server.insert_peer(ADDR, 6u32);
    assert!(server.has_peer(&ADDR) && !server.has_peer(&other));
    match server.handle_frame(&beta, &ADDR, 0) {
        FrameAction::Reply(frame) => {
            let read = HandshakeBetaAckFrame::read(payload(&frame)).unwrap();
            assert_eq!(read.error, None);
        }
        _ => panic!("expected a confirmation"),
    }
}

#[test]
fn parameters_must_match() {
    let server = ServerCore::<()>::new(
        ServerConfig::default(),
        HandshakeMacHasher::default(),
    );
    let (mut client, alpha_ack) = alpha_ack_for(&server, &ADDR, 0);
    client.handle_frame(&alpha_ack, 0, 0);
    let ack = HandshakeAlphaAckFrame::read(payload(&alpha_ack)).unwrap();
    let beta = HandshakeBetaFrame {
        client_params: ConnectionParams {
            packet_size_in_max: 1000,
            packet_size_out_max: u32::MAX,
        },
        client_nonce: ack.client_nonce,
        server_nonce: ack.server_nonce,
        server_timestamp: ack.server_timestamp,
        server_mac: ack.server_mac,
    };
    let beta_ack = match server.handle_frame(&beta.write_boxed(), &ADDR, 0) {
        FrameAction::Reply(frame) => frame,
        _ => panic!("expected a refusal"),
    };
    let read = HandshakeBetaAckFrame::read(payload(&beta_ack)).unwrap();
    assert_eq!(read.error, Some(HandshakeErrorKind::Parameter));
    client.handle_frame(&beta_ack, 1, 0);
    assert!(matches!(client.pop_event(), Some(Event::Error(ErrorKind::Parameter))));

    let small = ConnectionParams {
        packet_size_in_max: 10,
        packet_size_out_max: 20,
    };
    let large = ConnectionParams {
        packet_size_in_max: 20,
        packet_size_out_max: 10,
    };
    assert!(connection_params_compatible(&small, &large));
    assert!(!connection_params_compatible(&small, &small));
}

#[test]
fn handshakes_are_bound_to_address_and_time() {
    let server = ServerCore::<()>::new(
        ServerConfig::default(),
        HandshakeMacHasher::default(),
    );
    let (mut client, alpha_ack) = alpha_ack_for(&server, &ADDR, u32::MAX as u64 - 10);
    client.handle_frame(&alpha_ack, 0, 0);
    let beta = client.pop_frame().unwrap();

    let soon = u32::MAX as u64 + 9_989;
    assert!(matches!(server.handle_frame(&beta, &ADDR, soon), FrameAction::Accept(_, _)));
    assert!(matches!(server.handle_frame(&beta, &ADDR, soon + 1), FrameAction::Ignore));

    let elsewhere = Address::V4([127, 0, 0, 1], 10001);
    assert!(matches!(server.handle_frame(&beta, &elsewhere, soon), FrameAction::Ignore));

    let stranger = ServerCore::<()>::new(
        ServerConfig::default(),
        HandshakeMacHasher::default(),
    );
    assert!(matches!(stranger.handle_frame(&beta, &ADDR, soon), FrameAction::Ignore));

    let mut damaged = beta.clone();
    damaged[10] ^= 1;
    assert!(matches!(server.handle_frame(&damaged, &ADDR, soon), FrameAction::Ignore));
}

#[test]
fn stray_frames_are_ignored() {
    let mut server = ServerCore::new(ServerConfig::default(), HandshakeMacHasher::default());
    let (mut client, mut peer) = connected_pair();
    client.send(boxed(b"x"), SendMode::Reliable, 0);
    let frame = client.pop_frame().unwrap();
    assert!(matches!(server.handle_frame(&frame, &ADDR, 0), FrameAction::Ignore));
    server.insert_peer(ADDR, 3u32);
    match server.handle_frame(&frame, &ADDR, 0) {
        FrameAction::Deliver(handle, kind, bytes) => {
            assert_eq!(*handle, 3);
            peer.handle_frame(kind, bytes, 0, 0);
            assert!(matches!(peer.pop_event(), Some(Event::Receive(_))));
        }
        _ => panic!("expected a delivery"),
    }
    let mut damaged = frame.clone();
    damaged[5] ^= 1;
    assert!(matches!(server.handle_frame(&damaged, &ADDR, 0), FrameAction::Ignore));
    assert!(matches!(server.handle_frame(&[0x0F, 0, 0, 0, 0], &ADDR, 0), FrameAction::Ignore));
    assert!(matches!(server.handle_frame(&[], &ADDR, 0), FrameAction::Ignore));
}

#[test]
fn macs_are_siphashes() {
    let key = [3u8; 16];
    let hasher = HandshakeMacHasher::with_key(key);

    let mut reference = siphasher::sip::SipHasher13::new_with_key(&key);
    reference.write(&[192, 168, 1, 2]);
    reference.write(&4321u16.to_le_bytes());
    reference.write(&1u32.to_le_bytes());
    reference.write(&2u32.to_le_bytes());
    reference.write(&3u32.to_le_bytes());
    let addr = Address::V4([192, 168, 1, 2], 4321);
    assert_eq!(hasher.compute(&addr, 1, 2, 3), reference.finish());

    let mut reference = siphasher::sip::SipHasher13::new_with_key(&key);
    reference.write(&[9; 16]);
    reference.write(&4321u16.to_le_bytes());
    reference.write(&1u32.to_le_bytes());
    reference.write(&2u32.to_le_bytes());
    reference.write(&3u32.to_le_bytes());
    let addr6 = Address::V6([9; 16], 4321, 1, 2);
    assert_eq!(hasher.compute(&addr6, 1, 2, 3), reference.finish());

    let mac = hasher.compute(&addr, 1, 2, 3);
    assert_ne!(mac, hasher.compute(&addr6, 1, 2, 3));
    assert_ne!(mac, hasher.compute(&addr, 2, 1, 3));
    assert_ne!(mac, HandshakeMacHasher::with_key([4; 16]).compute(&addr, 1, 2, 3));
    // Keys are picked at random
    assert_ne!(
        HandshakeMacHasher::default().compute(&addr, 1, 2, 3),
        HandshakeMacHasher::default().compute(&addr, 1, 2, 3)
    );
}

#[test]
fn nonces_are_picked_at_random() {
    let frames: Vec<Vec<u8>> = (0..4)
        .map(|_| ClientCore::connect(ClientConfig::default()).pop_frame().unwrap())
        .collect();
    assert!(frames.iter().any(|frame| frame != &frames[0]));

    let server = ServerCore::<()>::new(
        ServerConfig::default(),
        HandshakeMacHasher::with_key([0; 16]),
    );
    let (_, first) = alpha_ack_for(&server, &ADDR, 0);
    assert!((0..4).any(|_| alpha_ack_for(&server, &ADDR, 0).1 != first));
}

#[test]
fn segment_nonces_are_picked_at_random() {
    let mut nonces = Vec::new();
    for _ in 0..10 {
        let (mut client, _) = connected_pair();
        for _ in 0..10 {
            client.enqueue(boxed(&[0; 1024]), SendMode::Reliable, 0);
        }
        client.flush(0);
        while let Some(frame) = client.pop_frame() {
            let mut reader = PayloadReader::new(payload(&frame));
            nonces.push(reader.read::<StreamSegmentHeader>().unwrap().nonce);
        }
    }
    assert!(nonces.len() >= 50);
    assert!(nonces.contains(&true) && nonces.contains(&false));
}

#[test]
fn frames_carry_the_given_nonce() {
    for nonce in [false, true] {
        let mut ctx = ActionQueue::new();
        let mut endpoint = Endpoint::new(endpoint_config());
        endpoint.init(0, &mut ctx);
        assert!(!endpoint.flush_frame(false, false, nonce, 5, &mut ctx));

        endpoint.enqueue(boxed(b"hello"), SendMode::Reliable, 5);
        assert!(endpoint.flush_frame(false, false, nonce, 5, &mut ctx));
        assert!(!endpoint.flush_frame(false, false, nonce, 5, &mut ctx));

        assert!(matches!(ctx.pop(), Some(Action::Connect)));
        assert!(matches!(ctx.pop(), Some(Action::SetRtoTimer(1005))));
        match ctx.pop() {
            Some(Action::SendFrame(frame)) => {
                assert!(matches!(read_type(&frame), Some(FrameType::StreamSegment)));
                let mut reader = PayloadReader::new(payload(&frame));
                let header = reader.read::<StreamSegmentHeader>().unwrap();
                assert_eq!(header.id, 0);
                assert_eq!(header.nonce, nonce);
            }
            _ => panic!("expected a frame"),
        }
        assert!(ctx.pop().is_none());
    }
}

#[test]
fn configurations_are_checked() {
    assert!(ClientConfig::default().validate());
    assert!(!ClientConfig { handshake_timeout_ms: 1999, ..ClientConfig::default() }.validate());
    assert!(!ClientConfig { connection_timeout_ms: 1999, ..ClientConfig::default() }.validate());
    assert!(ServerConfig::default().validate());
    assert!(!ServerConfig { peer_count_max: 0, ..ServerConfig::default() }.validate());
    assert!(!ServerConfig { peer_count_max: 65537, ..ServerConfig::default() }.validate());
    assert!(ServerConfig { peer_count_max: 65536, ..ServerConfig::default() }.validate());
    assert!(!ServerConfig { connection_timeout_ms: 0, ..ServerConfig::default() }.validate());
    let unbalanced = ChannelBalanceConfig {
        unreliable_weight: 17,
        reliable_weight: 16,
        burst_size: 1,
    };
    assert!(!unbalanced.validate());
    assert!(!ClientConfig { channel_balance: unbalanced, ..ClientConfig::default() }.validate());
    assert_eq!(next_timer_timeout(0), None);
    assert_eq!(next_timer_timeout(3), Some(250));
}

#[test]
fn peer_tables_are_keyed_by_address() {
    let mut table = PeerTable::new();
    assert_eq!(table.len(), 0);
    let a = Address::V4([1, 2, 3, 4], 5);
    let b = Address::V4([1, 2, 3, 4], 6);
    let c = Address::V6([1; 16], 5, 0, 0);
    table.insert(a, 'a');
    table.insert(b, 'b');
    table.insert(c, 'c');
    assert_eq!(table.get(&b), Some(&'b'));
    assert_eq!(table.remove(&a), Some('a'));
    assert_eq!(table.get(&a), None);
    assert_eq!(table.get(&c), Some(&'c'));
    assert_eq!(table.len(), 2);
    assert!(a.is(&a) && !a.is(&b) && !a.is(&c));

    // Scope and flow information tell addresses apart
    let d = Address::V6([1; 16], 5, 0, 1);
    let e = Address::V6([1; 16], 5, 1, 0);
    assert_eq!(table.get(&d), None);
    table.insert(d, 'd');
    table.insert(e, 'e');
    assert_eq!(table.len(), 4);
    assert_eq!(table.remove(&c), Some('c'));
    assert_eq!(table.remove(&c), None);
    assert_eq!(table.get(&d), Some(&'d'));
    assert_eq!(table.remove(&d), Some('d'));
    assert_eq!(table.remove(&e), Some('e'));
    assert_eq!(table.get(&b), Some(&'b'));
    assert_eq!(table.len(), 1);

    for i in 0..1000u16 {
        table.insert(Address::V4([10, 0, 0, (i / 256) as u8], i), 'x');
    }
    assert_eq!(table.len(), 1001);
    for i in 0..1000u16 {
        assert_eq!(table.remove(&Address::V4([10, 0, 0, (i / 256) as u8], i)), Some('x'));
    }
    assert_eq!(table.len(), 1);
}

#[test]
fn endpoints_ask_for_what_they_need() {
    let mut queue = ActionQueue::new();
    let mut endpoint = Endpoint::new(endpoint_config());
    // Nothing is sent before the connection is up
    endpoint.enqueue(boxed(b"early"), SendMode::Reliable, 0);
    endpoint.flush(0, &mut queue);
    assert!(queue.pop().is_none());

    endpoint.init(0, &mut queue);
    assert!(matches!(queue.pop(), Some(Action::Connect)));
    endpoint.enqueue(boxed(b"now"), SendMode::Reliable, 5);
    endpoint.flush(5, &mut queue);
    assert!(matches!(queue.pop(), Some(Action::SetRtoTimer(1005))));
    assert!(matches!(queue.pop(), Some(Action::SendFrame(_))));
    assert!(queue.pop().is_none());
    assert!(endpoint.expects_rto_timer());
}

#[test]
fn accepted_clients_join_once() {
    let mut server = ServerCore::new(ServerConfig::default(), HandshakeMacHasher::default());
    let (mut client, alpha_ack) = alpha_ack_for(&server, &ADDR, 0);
    client.handle_frame(&alpha_ack, 0, 0);
    let beta = client.pop_frame().unwrap();
    let beta_ack = match server.handle_frame(&beta, &ADDR, 0) {
        FrameAction::Accept(_, frame) => frame,
        _ => panic!("expected a new peer"),
    };
    assert_eq!(server.peer_count(), 0);
    server.insert_peer(ADDR, 'x');
    assert!(server.has_peer(&ADDR));
    assert_eq!(server.peer_count(), 1);
    for now_ms in [0, 5, 1000] {
        match server.handle_frame(&beta, &ADDR, now_ms) {
            FrameAction::Reply(frame) => assert_eq!(frame, beta_ack),
            _ => panic!("expected a confirmation"),
        }
        assert_eq!(server.peer_count(), 1);
    }

    // A peer leaves when its timer says so
    server.settle_timeout(&ADDR, TimeoutAction::Continue);
    assert_eq!(server.peer_count(), 1);
    server.settle_timeout(&ADDR, TimeoutAction::Terminate);
    assert!(!server.has_peer(&ADDR));
    assert_eq!(server.peer_count(), 0);
}

#[test]
fn handshakes_can_be_given_up() {
    let server = ServerCore::<()>::new(ServerConfig::default(), HandshakeMacHasher::default());

    // Before the server has answered, and after
    for answered in [false, true] {
        let mut client = ClientCore::connect(ClientConfig::default());
        client.send(boxed(b"never"), SendMode::Reliable, 0);
        client.enqueue(boxed(b"ever"), SendMode::Unreliable(60_000), 0);
        let alpha = client.pop_frame().unwrap();
        let alpha_ack = match server.handle_frame(&alpha, &ADDR, 0) {
            FrameAction::Reply(frame) => frame,
            _ => panic!("expected a reply"),
        };
        let beta_ack = if answered {
            client.handle_frame(&alpha_ack, 1, 0);
            let beta = client.pop_frame().unwrap();
            match server.handle_frame(&beta, &ADDR, 1) {
                FrameAction::Accept(_, frame) => frame,
                _ => panic!("expected a new peer"),
            }
        } else {
            Vec::new()
        };

        client.disconnect(5);
        assert_eq!(client.next_timer_timeout(5), None);
        client.handle_frame(&alpha_ack, 6, 0);
        client.handle_frame(&beta_ack, 7, 0);
        client.flush(8);
        client.send(boxed(b"again"), SendMode::Reliable, 9);
        client.process_timeouts(50_000);
        assert!(client.pop_frame().is_none());
        assert!(client.pop_event().is_none());
    }
}
