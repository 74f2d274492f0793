use std::collections::VecDeque;

use redpine::client::{ClientCore, Config as ClientConfig};
use redpine::endpoint::TimeoutAction;
use redpine::host::Event;
use redpine::server::handshake_mac::{Address, HandshakeMacHasher};
use redpine::server::peer::Peer;
use redpine::server::{Config as ServerConfig, FrameAction, ServerCore};
use redpine::SendMode;

/// How frames fare on the way.
#[derive(Clone, Copy)]
struct Conditions {
    latency_ms: u64,
    jitter_ms: u64,
    loss_percent: u32,
    duplication_percent: u32,
}

const GOOD: Conditions = Conditions {
    latency_ms: 5,
    jitter_ms: 0,
    loss_percent: 0,
    duplication_percent: 0,
};

const BAD: Conditions = Conditions {
    latency_ms: 20,
    jitter_ms: 4,
    loss_percent: 2,
    duplication_percent: 5,
};

struct Letter {
    arrival_ms: u64,
    // Index of the client, and whether the frame goes to the server
    client: usize,
    upward: bool,
    frame: Vec<u8>,
}

struct ServerPeer {
    client: usize,
    peer: Peer,
    events: VecDeque<Event>,
    gone: bool,
}

/// A server and some clients, joined by a network in which time passes only when told to.
struct Network {
    now_ms: u64,
    conditions: Conditions,
    letters: Vec<Letter>,
    server: ServerCore<usize>,
    peers: Vec<ServerPeer>,
    clients: Vec<ClientCore>,
}

fn address(client: usize) -> Address {
    Address::V4([127, 0, 0, 1], 20000 + client as u16)
}

fn chance(percent: u32) -> bool {
    rand::random::<u32>() % 100 < percent
}

impl Network {
    fn new(client_count: usize, conditions: Conditions) -> Self {
        let config = ServerConfig {
            peer_count_max: client_count,
            ..ServerConfig::default()
        };
        Self {
            now_ms: 0,
            conditions,
            letters: Vec::new(),
            server: ServerCore::new(config, HandshakeMacHasher::default()),
            peers: Vec::new(),
            clients: (0..client_count)
                .map(|_| ClientCore::connect(ClientConfig::default()))
                .collect(),
        }
    }

    fn post(&mut self, client: usize, upward: bool, frame: Vec<u8>) {
        if chance(self.conditions.loss_percent) {
            return;
        }
        let copies = if chance(self.conditions.duplication_percent) { 2 } else { 1 };
        for _ in 0..copies {
            let delay = rand::random::<u64>() % (self.conditions.jitter_ms + 1);
            self.letters.push(Letter {
                arrival_ms: self.now_ms + self.conditions.latency_ms + delay,
                client,
                upward,
                frame: frame.clone(),
            });
        }
    }

    fn collect(&mut self) {
        for client in 0..self.clients.len() {
            while let Some(frame) = self.clients[client].pop_frame() {
                self.post(client, true, frame);
            }
        }
        for i in 0..self.peers.len() {
            let client = self.peers[i].client;
            while let Some(frame) = self.peers[i].peer.pop_frame() {
                self.post(client, false, frame);
            }
            while let Some(event) = self.peers[i].peer.pop_event() {
                self.peers[i].events.push_back(event);
            }
        }
    }

    fn deliver_to_server(&mut self, client: usize, frame: &[u8]) {
        let addr = address(client);
        match self.server.handle_frame(frame, &addr, self.now_ms) {
            FrameAction::Ignore => {}
            FrameAction::Reply(reply) => self.post(client, false, reply),
            FrameAction::Deliver(&i, kind, payload) => {
                let peer = &mut self.peers[i].peer;
                let rtt_ms = peer.rtt_sample(kind, payload, self.now_ms);
                peer.handle_frame(kind, payload, self.now_ms, 3 * rtt_ms.unwrap_or(0));
            }
            FrameAction::Accept(peer, reply) => {
                self.server.insert_peer(addr, self.peers.len());
                self.peers.push(ServerPeer {
                    client,
                    peer,
                    events: VecDeque::new(),
                    gone: false,
                });
                self.post(client, false, reply);
            }
        }
    }

    /// Lets a millisecond pass.
    fn step(&mut self) {
        self.collect();
        self.now_ms += 1;
        let now_ms = self.now_ms;

        let (due, rest) = std::mem::take(&mut self.letters)
            .into_iter()
            .partition::<Vec<_>, _>(|letter| letter.arrival_ms <= now_ms);
        self.letters = rest;
        for letter in due {
            if letter.upward {
                self.deliver_to_server(letter.client, &letter.frame);
            } else {
                let client = &mut self.clients[letter.client];
                let rtt_ms = client.rtt_sample(&letter.frame, now_ms);
                client.handle_frame(&letter.frame, now_ms, 3 * rtt_ms.unwrap_or(0));
            }
        }

        for client in self.clients.iter_mut() {
            client.process_timeouts(now_ms);
        }
        for i in 0..self.peers.len() {
            let peer = &mut self.peers[i];
            if peer.peer.test(now_ms) {
                assert!(peer.peer.expects_rto_timer());
                if peer.peer.handle_rto_timer(now_ms) == TimeoutAction::Terminate {
                    peer.gone = true;
                    assert_eq!(self.server.remove_peer(&address(peer.client)), Some(i));
                }
            }
        }
        self.collect();
    }

    /// Lets time pass until a client has an event.
    fn wait_event(&mut self, client: usize, timeout_ms: u64) -> Option<Event> {
        for _ in 0..timeout_ms {
            if self.clients[client].has_event() {
                break;
            }
            self.step();
        }
        self.clients[client].pop_event()
    }

    fn connect_all(&mut self, timeout_ms: u64) {
        for client in 0..self.clients.len() {
            assert!(matches!(self.wait_event(client, timeout_ms), Some(Event::Connect)));
        }
        assert_eq!(self.server.peer_count(), self.clients.len());
        for peer in self.peers.iter_mut() {
            assert!(matches!(peer.events.pop_front(), Some(Event::Connect)));
        }
    }

    fn disconnect_all(&mut self, timeout_ms: u64) {
        for client in 0..self.clients.len() {
            self.clients[client].disconnect(self.now_ms);
        }
        for client in 0..self.clients.len() {
            assert!(matches!(self.wait_event(client, timeout_ms), Some(Event::Disconnect)));
        }
        for peer in self.peers.iter_mut() {
            assert!(matches!(peer.events.pop_front(), Some(Event::Disconnect)));
            assert!(peer.events.is_empty());
        }
    }

    fn wait_silently(&mut self, duration_ms: u64) {
        for _ in 0..duration_ms {
            self.step();
        }
        for client in self.clients.iter() {
            assert!(!client.has_event());
        }
    }
}

const PACKET_DISTRIBUTION: [usize; 10] = [10, 100, 100, 100, 100, 1000, 1000, 1000, 1000, 10000];

fn data_packet(unrel: bool, id: usize, data: &[u8]) -> Box<[u8]> {
    let id: u16 = id.try_into().unwrap();
    let mut bytes = vec![unrel as u8];
    bytes.extend_from_slice(&id.to_le_bytes());
    bytes.extend_from_slice(data);
    bytes.into_boxed_slice()
}

/// What a client has sent on a channel, packet by packet.
type SendLog = Vec<Vec<u8>>;

fn send_random_packet(
    network: &mut Network,
    client: usize,
    distribution: &[usize],
    logs: &mut [SendLog; 2],
) {
    let max_size = distribution[rand::random::<usize>() % distribution.len()];
    let size = rand::random::<usize>() % max_size;
    let data: Vec<u8> = (0..size).map(|_| rand::random::<u8>()).collect();

    let unrel = rand::random::<usize>() % 2 == 1;
    let mode = if unrel { SendMode::Unreliable(500) } else { SendMode::Reliable };
    let log = &mut logs[unrel as usize];

    let packet = data_packet(unrel, log.len(), &data);
    network.clients[client].send(packet, mode, network.now_ms);
    log.push(data);
}

/// Checks what a server has received against what a client has sent. Returns how many packets have
/// been received on each channel.
fn check_received(events: &mut VecDeque<Event>, logs: &[SendLog; 2]) -> [usize; 2] {
    let mut next_ids = [0usize; 2];
    let mut counts = [0usize; 2];
    while let Some(Event::Receive(bytes)) = events.front() {
        let unrel = bytes[0] == 1;
        let id = u16::from_le_bytes([bytes[1], bytes[2]]) as usize;
        let next_id = &mut next_ids[unrel as usize];
        if unrel {
            assert!(id >= *next_id, "unreliable packet received out of order");
        } else {
            assert_eq!(id, *next_id, "reliable packet received out of order");
        }
        *next_id = id + 1;
        assert_eq!(&bytes[3..], &logs[unrel as usize][id][..]);
        counts[unrel as usize] += 1;
        events.pop_front();
    }
    counts
}

fn transfer_trial(
    conditions: Conditions,
    distribution: &[usize],
    packet_count: usize,
    delay_ms: u64,
    connect_timeout_ms: u64,
    post_delay_ms: u64,
) -> ([usize; 2], [usize; 2]) {
    let mut network = Network::new(1, conditions);
    network.connect_all(connect_timeout_ms);
    network.wait_silently(delay_ms);

    let mut logs = [Vec::new(), Vec::new()];
    for _ in 0..packet_count {
        send_random_packet(&mut network, 0, distribution, &mut logs);
        network.wait_silently(1);
    }
    network.wait_silently(post_delay_ms);

    let received = check_received(&mut network.peers[0].events, &logs);

    // The other way round
    let now_ms = network.now_ms;
    network.peers[0].peer.send(data_packet(false, 1, b"done"), SendMode::Reliable, now_ms);
    match network.wait_event(0, 20_000) {
        Some(Event::Receive(bytes)) => assert_eq!(bytes, data_packet(false, 1, b"done")),
        _ => panic!("expected a packet"),
    }
    network.disconnect_all(connect_timeout_ms);
    (received, [logs[0].len(), logs[1].len()])
}

#[test]
fn single_client_connect_disconnect() {
    let mut network = Network::new(1, GOOD);
    network.connect_all(1000);
    network.wait_silently(500);
    network.disconnect_all(1000);
}

#[test]
fn single_client_transfer() {
    let (received, sent) = transfer_trial(GOOD, &PACKET_DISTRIBUTION, 1000, 500, 1000, 500);
    assert_eq!(received, sent);
    assert_eq!(sent[0] + sent[1], 1000);
}

#[test]
fn multi_client_connect_disconnect() {
    let mut network = Network::new(64, GOOD);
    network.connect_all(2000);
    network.wait_silently(2000);
    network.disconnect_all(2000);

    // Peers leave the table some time after they have disconnected
    assert_eq!(network.server.peer_count(), 64);
    for _ in 0..30_000 {
        network.step();
    }
    assert_eq!(network.server.peer_count(), 0);
    assert!(network.peers.iter().all(|peer| peer.gone));
}

// Whatever becomes of frames on the way, packets are not changed, repeated or swapped
#[test]
fn packets_keep_their_order_in_a_bad_network() {
    for _ in 0..5 {
        let (received, sent) = transfer_trial(BAD, &[10, 100], 200, 100, 10_000, 30_000);
        assert!(received[0] > 0 && received[0] <= sent[0]);
        assert!(received[1] > 0 && received[1] <= sent[1]);
    }
}

#[test]
fn a_lost_packet_is_sent_again() {
    let mut network = Network::new(1, GOOD);
    network.connect_all(1000);
    let logs = [vec![b"a".to_vec(), b"b".to_vec()], Vec::new()];
    for (id, data) in logs[0].iter().enumerate() {
        let now_ms = network.now_ms;
        network.clients[0].send(data_packet(false, id, data), SendMode::Reliable, now_ms);
        network.collect();
        // The frame gets lost
        network.letters.clear();
    }
    network.wait_silently(2000);
    assert_eq!(check_received(&mut network.peers[0].events, &logs), [2, 0]);
}

#[test]
fn connections_fail_when_the_network_does() {
    let mut network = Network::new(2, GOOD);
    network.connect_all(1000);
    let now_ms = network.now_ms;
    network.clients[0].send(data_packet(false, 0, b"lost"), SendMode::Reliable, now_ms);
    network.conditions.loss_percent = 100;
    network.letters.clear();
    network.peers[1].peer.send(data_packet(false, 0, b"lost"), SendMode::Reliable, now_ms);
    for _ in 0..60_000 {
        network.step();
    }
    assert!(matches!(
        network.clients[0].pop_event(),
        Some(Event::Error(redpine::ErrorKind::Timeout))
    ));
    assert!(matches!(
        network.peers[1].events.pop_front(),
        Some(Event::Error(redpine::ErrorKind::Timeout))
    ));
    // Nothing was expected of the others
    assert!(!network.clients[1].has_event());
    assert!(network.peers[0].events.is_empty());
    assert_eq!(network.server.peer_count(), 1);
}
