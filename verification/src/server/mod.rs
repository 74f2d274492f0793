//! The server's side of connections.

use vstd::prelude::*;

pub mod handshake_mac;
pub mod peer;
pub mod table;

use crate::endpoint::model::EndpointState;
use crate::endpoint::{
    self, initial_state, ChannelBalanceConfig, StateId, TimeoutAction, FRAME_SIZE_MAX, RTO_MAX_MS,
};
use crate::frame::serial::{
    alpha_frame_size, frame_payload, frame_type, is_intact, lemma_block_sizes, lemma_frame_sizes,
    payload, read_type, simple_frame, verify_crc, verify_handshake_alpha_size_and_crc,
    verify_handshake_beta_size_and_crc, verify_minimum_size, SimpleFrame, SimpleFrameWrite,
    SimplePayloadRead, FRAME_OVERHEAD_SIZE, HANDSHAKE_ALPHA_SIZE, HANDSHAKE_BETA_SIZE, PROTOCOL_ID,
};
use crate::frame::{
    FrameType, HandshakeAlphaAckFrame, HandshakeAlphaFrame, HandshakeBetaAckFrame,
    HandshakeBetaFrame, HandshakeErrorKind,
};
use crate::handshake::{are_compatible, connection_params_compatible, local_params, unlimited};
use crate::host::{EventView, HostState};
use crate::random::random_u32;
use handshake_mac::{mac_message, siphash13, Address, AddressView, HandshakeMacHasher};
use peer::{Peer, PeerState};
use table::PeerTable;

verus! {

pub const PEER_COUNT_MAX_DEFAULT: usize = 8;

pub const PEER_COUNT_MAX_MAX: usize = 65536;

pub const HANDSHAKE_TIMEOUT_MS: u32 = 10_000;

pub const CONNECTION_TIMEOUT_DEFAULT_MS: u64 = 10_000;

pub const CONNECTION_TIMEOUT_MIN_MS: u64 = 2_000;

/// How long to wait before timers are tested again, in milliseconds.
pub const TIMER_TEST_INTERVAL_MS: u64 = 250;

/// Configuration for a server.
#[derive(Clone, Copy)]
pub struct Config {
    /// Maximum number of clients which may be connected at any given time.
    ///
    /// Minimum value: 1 \
    /// Maximum value: 65,536 \
    /// Default value: 8
    pub peer_count_max: usize,
    /// Timeout to use when once a connection has been established, in milliseconds.
    ///
    /// Minimum value: 2,000 \
    /// Default value: 10,000
    pub connection_timeout_ms: u64,
    /// Configuration for unreliable / reliable channel prioritization.
    pub channel_balance: ChannelBalanceConfig,
}

impl Default for Config {
    fn default() -> (config: Self)
        ensures
            config.peer_count_max == PEER_COUNT_MAX_DEFAULT,
            config.connection_timeout_ms == CONNECTION_TIMEOUT_DEFAULT_MS,
            config.channel_balance == (ChannelBalanceConfig {
                unreliable_weight: 1,
                reliable_weight: 1,
                burst_size: 10_000,
            }),
            config.is_valid(),
    {
        Self {
            peer_count_max: PEER_COUNT_MAX_DEFAULT,
            connection_timeout_ms: CONNECTION_TIMEOUT_DEFAULT_MS,
            channel_balance: ChannelBalanceConfig::default(),
        }
    }
}

impl Config {
    pub open spec fn is_valid(self) -> bool {
        &&& 1 <= self.peer_count_max <= PEER_COUNT_MAX_MAX
        &&& CONNECTION_TIMEOUT_MIN_MS <= self.connection_timeout_ms
        &&& self.channel_balance.is_valid()
    }

    /// Whether all parameters are in range.
    pub fn validate(&self) -> (valid: bool)
        ensures
            valid == self.is_valid(),
    {
        self.peer_count_max > 0 && self.peer_count_max <= PEER_COUNT_MAX_MAX
            && self.connection_timeout_ms >= CONNECTION_TIMEOUT_MIN_MS
            && self.channel_balance.validate()
    }

    /// Whether times of silence can be added up without overflow.
    pub open spec fn is_countable(self) -> bool {
        self.connection_timeout_ms <= u64::MAX - RTO_MAX_MS
    }
}

/// What is to be done about a frame. `P` stands for a peer in the table.
pub enum FrameAction<'a, P> {
    /// Nothing.
    Ignore,
    /// To send a frame back.
    Reply(Vec<u8>),
    /// To add a new peer to the table, and to send a frame back.
    Accept(Peer, Vec<u8>),
    /// To hand the payload to a peer.
    Deliver(&'a P, FrameType, &'a [u8]),
}

/// What a [`FrameAction`] stands for.
pub enum FrameActionView<P> {
    Ignore,
    Reply(Seq<u8>),
    Accept(PeerState, Seq<u8>),
    Deliver(P, FrameType, Seq<u8>),
}

impl<'a, P> View for FrameAction<'a, P> {
    type V = FrameActionView<P>;

    open spec fn view(&self) -> FrameActionView<P> {
        match *self {
            FrameAction::Ignore => FrameActionView::Ignore,
            FrameAction::Reply(frame) => FrameActionView::Reply(frame@),
            FrameAction::Accept(peer, frame) => FrameActionView::Accept(peer@, frame@),
            FrameAction::Deliver(peer, kind, payload) => FrameActionView::Deliver(
                *peer,
                kind,
                payload@,
            ),
        }
    }
}

/// The part of a server which does not touch any socket.
pub struct ServerCore<P> {
    // Saved configuration
    config: Config,
    // Computes handshake MACs
    mac_hasher: HandshakeMacHasher,
    // Table of connected peers
    peers: PeerTable<P>,
}

/// What a [`ServerCore`] holds.
pub struct ServerState<P> {
    pub config: Config,
    pub key: Seq<u8>,
    pub peers: Map<AddressView, P>,
}

impl<P> ServerState<P> {
    pub open spec fn wf(self) -> bool {
        &&& self.config.is_valid()
        &&& self.config.is_countable()
        &&& self.peers.dom().finite()
    }

    /// The code for a handshake.
    pub open spec fn mac(
        self,
        sender_addr: AddressView,
        client_nonce: u32,
        server_nonce: u32,
        server_timestamp: u32,
    ) -> u64 {
        siphash13(self.key, mac_message(sender_addr, client_nonce, server_nonce, server_timestamp))
    }

    /// The answer to the first frame of a handshake.
    pub open spec fn alpha_ack(
        self,
        client_nonce: u32,
        sender_addr: AddressView,
        now_ms: u64,
        server_nonce: u32,
    ) -> HandshakeAlphaAckFrame {
        HandshakeAlphaAckFrame {
            server_params: unlimited(),
            client_nonce,
            server_nonce,
            server_timestamp: now_ms as u32,
            server_mac: self.mac(sender_addr, client_nonce, server_nonce, now_ms as u32),
        }
    }

    /// What to do about the first frame of a handshake.
    pub open spec fn on_alpha(
        self,
        frame: Seq<u8>,
        sender_addr: AddressView,
        now_ms: u64,
        server_nonce: u32,
    ) -> FrameActionView<P> {
        if frame.len() == alpha_frame_size(FRAME_SIZE_MAX as int) && is_intact(
            frame.take(HANDSHAKE_ALPHA_SIZE + FRAME_OVERHEAD_SIZE),
        ) {
            match HandshakeAlphaFrame::in_payload(frame_payload(frame)) {
                Some(alpha) => if alpha.protocol_id == PROTOCOL_ID {
                    FrameActionView::Reply(
                        simple_frame(
                            self.alpha_ack(alpha.client_nonce, sender_addr, now_ms, server_nonce),
                        ),
                    )
                } else {
                    FrameActionView::Ignore
                },
                None => FrameActionView::Ignore,
            }
        } else {
            FrameActionView::Ignore
        }
    }

    /// Whether the second frame of a handshake holds what this server has sent to this address, not
    /// too long ago.
    pub open spec fn is_genuine(
        self,
        beta: HandshakeBetaFrame,
        sender_addr: AddressView,
        now_ms: u64,
    ) -> bool {
        &&& beta.server_mac == self.mac(
            sender_addr,
            beta.client_nonce,
            beta.server_nonce,
            beta.server_timestamp,
        )
        &&& (now_ms as u32).wrapping_sub(beta.server_timestamp) < HANDSHAKE_TIMEOUT_MS
    }

    /// Why a client cannot be connected, if it cannot.
    pub open spec fn refusal(self, beta: HandshakeBetaFrame) -> Option<HandshakeErrorKind> {
        if self.peers.dom().len() >= self.config.peer_count_max {
            Some(HandshakeErrorKind::Capacity)
        } else if !are_compatible(beta.client_params, unlimited()) {
            Some(HandshakeErrorKind::Parameter)
        } else {
            None
        }
    }

    /// A peer which has just been connected.
    pub open spec fn new_peer(self) -> PeerState {
        PeerState {
            endpoint: EndpointState {
                state_id: StateId::Active,
                ..initial_state(
                    self.config.connection_timeout_ms,
                    self.config.channel_balance.prio(),
                )
            },
            host: HostState::empty().after_event(EventView::Connect),
        }
    }

    /// What to do about the second frame of a handshake.
    pub open spec fn on_beta(
        self,
        frame: Seq<u8>,
        sender_addr: AddressView,
        now_ms: u64,
    ) -> FrameActionView<P> {
        if frame.len() == HANDSHAKE_BETA_SIZE + FRAME_OVERHEAD_SIZE && is_intact(frame) {
            match HandshakeBetaFrame::in_payload(frame_payload(frame)) {
                Some(beta) => if self.is_genuine(beta, sender_addr, now_ms) {
                    let is_known = self.peers.contains_key(sender_addr);
                    let error = if is_known {
                        None
                    } else {
                        self.refusal(beta)
                    };
                    let ack = simple_frame(
                        HandshakeBetaAckFrame { client_nonce: beta.client_nonce, error },
                    );
                    if is_known || error is Some {
                        FrameActionView::Reply(ack)
                    } else {
                        FrameActionView::Accept(self.new_peer(), ack)
                    }
                } else {
                    FrameActionView::Ignore
                },
                None => FrameActionView::Ignore,
            }
        } else {
            FrameActionView::Ignore
        }
    }

    /// What to do about any other frame.
    pub open spec fn on_other(
        self,
        kind: FrameType,
        frame: Seq<u8>,
        sender_addr: AddressView,
    ) -> FrameActionView<P> {
        if self.peers.contains_key(sender_addr) && is_intact(frame) {
            FrameActionView::Deliver(self.peers[sender_addr], kind, frame_payload(frame))
        } else {
            FrameActionView::Ignore
        }
    }

    /// What to do about a frame.
    pub open spec fn on_frame(
        self,
        frame: Seq<u8>,
        sender_addr: AddressView,
        now_ms: u64,
        server_nonce: u32,
    ) -> FrameActionView<P> {
        if frame.len() < FRAME_OVERHEAD_SIZE {
            FrameActionView::Ignore
        } else {
            match frame_type(frame) {
                Some(FrameType::HandshakeAlpha) => self.on_alpha(
                    frame,
                    sender_addr,
                    now_ms,
                    server_nonce,
                ),
                Some(FrameType::HandshakeBeta) => self.on_beta(frame, sender_addr, now_ms),
                Some(kind) => self.on_other(kind, frame, sender_addr),
                None => FrameActionView::Ignore,
            }
        }
    }
}

impl<P> View for ServerCore<P> {
    type V = ServerState<P>;

    closed spec fn view(&self) -> ServerState<P> {
        ServerState { config: self.config, key: self.mac_hasher.key(), peers: self.peers@ }
    }
}

impl<P> ServerCore<P> {
    pub closed spec fn inv(&self) -> bool {
        self.peers.wf()
    }

    pub open spec fn wf(&self) -> bool {
        self.inv() && self@.wf()
    }

    pub fn new(config: Config, mac_hasher: HandshakeMacHasher) -> (core: Self)
        requires
            config.is_valid(),
            config.is_countable(),
        ensures
            core.wf(),
            core@ == (ServerState { config, key: mac_hasher.key(), peers: Map::<AddressView, P>::empty() }),
    {
        Self { config, mac_hasher, peers: PeerTable::new() }
    }

    /// Answers the first frame of a handshake, with a nonce which has been picked already.
    pub fn reply_to_alpha<'a>(
        &'a self,
        frame_bytes: &'a [u8],
        sender_addr: &Address,
        now_ms: u64,
        server_nonce: u32,
    ) -> (action: FrameAction<'a, P>)
        requires
            self.wf(),
        ensures
            action@ == self@.on_alpha(frame_bytes@, sender_addr@, now_ms, server_nonce),
    {
        proof {
            lemma_block_sizes();
            lemma_frame_sizes();
        }
        if !verify_handshake_alpha_size_and_crc(frame_bytes, FRAME_SIZE_MAX) {
            return FrameAction::Ignore;
        }
        let payload_bytes = payload(frame_bytes);

        if let Some(frame) = HandshakeAlphaFrame::read(payload_bytes) {
            if frame.protocol_id == PROTOCOL_ID {
                let client_nonce: u32 = frame.client_nonce;
                let server_timestamp: u32 = now_ms as u32;

                let ack_frame = HandshakeAlphaAckFrame {
                    server_params: local_params(),
                    client_nonce,
                    server_nonce,
                    server_timestamp,
                    server_mac: self.mac_hasher.compute(
                        sender_addr,
                        client_nonce,
                        server_nonce,
                        server_timestamp,
                    ),
                };
                let mut buffer: Vec<u8> = vec![0; HandshakeAlphaAckFrame::FRAME_SIZE];
                let ack_frame_bytes = ack_frame.write(buffer.as_mut_slice());

                return FrameAction::Reply(vstd::slice::slice_to_vec(ack_frame_bytes));
            }
        }
        FrameAction::Ignore
    }

    /// Answers the first frame of a handshake.
    pub fn handle_handshake_alpha<'a>(
        &'a self,
        frame_bytes: &'a [u8],
        sender_addr: &Address,
        now_ms: u64,
    ) -> (action: FrameAction<'a, P>)
        requires
            self.wf(),
        ensures
            exists|server_nonce: u32|
                action@ == #[trigger] self@.on_alpha(
                    frame_bytes@,
                    sender_addr@,
                    now_ms,
                    server_nonce,
                ),
    {
        let server_nonce: u32 = random_u32();
        self.reply_to_alpha(frame_bytes, sender_addr, now_ms, server_nonce)
    }

    /// Answers the second frame of a handshake.
    pub fn handle_handshake_beta<'a>(
        &'a self,
        frame_bytes: &'a [u8],
        sender_addr: &Address,
        now_ms: u64,
    ) -> (action: FrameAction<'a, P>)
        requires
            self.wf(),
        ensures
            action@ == self@.on_beta(frame_bytes@, sender_addr@, now_ms),
            action matches FrameAction::Accept(peer, _) ==> peer.wf(),
    {
        proof {
            lemma_block_sizes();
            lemma_frame_sizes();
        }
        if !verify_handshake_beta_size_and_crc(frame_bytes) {
            return FrameAction::Ignore;
        }
        let payload_bytes = payload(frame_bytes);

        if let Some(frame) = HandshakeBetaFrame::read(payload_bytes) {
            let timestamp_now: u32 = now_ms as u32;

            let computed_mac: u64 = self.mac_hasher.compute(
                sender_addr,
                frame.client_nonce,
                frame.server_nonce,
                frame.server_timestamp,
            );
            let mac_valid: bool = frame.server_mac == computed_mac;
            let timestamp_valid: bool = timestamp_now.wrapping_sub(frame.server_timestamp)
                < HANDSHAKE_TIMEOUT_MS;

            if mac_valid && timestamp_valid {
                let server_params = local_params();
                let params_compatible: bool = connection_params_compatible(
                    &frame.client_params,
                    &server_params,
                );

                let is_known: bool = self.peers.get(sender_addr).is_some();
                let error = if is_known {
                    None
                } else if self.peers.len() >= self.config.peer_count_max {
                    Some(HandshakeErrorKind::Capacity)
                } else if !params_compatible {
                    Some(HandshakeErrorKind::Parameter)
                } else {
                    None
                };

                // Always send an ack in case a previous ack was dropped
                let ack_frame = HandshakeBetaAckFrame { client_nonce: frame.client_nonce, error };
                let mut buffer: Vec<u8> = vec![0; HandshakeBetaAckFrame::FRAME_SIZE];
                let ack_frame_bytes = vstd::slice::slice_to_vec(
                    ack_frame.write(buffer.as_mut_slice()),
                );

                if is_known || error.is_some() {
                    return FrameAction::Reply(ack_frame_bytes);
                }
                let endpoint_config = endpoint::Config {
                    timeout_time_ms: self.config.connection_timeout_ms,
                    prio_config: self.config.channel_balance.prio_config(),
                };
                let mut peer = Peer::new(endpoint_config);
                peer.init(now_ms);
                return FrameAction::Accept(peer, ack_frame_bytes);
            }
        }
        FrameAction::Ignore
    }

    /// If a peer is associated with the address of the sender, delivers the frame to it.
    pub fn handle_frame_other<'a>(
        &'a self,
        frame_type: FrameType,
        frame_bytes: &'a [u8],
        sender_addr: &Address,
    ) -> (action: FrameAction<'a, P>)
        requires
            self.wf(),
            frame_bytes@.len() >= FRAME_OVERHEAD_SIZE,
        ensures
            action@ == self@.on_other(frame_type, frame_bytes@, sender_addr@),
    {
        if let Some(peer) = self.peers.get(sender_addr) {
            if !verify_crc(frame_bytes) {
                return FrameAction::Ignore;
            }
            return FrameAction::Deliver(peer, frame_type, payload(frame_bytes));
        }
        FrameAction::Ignore
    }

    /// Decides what to do about a frame.
    ///
    /// Initial handshakes are handled without an entry in the peer table. Once a valid open request
    /// is received, the sender's address is assumed valid (i.e. blockable) and an entry in the peer
    /// table is due. Other frame types are handled by the associated peer.
    pub fn handle_frame<'a>(
        &'a self,
        frame_bytes: &'a [u8],
        sender_addr: &Address,
        now_ms: u64,
    ) -> (action: FrameAction<'a, P>)
        requires
            self.wf(),
        ensures
            exists|server_nonce: u32|
                action@ == #[trigger] self@.on_frame(
                    frame_bytes@,
                    sender_addr@,
                    now_ms,
                    server_nonce,
                ),
            action matches FrameAction::Accept(peer, _) ==> peer.wf(),
    {
        if !verify_minimum_size(frame_bytes) {
            assert(self@.on_frame(frame_bytes@, sender_addr@, now_ms, 0) is Ignore);
            return FrameAction::Ignore;
        }
        match read_type(frame_bytes) {
            Some(FrameType::HandshakeAlpha) => {
                let action = self.handle_handshake_alpha(frame_bytes, sender_addr, now_ms);
                proof {
                    let nonce = choose|nonce: u32|
                        action@ == #[trigger] self@.on_alpha(
                            frame_bytes@,
                            sender_addr@,
                            now_ms,
                            nonce,
                        );
                    assert(action@ == self@.on_frame(frame_bytes@, sender_addr@, now_ms, nonce));
                }
                action
            },
            Some(FrameType::HandshakeBeta) => {
                let action = self.handle_handshake_beta(frame_bytes, sender_addr, now_ms);
                assert(action@ == self@.on_frame(frame_bytes@, sender_addr@, now_ms, 0));
                action
            },
            Some(frame_type) => {
                let action = self.handle_frame_other(frame_type, frame_bytes, sender_addr);
                assert(action@ == self@.on_frame(frame_bytes@, sender_addr@, now_ms, 0));
                action
            },
            None => {
                assert(self@.on_frame(frame_bytes@, sender_addr@, now_ms, 0) is Ignore);
                FrameAction::Ignore
            },
        }
    }

    /// Adds a new peer to the table.
    pub fn insert_peer(&mut self, addr: Address, peer: P)
        requires
            old(self).wf(),
            !old(self)@.peers.contains_key(addr@),
            old(self)@.peers.dom().len() < usize::MAX,
        ensures
            final(self).wf(),
            final(self)@ == (ServerState {
                peers: old(self)@.peers.insert(addr@, peer),
                ..old(self)@
            }),
    {
        self.peers.insert(addr, peer);
    }

    /// Removes a peer from the table.
    pub fn remove_peer(&mut self, addr: &Address) -> (peer: Option<P>)
        requires
            old(self).wf(),
        ensures
            final(self).wf(),
            final(self)@ == (ServerState {
                peers: old(self)@.peers.remove(addr@),
                ..old(self)@
            }),
            match peer {
                Some(peer) => old(self)@.peers.contains_key(addr@) && old(self)@.peers[addr@]
                    == peer,
                None => !old(self)@.peers.contains_key(addr@),
            },
    {
        self.peers.remove(addr)
    }

    /// Goes on after a peer's timer has expired: a peer which is done leaves the table.
    pub fn settle_timeout(&mut self, addr: &Address, action: TimeoutAction)
        requires
            old(self).wf(),
        ensures
            final(self).wf(),
            final(self)@ == (match action {
                TimeoutAction::Continue => old(self)@,
                TimeoutAction::Terminate => ServerState {
                    peers: old(self)@.peers.remove(addr@),
                    ..old(self)@
                },
            }),
    {
        match action {
            TimeoutAction::Continue => {},
            TimeoutAction::Terminate => {
                let _ = self.remove_peer(addr);
            },
        }
    }

    /// Whether there is a peer at an address.
    pub fn has_peer(&self, addr: &Address) -> (known: bool)
        requires
            self.wf(),
        ensures
            known == self@.peers.contains_key(addr@),
    {
        self.peers.get(addr).is_some()
    }

    /// Returns the number of peers in the peer table.
    ///
    /// *Note*: Peers may exist in the peer table for some time after they have disconnected.
    pub fn peer_count(&self) -> (count: usize)
        requires
            self.wf(),
        ensures
            count == self@.peers.dom().len(),
    {
        self.peers.len()
    }
}

/// The time after which timers are to be tested again, in milliseconds, if there are any.
pub fn next_timer_timeout(timer_count: usize) -> (timeout_ms: Option<u64>)
    ensures
        timeout_ms == if timer_count > 0 {
            Some(TIMER_TEST_INTERVAL_MS)
        } else {
            None
        },
{
    if timer_count > 0 {
        Some(TIMER_TEST_INTERVAL_MS)
    } else {
        None
    }
}

} // verus!
