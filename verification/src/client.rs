//! The client's side of a connection.

use std::collections::VecDeque;

use vstd::prelude::*;

use crate::connection::{self, awaits_timer, is_reaction};
use crate::endpoint::model::EndpointState;
use crate::endpoint::{
    self, initial_state, is_time, ChannelBalanceConfig, Endpoint, StateId, TimeoutAction,
    FRAME_SIZE_MAX, RTO_MAX_MS,
};
use crate::frame::serial::{
    alpha_frame_size, frame_payload, frame_type, is_intact, lemma_frame_sizes, payload, read_type,
    simple_frame, verify_crc, verify_minimum_size, write_handshake_alpha, zeros, SimpleFrameWrite,
    SimplePayloadRead, FRAME_OVERHEAD_SIZE, HANDSHAKE_ALPHA_SIZE, PROTOCOL_ID,
};
use crate::frame::{
    FrameType, HandshakeAlphaAckFrame, HandshakeAlphaFrame, HandshakeBetaAckFrame,
    HandshakeBetaFrame, HandshakeErrorKind,
};
use crate::handshake::{are_compatible, connection_params_compatible, local_params, unlimited};
use crate::host::{Event, EventView, Host, HostState};
use crate::random::random_u32;
use crate::{ErrorKind, SendMode};

verus! {

pub const HANDSHAKE_TIMEOUT_DEFAULT_MS: u64 = 10_000;

pub const HANDSHAKE_TIMEOUT_MIN_MS: u64 = 2_000;

pub const HANDSHAKE_RESEND_TIMEOUT_MS: u64 = 2_000;

pub const CONNECTION_TIMEOUT_DEFAULT_MS: u64 = 10_000;

pub const CONNECTION_TIMEOUT_MIN_MS: u64 = 2_000;

/// Configuration for a client.
#[derive(Clone, Copy)]
pub struct Config {
    /// Timeout to use when initiating a connection, in milliseconds.
    ///
    /// Minimum value: 2,000 \
    /// Default value: 10,000
    pub handshake_timeout_ms: u64,
    /// Timeout to use when once a connection has been established, in milliseconds.
    ///
    /// Minimum value: 2,000 \
    /// Default value: 10,000
    pub connection_timeout_ms: u64,
    /// Configuration for unreliable / reliable channel prioritization.
    pub channel_balance: ChannelBalanceConfig,
}

impl Default for Config {
    fn default() -> (config: Self)
        ensures
            config.handshake_timeout_ms == HANDSHAKE_TIMEOUT_DEFAULT_MS,
            config.connection_timeout_ms == CONNECTION_TIMEOUT_DEFAULT_MS,
            config.channel_balance == (ChannelBalanceConfig {
                unreliable_weight: 1,
                reliable_weight: 1,
                burst_size: 10_000,
            }),
            config.is_valid(),
    {
        Self {
            handshake_timeout_ms: HANDSHAKE_TIMEOUT_DEFAULT_MS,
            connection_timeout_ms: CONNECTION_TIMEOUT_DEFAULT_MS,
            channel_balance: ChannelBalanceConfig::default(),
        }
    }
}

impl Config {
    pub open spec fn is_valid(self) -> bool {
        &&& HANDSHAKE_TIMEOUT_MIN_MS <= self.handshake_timeout_ms
        &&& CONNECTION_TIMEOUT_MIN_MS <= self.connection_timeout_ms
        &&& self.channel_balance.is_valid()
    }

    /// Whether all parameters are in range.
    pub fn validate(&self) -> (valid: bool)
        ensures
            valid == self.is_valid(),
    {
        self.handshake_timeout_ms >= HANDSHAKE_TIMEOUT_MIN_MS && self.connection_timeout_ms
            >= CONNECTION_TIMEOUT_MIN_MS && self.channel_balance.validate()
    }

    /// Whether times of silence can be added up without overflow.
    pub open spec fn is_countable(self) -> bool {
        self.connection_timeout_ms <= u64::MAX - RTO_MAX_MS
    }
}

/// How far the handshake has come.
#[derive(Debug, Clone, Copy, PartialEq, Eq, Structural)]
pub enum HandshakePhase {
    /// The client has asked to connect.
    Alpha,
    /// The client has shown that it receives what is sent to its address.
    Beta,
}

struct HandshakeState {
    phase: HandshakePhase,
    timeout_time_ms: u64,
    timeout_ms: u64,
    packet_buffer: VecDeque<(Box<[u8]>, SendMode)>,
    frame: Box<[u8]>,
    local_nonce: u32,
}

enum State {
    Handshake(HandshakeState),
    Active(Endpoint),
    Quiescent,
}

/// The part of a client which does not touch any socket.
pub struct ClientCore {
    // Saved configuration
    config: Config,
    // Current mode of operation
    state: State,
    // Pending RTO timer event, frames to be sent, and queue of events
    host: Host,
}

/// What a client holds while it is not yet connected.
pub struct HandshakeView {
    pub phase: HandshakePhase,
    /// When to give up.
    pub timeout_time_ms: u64,
    /// How long to wait for an answer to each frame.
    pub timeout_ms: u64,
    /// Packets to be sent once connected.
    pub packets: Seq<(Seq<u8>, SendMode)>,
    /// The frame which is sent until it is answered.
    pub frame: Seq<u8>,
    pub local_nonce: u32,
}

pub enum ConnectionView {
    /// Not yet connected.
    Handshake(HandshakeView),
    /// Connected.
    Active(EndpointState),
    /// No longer connected.
    Quiescent,
}

/// What a [`ClientCore`] holds.
pub struct ClientState {
    pub config: Config,
    pub connection: ConnectionView,
    pub host: HostState,
}

/// What some packets stand for.
pub open spec fn packet_views(packets: Seq<(Box<[u8]>, SendMode)>) -> Seq<(Seq<u8>, SendMode)> {
    packets.map_values(|packet: (Box<[u8]>, SendMode)| (packet.0@, packet.1))
}

impl HandshakeState {
    spec fn view(&self) -> HandshakeView {
        HandshakeView {
            phase: self.phase,
            timeout_time_ms: self.timeout_time_ms,
            timeout_ms: self.timeout_ms,
            packets: packet_views(self.packet_buffer@),
            frame: self.frame@,
            local_nonce: self.local_nonce,
        }
    }
}

impl View for ClientCore {
    type V = ClientState;

    closed spec fn view(&self) -> ClientState {
        ClientState {
            config: self.config,
            connection: match self.state {
                State::Handshake(state) => ConnectionView::Handshake(state.view()),
                State::Active(endpoint) => ConnectionView::Active(endpoint@),
                State::Quiescent => ConnectionView::Quiescent,
            },
            host: self.host@,
        }
    }
}

/// The first frame of a handshake.
pub open spec fn alpha_frame(local_nonce: u32) -> Seq<u8> {
    simple_frame(
        HandshakeAlphaFrame { protocol_id: PROTOCOL_ID, client_nonce: local_nonce },
    ) + zeros(
        alpha_frame_size(FRAME_SIZE_MAX as int) - HANDSHAKE_ALPHA_SIZE - FRAME_OVERHEAD_SIZE,
    )
}

/// The second frame of a handshake, in answer to the server.
pub open spec fn beta_frame(ack: HandshakeAlphaAckFrame) -> Seq<u8> {
    simple_frame(
        HandshakeBetaFrame {
            client_params: unlimited(),
            client_nonce: ack.client_nonce,
            server_nonce: ack.server_nonce,
            server_timestamp: ack.server_timestamp,
            server_mac: ack.server_mac,
        },
    )
}

/// The state of an endpoint once some packets have been enqueued, in order.
pub open spec fn after_enqueues(
    endpoint: EndpointState,
    packets: Seq<(Seq<u8>, SendMode)>,
    now_ms: u64,
) -> EndpointState
    decreases packets.len(),
{
    if packets.len() == 0 {
        endpoint
    } else {
        after_enqueues(endpoint, packets.drop_last(), now_ms).after_enqueue(
            packets.last().0,
            packets.last().1,
            now_ms,
        )
    }
}

/// The error which is reported when a server turns the client down.
pub open spec fn refusal_error(kind: HandshakeErrorKind) -> ErrorKind {
    match kind {
        HandshakeErrorKind::Capacity => ErrorKind::Capacity,
        HandshakeErrorKind::Parameter => ErrorKind::Parameter,
    }
}

/// The state of a client which has just asked to connect.
pub open spec fn connecting(config: Config, local_nonce: u32) -> ClientState {
    ClientState {
        config,
        connection: ConnectionView::Handshake(
            HandshakeView {
                phase: HandshakePhase::Alpha,
                timeout_time_ms: config.handshake_timeout_ms,
                timeout_ms: config.handshake_timeout_ms,
                packets: Seq::empty(),
                frame: alpha_frame(local_nonce),
                local_nonce,
            },
        ),
        host: HostState {
            rto_timer: Some(HANDSHAKE_RESEND_TIMEOUT_MS),
            outbox: seq![alpha_frame(local_nonce)],
            events: Seq::empty(),
        },
    }
}

impl ClientState {
    pub open spec fn wf(self) -> bool {
        &&& self.config.is_valid()
        &&& self.config.is_countable()
        &&& match self.connection {
            ConnectionView::Handshake(state) => state.timeout_ms
                == self.config.handshake_timeout_ms,
            ConnectionView::Active(endpoint) => awaits_timer(endpoint, self.host.rto_timer),
            ConnectionView::Quiescent => true,
        }
    }

    /// Whether sums of this time and any timeout are valid times.
    pub open spec fn is_time(self, now_ms: u64) -> bool {
        is_time(now_ms) && now_ms + self.config.handshake_timeout_ms <= u64::MAX
    }

    /// The state once a packet has been kept for later, or enqueued.
    pub open spec fn after_enqueue(self, packet: Seq<u8>, mode: SendMode, now_ms: u64) -> ClientState {
        ClientState {
            connection: match self.connection {
                ConnectionView::Handshake(state) => ConnectionView::Handshake(
                    HandshakeView { packets: state.packets.push((packet, mode)), ..state },
                ),
                ConnectionView::Active(endpoint) => ConnectionView::Active(
                    endpoint.after_enqueue(packet, mode, now_ms),
                ),
                ConnectionView::Quiescent => ConnectionView::Quiescent,
            },
            ..self
        }
    }

    /// Whether all that can be sent has been on the way to another state.
    pub open spec fn flushes_to(self, now_ms: u64, after: ClientState) -> bool {
        match self.connection {
            ConnectionView::Active(endpoint) => {
                &&& after.config == self.config
                &&& after.connection matches ConnectionView::Active(endpoint_after)
                &&& is_reaction(endpoint.on_flush(), now_ms, self.host, endpoint_after, after.host)
            },
            _ => after == self,
        }
    }

    /// The state once the client has asked to disconnect. A handshake is given up, together with all
    /// packets which wait for it.
    pub open spec fn after_disconnect(self, now_ms: u64) -> ClientState {
        match self.connection {
            ConnectionView::Handshake(_) => ClientState {
                connection: ConnectionView::Quiescent,
                ..self.with_timer(None)
            },
            ConnectionView::Active(endpoint) => {
                let outcome = endpoint.on_disconnect(now_ms).outcome;
                ClientState {
                    connection: ConnectionView::Active(outcome.state),
                    host: self.host.after_actions(outcome.actions),
                    ..self
                }
            },
            _ => self,
        }
    }

    /// The same state with another time set for the timer.
    pub open spec fn with_timer(self, time_ms: Option<u64>) -> ClientState {
        ClientState { host: HostState { rto_timer: time_ms, ..self.host }, ..self }
    }

    /// The state once the connection has failed.
    pub open spec fn after_failure(self, kind: ErrorKind) -> ClientState {
        ClientState {
            connection: ConnectionView::Quiescent,
            host: self.host.after_event(EventView::Error(kind)),
            ..self
        }
    }

    /// Whether the timer, which has fired, leads to another state.
    pub open spec fn times_out_to(self, now_ms: u64, after: ClientState) -> bool {
        match self.connection {
            ConnectionView::Handshake(state) => if now_ms >= state.timeout_time_ms {
                after == self.after_failure(ErrorKind::Timeout)
            } else {
                let waiting = self.with_timer(Some((now_ms + HANDSHAKE_RESEND_TIMEOUT_MS) as u64));
                after == ClientState { host: waiting.host.after_frame(state.frame), ..waiting }
            },
            ConnectionView::Active(endpoint) => if endpoint.ends_on_timer() {
                after == ClientState {
                    connection: ConnectionView::Quiescent,
                    host: self.host.after_actions(endpoint.on_timer(now_ms).outcome.actions),
                    ..self
                }
            } else {
                &&& after.config == self.config
                &&& after.connection matches ConnectionView::Active(endpoint_after)
                &&& is_reaction(
                    endpoint.on_timer(now_ms),
                    now_ms,
                    self.host,
                    endpoint_after,
                    after.host,
                )
            },
            ConnectionView::Quiescent => after == self,
        }
    }

    /// Whether the passing of time leads to another state.
    pub open spec fn passes_to(self, now_ms: u64, after: ClientState) -> bool {
        if self.host.timer_is_due(now_ms) {
            self.with_timer(None).times_out_to(now_ms, after)
        } else {
            after == self
        }
    }

    /// The state once the server has answered the first frame of the handshake.
    pub open spec fn after_alpha_ack(self, payload: Seq<u8>, now_ms: u64) -> ClientState {
        match (self.connection, HandshakeAlphaAckFrame::in_payload(payload)) {
            (ConnectionView::Handshake(state), Some(ack)) => if state.phase is Alpha
                && ack.client_nonce == state.local_nonce && are_compatible(
                unlimited(),
                ack.server_params,
            ) {
                let waiting = self.with_timer(Some((now_ms + HANDSHAKE_RESEND_TIMEOUT_MS) as u64));
                ClientState {
                    connection: ConnectionView::Handshake(
                        HandshakeView {
                            phase: HandshakePhase::Beta,
                            timeout_time_ms: (now_ms + state.timeout_ms) as u64,
                            frame: beta_frame(ack),
                            ..state
                        },
                    ),
                    host: waiting.host.after_frame(beta_frame(ack)),
                    ..self
                }
            } else {
                self
            },
            _ => self,
        }
    }

    /// The endpoint of a client which has just been connected, before anything has been sent.
    pub open spec fn connected(self, packets: Seq<(Seq<u8>, SendMode)>, now_ms: u64) -> EndpointState {
        after_enqueues(
            EndpointState {
                state_id: StateId::Active,
                ..initial_state(
                    self.config.connection_timeout_ms,
                    self.config.channel_balance.prio(),
                )
            },
            packets,
            now_ms,
        )
    }

    /// Whether the answer to the second frame of the handshake leads to another state.
    pub open spec fn beta_ack_leads_to(
        self,
        payload: Seq<u8>,
        now_ms: u64,
        after: ClientState,
    ) -> bool {
        match (self.connection, HandshakeBetaAckFrame::in_payload(payload)) {
            (ConnectionView::Handshake(state), Some(ack)) => if state.phase is Beta
                && ack.client_nonce == state.local_nonce {
                match ack.error {
                    None => {
                        &&& after.config == self.config
                        &&& after.connection matches ConnectionView::Active(endpoint_after)
                        &&& is_reaction(
                            self.connected(state.packets, now_ms).on_flush(),
                            now_ms,
                            self.with_timer(None).host.after_event(EventView::Connect),
                            endpoint_after,
                            after.host,
                        )
                    },
                    Some(kind) => after == self.after_failure(refusal_error(kind)),
                }
            } else {
                after == self
            },
            _ => after == self,
        }
    }

    /// Whether a frame of the connection leads to another state.
    pub open spec fn other_leads_to(
        self,
        kind: FrameType,
        payload: Seq<u8>,
        now_ms: u64,
        rto_estimate_ms: u64,
        after: ClientState,
    ) -> bool {
        match self.connection {
            ConnectionView::Active(endpoint) => {
                &&& after.config == self.config
                &&& after.connection matches ConnectionView::Active(endpoint_after)
                &&& is_reaction(
                    endpoint.on_frame(kind, payload, now_ms, rto_estimate_ms),
                    now_ms,
                    self.host,
                    endpoint_after,
                    after.host,
                )
            },
            _ => after == self,
        }
    }

    /// Whether the clock has not gone back since the segment was sent of which the round trip time is
    /// being measured.
    pub open spec fn can_sample_rtt(self, now_ms: u64) -> bool {
        self.connection matches ConnectionView::Active(endpoint) ==> endpoint.can_sample_rtt(now_ms)
    }

    /// The round trip time which a frame reveals, if it does.
    pub open spec fn rtt_sample(self, frame: Seq<u8>, now_ms: u64) -> Option<u64> {
        match (self.connection, frame_type(frame)) {
            (ConnectionView::Active(endpoint), Some(kind)) => if frame.len() >= FRAME_OVERHEAD_SIZE
                && is_intact(frame) {
                endpoint.rtt_sample(kind, frame_payload(frame), now_ms)
            } else {
                None
            },
            _ => None,
        }
    }

    /// Whether a frame leads to another state.
    pub open spec fn frame_leads_to(
        self,
        frame: Seq<u8>,
        now_ms: u64,
        rto_estimate_ms: u64,
        after: ClientState,
    ) -> bool {
        if frame.len() < FRAME_OVERHEAD_SIZE || !is_intact(frame) {
            after == self
        } else {
            match frame_type(frame) {
                Some(FrameType::HandshakeAlphaAck) => after == self.after_alpha_ack(
                    frame_payload(frame),
                    now_ms,
                ),
                Some(FrameType::HandshakeBetaAck) => self.beta_ack_leads_to(
                    frame_payload(frame),
                    now_ms,
                    after,
                ),
                Some(kind) => self.other_leads_to(
                    kind,
                    frame_payload(frame),
                    now_ms,
                    rto_estimate_ms,
                    after,
                ),
                None => after == self,
            }
        }
    }
}

impl ClientCore {
    pub closed spec fn inv(&self) -> bool {
        self.state matches State::Active(endpoint) ==> endpoint.wf()
    }

    pub open spec fn wf(&self) -> bool {
        self.inv() && self@.wf()
    }

    /// A client which has just asked to connect, with a nonce which has been picked already.
    pub fn new(config: Config, local_nonce: u32) -> (core: Self)
        requires
            config.is_valid(),
            config.is_countable(),
        ensures
            core.wf(),
            core@ == connecting(config, local_nonce),
    {
        let handshake_frame = HandshakeAlphaFrame {
            protocol_id: PROTOCOL_ID,
            client_nonce: local_nonce,
        };
        let frame = write_handshake_alpha(&handshake_frame, FRAME_SIZE_MAX);

        let mut host = Host::new();
        host.push_frame(vstd::slice::slice_to_vec(&frame));
        host.set_rto_timer(Some(HANDSHAKE_RESEND_TIMEOUT_MS));
        assert(host@ =~= connecting(config, local_nonce).host);

        let state = HandshakeState {
            phase: HandshakePhase::Alpha,
            timeout_time_ms: config.handshake_timeout_ms,
            timeout_ms: config.handshake_timeout_ms,
            packet_buffer: VecDeque::new(),
            frame,
            local_nonce,
        };
        assert(state.view().packets =~= Seq::empty());
        Self { config, state: State::Handshake(state), host }
    }

    /// A client which has just asked to connect.
    pub fn connect(config: Config) -> (core: Self)
        requires
            config.is_valid(),
            config.is_countable(),
        ensures
            core.wf(),
            exists|local_nonce: u32| core@ == #[trigger] connecting(config, local_nonce),
    {
        let local_nonce: u32 = random_u32();
        Self::new(config, local_nonce)
    }

    /// Returns the time remaining until the timer expires, in milliseconds, if it is set.
    pub fn next_timer_timeout(&self, now_ms: u64) -> (remaining_ms: Option<u64>)
        ensures
            remaining_ms == match self@.host.rto_timer {
                Some(time_ms) => Some(
                    if time_ms >= now_ms {
                        (time_ms - now_ms) as u64
                    } else {
                        0
                    },
                ),
                None => None,
            },
    {
        match self.host.rto_timer() {
            Some(time_ms) => Some(
                if time_ms >= now_ms {
                    time_ms - now_ms
                } else {
                    0
                },
            ),
            None => None,
        }
    }

    fn process_timeout(&mut self, now_ms: u64)
        requires
            old(self).wf(),
            old(self)@.is_time(now_ms),
            old(self)@.connection matches ConnectionView::Active(endpoint) ==> (
            endpoint.state_id is Active ==> endpoint.rto_timer is Some),
        ensures
            final(self).wf(),
            old(self)@.times_out_to(now_ms, final(self)@),
    {
        let mut ended: bool = false;
        match &mut self.state {
            State::Handshake(state) => {
                if now_ms >= state.timeout_time_ms {
                    // Connection failed
                    self.host.push_event(Event::Error(ErrorKind::Timeout));
                    ended = true;
                } else {
                    self.host.set_rto_timer(Some(now_ms + HANDSHAKE_RESEND_TIMEOUT_MS));
                    // Ask again
                    self.host.push_frame(vstd::slice::slice_to_vec(&state.frame));
                }
            },
            State::Active(endpoint) => {
                match connection::handle_rto_timer(endpoint, &mut self.host, now_ms) {
                    TimeoutAction::Continue => (),
                    TimeoutAction::Terminate => {
                        ended = true;
                    },
                }
            },
            State::Quiescent => {},
        }
        if ended {
            self.state = State::Quiescent;
        }
    }

    /// Takes in that time has passed.
    pub fn process_timeouts(&mut self, now_ms: u64)
        requires
            old(self).wf(),
            old(self)@.is_time(now_ms),
        ensures
            final(self).wf(),
            old(self)@.passes_to(now_ms, final(self)@),
    {
        if let Some(timeout_ms) = self.host.rto_timer() {
            if now_ms >= timeout_ms {
                self.host.set_rto_timer(None);
                self.process_timeout(now_ms);
            }
        }
    }

    fn handle_handshake_alpha_ack(&mut self, payload_bytes: &[u8], now_ms: u64)
        requires
            old(self).wf(),
            old(self)@.is_time(now_ms),
        ensures
            final(self).wf(),
            final(self)@ == old(self)@.after_alpha_ack(payload_bytes@, now_ms),
    {
        proof {
            lemma_frame_sizes();
        }
        match &mut self.state {
            State::Handshake(state) => match state.phase {
                HandshakePhase::Alpha => {
                    if let Some(frame) = HandshakeAlphaAckFrame::read(payload_bytes) {
                        let client_params = local_params();

                        let nonce_valid: bool = frame.client_nonce == state.local_nonce;
                        let params_compatible: bool = connection_params_compatible(
                            &client_params,
                            &frame.server_params,
                        );

                        if nonce_valid && params_compatible {
                            state.phase = HandshakePhase::Beta;
                            state.timeout_time_ms = now_ms + state.timeout_ms;
                            self.host.set_rto_timer(Some(now_ms + HANDSHAKE_RESEND_TIMEOUT_MS));

                            state.frame = HandshakeBetaFrame {
                                client_params,
                                client_nonce: frame.client_nonce,
                                server_nonce: frame.server_nonce,
                                server_timestamp: frame.server_timestamp,
                                server_mac: frame.server_mac,
                            }.write_boxed();
                            assert(state.frame@ =~= beta_frame(frame));

                            self.host.push_frame(vstd::slice::slice_to_vec(&state.frame));
                        }
                    }
                },
                _ => (),
            },
            _ => (),
        }
    }

    /// Takes in that the server has accepted the client.
    fn enter_active(&mut self, now_ms: u64)
        requires
            old(self).wf(),
            old(self)@.is_time(now_ms),
            old(self)@.connection is Handshake,
        ensures
            final(self).wf(),
            final(self)@.config == old(self)@.config,
            final(self)@.connection is Active,
            is_reaction(
                old(self)@.connected(old(self)@.connection->Handshake_0.packets, now_ms).on_flush(),
                now_ms,
                old(self)@.with_timer(None).host.after_event(EventView::Connect),
                final(self)@.connection->Active_0,
                final(self)@.host,
            ),
    {
        // Reset previously used timer
        self.host.set_rto_timer(None);

        // Keep queued up packets to be sent later
        let mut packet_buffer: VecDeque<(Box<[u8]>, SendMode)> = VecDeque::new();
        if let State::Handshake(state) = &mut self.state {
            std::mem::swap(&mut packet_buffer, &mut state.packet_buffer);
        }
        let ghost packets = packet_views(packet_buffer@);
        assert(packets == old(self)@.connection->Handshake_0.packets);

        // Create an endpoint now that we're connected
        let endpoint_config = endpoint::Config {
            timeout_time_ms: self.config.connection_timeout_ms,
            prio_config: self.config.channel_balance.prio_config(),
        };
        let mut endpoint = Endpoint::new(endpoint_config);

        // Initialize endpoint
        connection::init(&mut endpoint, &mut self.host, now_ms);
        let ghost started = endpoint@;
        enqueue_all(&mut endpoint, packet_buffer, now_ms);
        assert(endpoint@ == old(self)@.connected(packets, now_ms));
        proof {
            lemma_after_enqueues_timer(started, packets, now_ms);
        }
        connection::flush(&mut endpoint, &mut self.host, now_ms);

        // Switch to active state
        self.state = State::Active(endpoint);
    }

    fn handle_handshake_beta_ack(&mut self, payload_bytes: &[u8], now_ms: u64)
        requires
            old(self).wf(),
            old(self)@.is_time(now_ms),
        ensures
            final(self).wf(),
            old(self)@.beta_ack_leads_to(payload_bytes@, now_ms, final(self)@),
    {
        let local_nonce: u32 = match &self.state {
            State::Handshake(state) => match state.phase {
                HandshakePhase::Beta => state.local_nonce,
                _ => return ,
            },
            _ => return ,
        };
        if let Some(frame) = HandshakeBetaAckFrame::read(payload_bytes) {
            if frame.client_nonce == local_nonce {
                match frame.error {
                    None => self.enter_active(now_ms),
                    Some(kind) => {
                        // Connection failed
                        let kind = match kind {
                            HandshakeErrorKind::Capacity => ErrorKind::Capacity,
                            HandshakeErrorKind::Parameter => ErrorKind::Parameter,
                        };
                        self.host.push_event(Event::Error(kind));
                        self.state = State::Quiescent;
                    },
                }
            }
        }
    }

    fn handle_frame_other(
        &mut self,
        frame_type: FrameType,
        payload_bytes: &[u8],
        now_ms: u64,
        rto_estimate_ms: u64,
    )
        requires
            old(self).wf(),
            old(self)@.is_time(now_ms),
            payload_bytes@.len() <= FRAME_SIZE_MAX,
        ensures
            final(self).wf(),
            old(self)@.other_leads_to(
                frame_type,
                payload_bytes@,
                now_ms,
                rto_estimate_ms,
                final(self)@,
            ),
    {
        match &mut self.state {
            State::Active(endpoint) => {
                connection::handle_frame(
                    endpoint,
                    &mut self.host,
                    frame_type,
                    payload_bytes,
                    now_ms,
                    rto_estimate_ms,
                );
            },
            _ => (),
        }
    }

    /// Takes in a frame. If the frame reveals a round trip time, as [`ClientCore::rtt_sample`] tells,
    /// `rto_estimate_ms` is the retransmission timeout estimated from it. Otherwise it is not used.
    pub fn handle_frame(&mut self, frame_bytes: &[u8], now_ms: u64, rto_estimate_ms: u64)
        requires
            old(self).wf(),
            old(self)@.is_time(now_ms),
            frame_bytes@.len() <= FRAME_SIZE_MAX,
        ensures
            final(self).wf(),
            old(self)@.frame_leads_to(frame_bytes@, now_ms, rto_estimate_ms, final(self)@),
    {
        if !verify_minimum_size(frame_bytes) {
            return ;
        }
        if let Some(frame_type) = read_type(frame_bytes) {
            if !verify_crc(frame_bytes) {
                // We don't negotiate with entropy
                return ;
            }
            let payload_bytes = payload(frame_bytes);

            match frame_type {
                FrameType::HandshakeAlphaAck => {
                    self.handle_handshake_alpha_ack(payload_bytes, now_ms);
                },
                FrameType::HandshakeBetaAck => {
                    self.handle_handshake_beta_ack(payload_bytes, now_ms);
                },
                _ => {
                    self.handle_frame_other(frame_type, payload_bytes, now_ms, rto_estimate_ms);
                },
            }
        }
    }

    /// Whether the clock has not gone back since the segment was sent of which the round trip time is
    /// being measured.
    pub fn can_sample_rtt(&self, now_ms: u64) -> (result: bool)
        ensures
            result == self@.can_sample_rtt(now_ms),
    {
        match &self.state {
            State::Active(endpoint) => endpoint.can_sample_rtt(now_ms),
            _ => true,
        }
    }

    /// The round trip time which a frame reveals, if it does.
    pub fn rtt_sample(&self, frame_bytes: &[u8], now_ms: u64) -> (sample: Option<u64>)
        requires
            self@.can_sample_rtt(now_ms),
        ensures
            sample == self@.rtt_sample(frame_bytes@, now_ms),
    {
        if !verify_minimum_size(frame_bytes) || !verify_crc(frame_bytes) {
            return None;
        }
        match (&self.state, read_type(frame_bytes)) {
            (State::Active(endpoint), Some(frame_type)) => endpoint.rtt_sample(
                frame_type,
                payload(frame_bytes),
                now_ms,
            ),
            _ => None,
        }
    }

    /// Enqueues a packet to be sent.
    pub fn enqueue(&mut self, packet_bytes: Box<[u8]>, mode: SendMode, now_ms: u64)
        requires
            old(self).wf(),
            old(self)@.is_time(now_ms),
        ensures
            final(self).wf(),
            final(self)@ == old(self)@.after_enqueue(packet_bytes@, mode, now_ms),
    {
        match &mut self.state {
            State::Handshake(state) => {
                let ghost before = state.packet_buffer@;
                state.packet_buffer.push_back((packet_bytes, mode));
                assert(packet_views(state.packet_buffer@) =~= packet_views(before).push(
                    (packet_bytes@, mode),
                ));
            },
            State::Active(endpoint) => {
                endpoint.enqueue(packet_bytes, mode, now_ms);
            },
            State::Quiescent => {},
        }
    }

    /// Sends as much data as possible.
    pub fn flush(&mut self, now_ms: u64)
        requires
            old(self).wf(),
            old(self)@.is_time(now_ms),
        ensures
            final(self).wf(),
            old(self)@.flushes_to(now_ms, final(self)@),
    {
        match &mut self.state {
            State::Handshake(_) => {},
            State::Active(endpoint) => {
                connection::flush(endpoint, &mut self.host, now_ms);
            },
            State::Quiescent => {},
        }
    }

    /// Equivalent to calling [`ClientCore::enqueue`] followed by [`ClientCore::flush`].
    pub fn send(&mut self, packet_bytes: Box<[u8]>, mode: SendMode, now_ms: u64)
        requires
            old(self).wf(),
            old(self)@.is_time(now_ms),
        ensures
            final(self).wf(),
            old(self)@.after_enqueue(packet_bytes@, mode, now_ms).flushes_to(now_ms, final(self)@),
    {
        self.enqueue(packet_bytes, mode, now_ms);
        self.flush(now_ms);
    }

    /// Disconnects gracefully. No more packets will be sent or received once this function has been
    /// called.
    pub fn disconnect(&mut self, now_ms: u64)
        requires
            old(self).wf(),
            old(self)@.is_time(now_ms),
        ensures
            final(self).wf(),
            final(self)@ == old(self)@.after_disconnect(now_ms),
    {
        match &mut self.state {
            State::Handshake(_) => {
                self.host.set_rto_timer(None);
                self.state = State::Quiescent;
            },
            State::Active(endpoint) => {
                connection::disconnect(endpoint, &mut self.host, now_ms);
            },
            State::Quiescent => {},
        }
    }

    /// Takes the next frame to be sent to the server.
    pub fn pop_frame(&mut self) -> (frame: Option<Vec<u8>>)
        requires
            old(self).wf(),
        ensures
            final(self).wf(),
            match frame {
                Some(frame) => {
                    &&& old(self)@.host.outbox.len() > 0
                    &&& frame@ == old(self)@.host.outbox[0]
                    &&& final(self)@ == (ClientState {
                        host: HostState {
                            outbox: old(self)@.host.outbox.skip(1),
                            ..old(self)@.host
                        },
                        ..old(self)@
                    })
                },
                None => old(self)@.host.outbox.len() == 0 && final(self)@ == old(self)@,
            },
    {
        self.host.pop_frame()
    }

    /// Takes the next event.
    pub fn pop_event(&mut self) -> (event: Option<Event>)
        requires
            old(self).wf(),
        ensures
            final(self).wf(),
            match event {
                Some(event) => {
                    &&& old(self)@.host.events.len() > 0
                    &&& event@ == old(self)@.host.events[0]
                    &&& final(self)@ == (ClientState {
                        host: HostState {
                            events: old(self)@.host.events.skip(1),
                            ..old(self)@.host
                        },
                        ..old(self)@
                    })
                },
                None => old(self)@.host.events.len() == 0 && final(self)@ == old(self)@,
            },
    {
        self.host.pop_event()
    }

    /// Whether there is an event to be processed.
    pub fn has_event(&self) -> (result: bool)
        ensures
            result == (self@.host.events.len() > 0),
    {
        self.host.has_event()
    }
}

/// Enqueues some packets, in order.
fn enqueue_all(endpoint: &mut Endpoint, packets: VecDeque<(Box<[u8]>, SendMode)>, now_ms: u64)
    requires
        old(endpoint).wf(),
        is_time(now_ms),
    ensures
        final(endpoint).wf(),
        final(endpoint)@ == after_enqueues(old(endpoint)@, packet_views(packets@), now_ms),
{
    let ghost all = packet_views(packets@);
    let ghost start = endpoint@;
    let ghost mut i: int = 0;
    let mut packets = packets;
    loop
        invariant
            0 <= i <= all.len(),
            packet_views(packets@) == all.skip(i),
            endpoint.wf(),
            is_time(now_ms),
            endpoint@ == after_enqueues(start, all.take(i), now_ms),
        ensures
            i == all.len(),
        decreases all.len() - i,
    {
        let ghost before = packets@;
        match packets.pop_front() {
            Some((packet, mode)) => {
                endpoint.enqueue(packet, mode, now_ms);
                proof {
                    assert(packet_views(before)[0] == (packet@, mode));
                    assert(all[i] == (packet@, mode));
                    assert(all.take(i + 1).drop_last() =~= all.take(i));
                    assert(packet_views(packets@) =~= packet_views(before).skip(1));
                    assert(all.skip(i).skip(1) =~= all.skip(i + 1));
                    i = i + 1;
                }
            },
            None => {
                assert(packet_views(before).len() == 0);
                break;
            },
        }
    }
    assert(all.take(i) =~= all);
}

/// Packets which have only been enqueued do not start the timer.
proof fn lemma_after_enqueues_timer(
    endpoint: EndpointState,
    packets: Seq<(Seq<u8>, SendMode)>,
    now_ms: u64,
)
    ensures
        after_enqueues(endpoint, packets, now_ms).rto_timer == endpoint.rto_timer,
        after_enqueues(endpoint, packets, now_ms).state_id == endpoint.state_id,
    decreases packets.len(),
{
    if packets.len() > 0 {
        lemma_after_enqueues_timer(endpoint, packets.drop_last(), now_ms);
    }
}

} // verus!
