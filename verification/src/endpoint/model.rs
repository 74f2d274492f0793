//! What an endpoint does, as functions from states to states.

use vstd::prelude::*;

use super::cc::{CcState, ONE_Q16};
use super::fragment_tx::FragmentTxState;
use super::segment_rx::{segment_bytes, RxState as SegmentRxState, Segment};
use super::segment_tx::{total, TxState as SegmentTxState};
use super::{
    RtoTimerState, RttTimerState, StateId, DISCONNECT_TIMEOUT_MS, FRAGMENT_SIZE, FRAME_SIZE_MAX,
    RTO_MAX_MS, RTO_MIN_MS, SEGMENT_WINDOW_SIZE,
};
use crate::bits::odd;
use crate::buffer::reliable::RxState as ReliableRxState;
use crate::buffer::unreliable::RxState as UnreliableRxState;
use crate::frame::serial::{
    decode_datagram, frame_bytes, simple_frame, BlockSerial, SimplePayloadRead,
    DATAGRAM_HEADER_SIZE, FRAME_OVERHEAD_SIZE, STREAM_ACK_SIZE, STREAM_SEGMENT_HEADER_SIZE,
};
use crate::frame::{
    CloseAckFrame, CloseFrame, DatagramView, FrameType, StreamAck, StreamSegmentHeader, StreamSync,
};
use crate::SendMode;

verus! {

/// What an endpoint asks of its host.
pub enum HostAction {
    /// To send a frame to the remote host.
    SendFrame(Seq<u8>),
    /// To call back at a given time.
    SetRtoTimer(u64),
    /// Not to call back any more.
    UnsetRtoTimer,
    /// To announce that the connection is up.
    Connect,
    /// To announce that the connection has been terminated gracefully.
    Disconnect,
    /// To hand out a packet.
    Receive(Seq<u8>),
    /// To announce that the remote host has gone silent.
    Timeout,
}

/// What an [`Endpoint`](super::Endpoint) holds.
pub struct EndpointState {
    pub timeout_time_ms: u64,
    pub state_id: StateId,
    pub local_nonce: u32,
    pub remote_nonce: u32,
    pub segment_tx: SegmentTxState,
    pub fragment_tx: FragmentTxState,
    pub cc: CcState,
    pub rto_ms: u64,
    pub rto_timer: Option<RtoTimerState>,
    pub rtt_timer: Option<RttTimerState>,
    pub segment_rx: SegmentRxState,
    pub unreliable_rx: UnreliableRxState,
    pub reliable_rx: ReliableRxState,
}

/// A new state, and what is asked of the host on the way to it.
pub struct Outcome {
    pub state: EndpointState,
    pub actions: Seq<HostAction>,
}

/// How an endpoint reacts to an event. After the outcome it may go on to send what it can.
pub struct Reaction {
    pub outcome: Outcome,
    /// Whether to go on, and then whether to acknowledge segments, and reliable fragments too.
    pub flush: Option<(bool, bool)>,
}

/// The state of the receive buffers on the way through some datagrams, and what has come of them.
pub struct Received {
    pub unreliable_rx: UnreliableRxState,
    pub reliable_rx: ReliableRxState,
    pub actions: Seq<HostAction>,
    /// Whether there has been a reliable datagram.
    pub any_rel: bool,
}

impl Received {
    pub open spec fn wf(self) -> bool {
        self.unreliable_rx.wf() && self.reliable_rx.wf()
    }

    /// The packet which a datagram completes, if it does.
    pub open spec fn packet(self, datagram: DatagramView) -> Option<Seq<u8>> {
        if datagram.unrel {
            self.unreliable_rx.delivery(
                datagram.id,
                datagram.first,
                datagram.last,
                datagram.data,
            )
        } else {
            self.reliable_rx.delivery(datagram.id, datagram.last, datagram.data)
        }
    }

    pub open spec fn after_datagram(self, datagram: DatagramView) -> Received {
        Received {
            unreliable_rx: if datagram.unrel {
                self.unreliable_rx.after(
                    datagram.id,
                    datagram.first,
                    datagram.last,
                    datagram.data,
                )
            } else {
                self.unreliable_rx
            },
            reliable_rx: if datagram.unrel {
                self.reliable_rx
            } else {
                self.reliable_rx.after(datagram.id, datagram.last, datagram.data)
            },
            actions: match self.packet(datagram) {
                Some(packet) => self.actions.push(HostAction::Receive(packet)),
                None => self.actions,
            },
            any_rel: self.any_rel || !datagram.unrel,
        }
    }

    /// Takes in all whole datagrams at the front of a segment.
    pub open spec fn after_segment(self, bytes: Seq<u8>) -> Received
        decreases bytes.len(),
    {
        match decode_datagram(bytes) {
            Some(datagram) => self.after_datagram(datagram).after_segment(
                bytes.skip(DATAGRAM_HEADER_SIZE + datagram.data.len() as int),
            ),
            None => self,
        }
    }

    pub open spec fn after_segments(self, segments: Seq<Seq<u8>>) -> Received
        decreases segments.len(),
    {
        if segments.len() == 0 {
            self
        } else {
            self.after_segments(segments.drop_last()).after_segment(segments.last())
        }
    }
}

/// The retransmission timeout which is used in place of an estimate.
pub open spec fn clamped_rto(estimate_ms: int) -> u64 {
    if estimate_ms < RTO_MIN_MS {
        RTO_MIN_MS
    } else if estimate_ms > RTO_MAX_MS {
        RTO_MAX_MS
    } else {
        estimate_ms as u64
    }
}

impl EndpointState {
    pub open spec fn wf(self) -> bool {
        &&& self.timeout_time_ms <= u64::MAX - RTO_MAX_MS
        &&& self.segment_tx.wf()
        &&& self.segment_tx.size == SEGMENT_WINDOW_SIZE
        &&& forall|i: int|
            0 <= i < self.segment_tx.transit.len() ==> #[trigger] self.segment_tx.transit[i]
                <= FRAME_SIZE_MAX
        &&& self.fragment_tx.wf()
        &&& self.fragment_tx.unrel.fragment_size == FRAGMENT_SIZE
        &&& self.fragment_tx.rel.fragment_size == FRAGMENT_SIZE
        &&& self.cc.wf()
        &&& self.cc.mss == FRAGMENT_SIZE * ONE_Q16
        &&& RTO_MIN_MS <= self.rto_ms <= RTO_MAX_MS
        &&& self.rto_timer matches Some(timer) ==> timer.rto_ms <= RTO_MAX_MS && (
        self.state_id is Zombie || timer.rto_sum_ms <= self.timeout_time_ms)
        &&& self.state_id is Closing ==> self.rto_timer is Some
        &&& self.segment_rx.wf()
        &&& self.segment_rx.segment_size_max == FRAME_SIZE_MAX
        &&& self.unreliable_rx.wf()
        &&& self.reliable_rx.wf()
    }

    /// The state once a packet has been enqueued.
    pub open spec fn after_enqueue(
        self,
        packet: Seq<u8>,
        mode: SendMode,
        now_ms: u64,
    ) -> EndpointState {
        if self.state_id is Active {
            EndpointState {
                fragment_tx: self.fragment_tx.after_enqueue(packet, mode, now_ms),
                ..self
            }
        } else {
            self
        }
    }

    /// Without any request to the host.
    pub open spec fn quietly(self) -> Reaction {
        Reaction { outcome: Outcome { state: self, actions: Seq::empty() }, flush: None }
    }

    /// Whether a segment can be sent: neither the segment window nor the congestion window is
    /// exhausted, and there is a fragment to send.
    pub open spec fn can_send_data(self, now_ms: u64) -> bool {
        &&& self.segment_tx.can_send()
        &&& total(self.segment_tx.transit) < self.cc.window()
        &&& self.fragment_tx.current(now_ms).has_data()
    }

    /// The acknowledgement of what has been received so far.
    pub open spec fn next_ack(self, ack_rel: bool) -> StreamAck {
        StreamAck {
            segment_id: self.segment_rx.base_id,
            segment_history: (self.segment_rx.rx_history & 0x1F) as u8,
            segment_checksum: odd(
                self.segment_rx.rx_history & self.segment_rx.nonce_history & 0x1F,
            ),
            rel_fragment_id: if ack_rel {
                Some(self.reliable_rx.next_id)
            } else {
                None
            },
        }
    }

    /// The state once expired fragments are dropped.
    pub open spec fn current(self, now_ms: u64) -> EndpointState {
        EndpointState { fragment_tx: self.fragment_tx.current(now_ms), ..self }
    }

    /// How many bytes of datagrams a frame can hold.
    pub open spec fn segment_room(send_ack: bool) -> int {
        FRAME_SIZE_MAX - FRAME_OVERHEAD_SIZE - STREAM_SEGMENT_HEADER_SIZE - if send_ack {
            STREAM_ACK_SIZE as int
        } else {
            0
        }
    }

    /// Sends one frame, which holds an acknowledgement, or a segment, or both.
    #[verifier::opaque]
    pub open spec fn after_stream_frame(
        self,
        send_ack: bool,
        ack_rel: bool,
        nonce: bool,
        now_ms: u64,
    ) -> Outcome {
        let state = self.current(now_ms);
        let ack_bytes = if send_ack {
            self.next_ack(ack_rel).encode()
        } else {
            Seq::empty()
        };
        if self.can_send_data(now_ms) {
            let tx = state.segment_tx;
            let flushed = state.fragment_tx.flushed(Self::segment_room(send_ack), now_ms);
            let header = StreamSegmentHeader { id: tx.next_id, nonce };
            let kind = if send_ack {
                FrameType::StreamSegmentAck
            } else {
                FrameType::StreamSegment
            };
            let frame = frame_bytes(kind, ack_bytes + header.encode() + flushed.bytes);
            Outcome {
                state: EndpointState {
                    segment_tx: SegmentTxState {
                        next_id: tx.next_id.wrapping_add(1),
                        transit: tx.transit.push(flushed.size as usize),
                        nonces: tx.nonces.update(tx.next_id as int % tx.size as int, nonce),
                        ..tx
                    },
                    fragment_tx: flushed.state,
                    rto_timer: if state.rto_timer is None {
                        Some(RtoTimerState { rto_ms: state.rto_ms, rto_sum_ms: 0 })
                    } else {
                        state.rto_timer
                    },
                    rtt_timer: if state.rtt_timer is None {
                        Some(
                            RttTimerState {
                                segment_id: tx.next_id,
                                send_time_ms: now_ms,
                                expire_time_ms: (now_ms + state.rto_ms) as u64,
                            },
                        )
                    } else {
                        state.rtt_timer
                    },
                    ..state
                },
                actions: if state.rto_timer is None {
                    seq![
                        HostAction::SetRtoTimer((now_ms + state.rto_ms) as u64),
                        HostAction::SendFrame(frame),
                    ]
                } else {
                    seq![HostAction::SendFrame(frame)]
                },
            }
        } else {
            Outcome {
                state,
                actions: seq![HostAction::SendFrame(frame_bytes(FrameType::StreamAck, ack_bytes))],
            }
        }
    }

    /// Sends one frame for each of some nonces. Only the first holds an acknowledgement.
    pub open spec fn after_stream_frames(
        self,
        send_ack: bool,
        ack_rel: bool,
        nonces: Seq<bool>,
        now_ms: u64,
    ) -> Outcome
        decreases nonces.len(),
    {
        if nonces.len() == 0 {
            Outcome { state: self, actions: Seq::empty() }
        } else {
            let before = self.after_stream_frames(send_ack, ack_rel, nonces.drop_last(), now_ms);
            let last = before.state.after_stream_frame(
                send_ack && nonces.len() == 1,
                ack_rel,
                nonces.last(),
                now_ms,
            );
            Outcome { state: last.state, actions: before.actions + last.actions }
        }
    }

    /// Whether there is another frame to send once `nonces.len()` frames have been sent.
    pub open spec fn goes_on(
        self,
        send_ack: bool,
        ack_rel: bool,
        nonces: Seq<bool>,
        now_ms: u64,
    ) -> bool {
        ||| send_ack && nonces.len() == 0
        ||| self.after_stream_frames(send_ack, ack_rel, nonces, now_ms).state.can_send_data(now_ms)
    }

    /// Whether `nonces` has one nonce for each frame that is to be sent.
    pub open spec fn is_flush(
        self,
        send_ack: bool,
        ack_rel: bool,
        nonces: Seq<bool>,
        now_ms: u64,
    ) -> bool {
        &&& forall|n: int|
            0 <= n < nonces.len() ==> self.goes_on(
                send_ack,
                ack_rel,
                #[trigger] nonces.take(n),
                now_ms,
            )
        &&& !self.goes_on(send_ack, ack_rel, nonces, now_ms)
    }

    /// Sends all frames which can be sent, with the given nonces.
    pub open spec fn after_flush(
        self,
        send_ack: bool,
        ack_rel: bool,
        nonces: Seq<bool>,
        now_ms: u64,
    ) -> Outcome {
        let sent = self.after_stream_frames(send_ack, ack_rel, nonces, now_ms);
        Outcome { state: sent.state.current(now_ms), actions: sent.actions }
    }

    /// Whether the timer for the round trip time is waiting for this acknowledgement.
    pub open spec fn is_rtt_sample(self, segment_id: u32) -> bool {
        self.rtt_timer matches Some(timer) && segment_id == timer.segment_id.wrapping_add(1)
    }

    /// Takes in an acknowledgement.
    pub open spec fn after_ack(self, ack: StreamAck, now_ms: u64, rto_estimate_ms: u64) -> Outcome {
        let history = ack.segment_history as u32;
        let grown = self.cc.after_ack();
        let cc = if self.segment_tx.ack_shows_drop(ack.segment_id, history, ack.segment_checksum) {
            grown.after_drop()
        } else {
            grown
        };
        let rto_ms = if self.is_rtt_sample(ack.segment_id) {
            clamped_rto(rto_estimate_ms as int)
        } else {
            self.rto_ms
        };
        let rtt_timer = match self.rtt_timer {
            Some(timer) => if self.is_rtt_sample(ack.segment_id) || timer.expire_time_ms <= now_ms {
                None
            } else {
                Some(timer)
            },
            None => None,
        };
        let caught_up = ack.segment_id == self.segment_tx.next_id;
        Outcome {
            state: EndpointState {
                segment_tx: self.segment_tx.after_ack(
                    ack.segment_id,
                    history,
                    ack.segment_checksum,
                ),
                fragment_tx: self.fragment_tx.after_ack(ack.rel_fragment_id),
                cc,
                rto_ms,
                rtt_timer,
                rto_timer: if self.rto_timer is None || caught_up {
                    None
                } else {
                    Some(RtoTimerState { rto_ms, rto_sum_ms: 0 })
                },
                ..self
            },
            actions: if self.rto_timer is None {
                Seq::empty()
            } else if caught_up {
                seq![HostAction::UnsetRtoTimer]
            } else {
                seq![HostAction::SetRtoTimer((now_ms + rto_ms) as u64)]
            },
        }
    }

    /// The receive buffers before any datagram.
    pub open spec fn receiving(self) -> Received {
        Received {
            unreliable_rx: self.unreliable_rx,
            reliable_rx: self.reliable_rx,
            actions: Seq::empty(),
            any_rel: false,
        }
    }

    /// What comes of a segment.
    pub open spec fn received(self, segment: Segment) -> Received {
        self.receiving().after_segments(segment_bytes(self.segment_rx.delivery(segment)))
    }

    /// Takes in a segment.
    pub open spec fn after_segment(self, segment: Segment) -> Outcome {
        let received = self.received(segment);
        Outcome {
            state: EndpointState {
                segment_rx: self.segment_rx.after(segment),
                unreliable_rx: received.unreliable_rx,
                reliable_rx: received.reliable_rx,
                ..self
            },
            actions: received.actions,
        }
    }

    /// The reaction to the part of a stream frame after the acknowledgement. A segment is always
    /// acknowledged, also if it is held back, or of no use.
    pub open spec fn on_segment(self, payload: Seq<u8>) -> Reaction {
        if payload.len() < STREAM_SEGMENT_HEADER_SIZE {
            Reaction {
                outcome: Outcome { state: self, actions: Seq::empty() },
                flush: Some((false, false)),
            }
        } else {
            let header = StreamSegmentHeader::decode(payload);
            let segment = Segment {
                id: header.id,
                nonce: header.nonce,
                data: payload.skip(STREAM_SEGMENT_HEADER_SIZE as int),
            };
            let received = self.received(segment);
            Reaction {
                outcome: self.after_segment(segment),
                flush: Some((true, received.any_rel)),
            }
        }
    }

    /// The reaction to a stream frame, which may begin with an acknowledgement, and may then hold a
    /// segment.
    pub open spec fn on_stream_frame(
        self,
        has_ack: bool,
        has_segment: bool,
        payload: Seq<u8>,
        now_ms: u64,
        rto_estimate_ms: u64,
    ) -> Reaction {
        if has_ack && payload.len() < STREAM_ACK_SIZE {
            self.quietly()
        } else {
            let acked = if has_ack {
                self.after_ack(StreamAck::decode(payload), now_ms, rto_estimate_ms)
            } else {
                Outcome { state: self, actions: Seq::empty() }
            };
            let rest = if has_ack {
                payload.skip(STREAM_ACK_SIZE as int)
            } else {
                payload
            };
            if has_segment {
                let reaction = acked.state.on_segment(rest);
                Reaction {
                    outcome: Outcome {
                        state: reaction.outcome.state,
                        actions: acked.actions + reaction.outcome.actions,
                    },
                    flush: reaction.flush,
                }
            } else {
                Reaction { outcome: acked, flush: Some((false, false)) }
            }
        }
    }

    /// The reaction to a sync frame.
    pub open spec fn on_sync(self, payload: Seq<u8>) -> Reaction {
        match StreamSync::in_payload(payload) {
            Some(sync) => {
                let received = self.receiving().after_segments(
                    segment_bytes(self.segment_rx.sync_delivery(sync.next_segment_id)),
                );
                Reaction {
                    outcome: Outcome {
                        state: EndpointState {
                            segment_rx: self.segment_rx.after_sync(sync.next_segment_id),
                            unreliable_rx: UnreliableRxState {
                                build: None,
                                ..received.unreliable_rx
                            },
                            reliable_rx: received.reliable_rx,
                            ..self
                        },
                        actions: received.actions,
                    },
                    flush: Some((true, true)),
                }
            },
            None => self.quietly(),
        }
    }

    pub open spec fn is_valid_close(self, payload: Seq<u8>) -> bool {
        CloseFrame::in_payload(payload) matches Some(frame) && frame.remote_nonce
            == self.local_nonce
    }

    pub open spec fn is_valid_close_ack(self, payload: Seq<u8>) -> bool {
        CloseAckFrame::in_payload(payload) matches Some(frame) && frame.remote_nonce
            == self.local_nonce
    }

    /// The frame which asks the remote host to close the connection.
    pub open spec fn close_frame(self) -> Seq<u8> {
        simple_frame(CloseFrame { remote_nonce: self.remote_nonce })
    }

    /// The frame which confirms that the connection is closed.
    pub open spec fn close_ack_frame(self) -> Seq<u8> {
        simple_frame(CloseAckFrame { remote_nonce: self.remote_nonce })
    }

    /// Enters the closed state, in which further requests to close are confirmed for a while.
    pub open spec fn after_closed(self, now_ms: u64) -> Outcome {
        Outcome {
            state: EndpointState { state_id: StateId::Closed, rto_timer: None, ..self },
            actions: seq![
                HostAction::Disconnect,
                HostAction::SetRtoTimer((now_ms + DISCONNECT_TIMEOUT_MS) as u64),
            ],
        }
    }

    /// The reaction to a request to close the connection.
    pub open spec fn on_close(self, payload: Seq<u8>, now_ms: u64) -> Reaction {
        if !self.is_valid_close(payload) {
            self.quietly()
        } else if self.state_id is Closed {
            Reaction {
                outcome: Outcome {
                    state: self,
                    actions: seq![HostAction::SendFrame(self.close_ack_frame())],
                },
                flush: None,
            }
        } else {
            let closed = self.after_closed(now_ms);
            Reaction {
                outcome: Outcome {
                    state: closed.state,
                    actions: seq![HostAction::SendFrame(self.close_ack_frame())] + closed.actions,
                },
                flush: None,
            }
        }
    }

    /// The reaction to a frame.
    pub open spec fn on_frame(
        self,
        frame_type: FrameType,
        payload: Seq<u8>,
        now_ms: u64,
        rto_estimate_ms: u64,
    ) -> Reaction {
        match (self.state_id, frame_type) {
            (StateId::Active, FrameType::StreamSegment) => self.on_stream_frame(
                false,
                true,
                payload,
                now_ms,
                rto_estimate_ms,
            ),
            (StateId::Active, FrameType::StreamAck) => self.on_stream_frame(
                true,
                false,
                payload,
                now_ms,
                rto_estimate_ms,
            ),
            (StateId::Active, FrameType::StreamSegmentAck) => self.on_stream_frame(
                true,
                true,
                payload,
                now_ms,
                rto_estimate_ms,
            ),
            (StateId::Active, FrameType::StreamSync) => self.on_sync(payload),
            (StateId::Active, FrameType::Close) => self.on_close(payload, now_ms),
            (StateId::Closing, FrameType::Close) => self.on_close(payload, now_ms),
            (StateId::Closed, FrameType::Close) => self.on_close(payload, now_ms),
            (StateId::Closing, FrameType::CloseAck) => if self.is_valid_close_ack(payload) {
                Reaction { outcome: self.after_closed(now_ms), flush: None }
            } else {
                self.quietly()
            },
            _ => self.quietly(),
        }
    }

    /// Whether the clock has not gone back since the segment was sent of which the round trip time is
    /// being measured.
    pub open spec fn can_sample_rtt(self, now_ms: u64) -> bool {
        self.rtt_timer matches Some(timer) ==> timer.send_time_ms <= now_ms
    }

    /// The round trip time which a frame reveals, if it holds the acknowledgement that the timer for
    /// it is waiting for.
    pub open spec fn rtt_sample(self, frame_type: FrameType, payload: Seq<u8>, now_ms: u64) -> Option<
        u64,
    > {
        if self.state_id is Active && (frame_type is StreamAck || frame_type is StreamSegmentAck)
            && payload.len() >= STREAM_ACK_SIZE && self.is_rtt_sample(
            StreamAck::decode(payload).segment_id,
        ) {
            Some((now_ms - self.rtt_timer->0.send_time_ms) as u64)
        } else {
            None
        }
    }

    /// The total time without an acknowledgement once the timer has fired.
    pub open spec fn silence_ms(self) -> int {
        self.rto_timer->0.rto_sum_ms + self.rto_timer->0.rto_ms
    }

    /// The timeout after the current one.
    pub open spec fn next_rto_ms(self) -> u64 {
        clamped_rto(2 * self.rto_ms)
    }

    /// The state once the timer has fired, and has been set again.
    pub open spec fn after_backoff(self) -> EndpointState {
        EndpointState {
            rto_ms: self.next_rto_ms(),
            rto_timer: Some(
                RtoTimerState { rto_ms: self.next_rto_ms(), rto_sum_ms: self.silence_ms() as u64 },
            ),
            ..self
        }
    }

    /// Whether the endpoint is done for once the timer has fired.
    pub open spec fn ends_on_timer(self) -> bool {
        match self.state_id {
            StateId::Active => self.silence_ms() >= self.timeout_time_ms,
            StateId::Closing => self.silence_ms() >= self.timeout_time_ms,
            StateId::Closed => true,
            _ => false,
        }
    }

    /// The reaction to the timer.
    pub open spec fn on_timer(self, now_ms: u64) -> Reaction {
        let set_timer = HostAction::SetRtoTimer((now_ms + self.next_rto_ms()) as u64);
        match self.state_id {
            StateId::Active => if self.ends_on_timer() {
                self.after_silence()
            } else {
                let state = self.after_backoff();
                let sync = StreamSync { next_segment_id: self.segment_tx.next_id };
                Reaction {
                    outcome: Outcome {
                        state: EndpointState {
                            cc: state.cc.after_timeout(),
                            fragment_tx: state.fragment_tx.after_timeout(),
                            ..state
                        },
                        actions: seq![set_timer, HostAction::SendFrame(simple_frame(sync))],
                    },
                    flush: Some((false, false)),
                }
            },
            StateId::Closing => if self.ends_on_timer() {
                self.after_silence()
            } else {
                Reaction {
                    outcome: Outcome {
                        state: self.after_backoff(),
                        actions: seq![set_timer, HostAction::SendFrame(self.close_frame())],
                    },
                    flush: None,
                }
            },
            StateId::Closed => EndpointState { state_id: StateId::Zombie, ..self }.quietly(),
            _ => self.quietly(),
        }
    }

    /// Gives up on a remote host which has been silent for too long.
    pub open spec fn after_silence(self) -> Reaction {
        Reaction {
            outcome: Outcome {
                state: EndpointState {
                    state_id: StateId::Zombie,
                    rto_timer: Some(
                        RtoTimerState {
                            rto_ms: self.rto_timer->0.rto_ms,
                            rto_sum_ms: self.silence_ms() as u64,
                        },
                    ),
                    ..self
                },
                actions: seq![HostAction::Timeout],
            },
            flush: None,
        }
    }

    /// The reaction to the wish to disconnect.
    pub open spec fn on_disconnect(self, now_ms: u64) -> Reaction {
        if self.state_id is Active {
            Reaction {
                outcome: Outcome {
                    state: EndpointState {
                        state_id: StateId::Closing,
                        rto_timer: Some(RtoTimerState { rto_ms: self.rto_ms, rto_sum_ms: 0 }),
                        ..self
                    },
                    actions: seq![
                        HostAction::SetRtoTimer((now_ms + self.rto_ms) as u64),
                        HostAction::SendFrame(self.close_frame()),
                    ],
                },
                flush: None,
            }
        } else {
            self.quietly()
        }
    }

    /// The reaction to the wish to send what can be sent.
    pub open spec fn on_flush(self) -> Reaction {
        Reaction {
            outcome: Outcome { state: self, actions: Seq::empty() },
            flush: if self.state_id is Active {
                Some((false, false))
            } else {
                None
            },
        }
    }
}

impl Reaction {
    /// Whether a reaction can end in `state`, while what has been asked of the host goes from
    /// `before` to `after`. The nonces of segments are picked at random.
    pub open spec fn ends_in(
        self,
        now_ms: u64,
        state: EndpointState,
        before: Seq<HostAction>,
        after: Seq<HostAction>,
    ) -> bool {
        let reached = self.outcome.state;
        match self.flush {
            None => state == reached && after == before + self.outcome.actions,
            Some((send_ack, ack_rel)) => exists|nonces: Seq<bool>|
                {
                    let flushed = reached.after_flush(send_ack, ack_rel, nonces, now_ms);
                    &&& #[trigger] reached.is_flush(send_ack, ack_rel, nonces, now_ms)
                    &&& state == flushed.state
                    &&& after == before + self.outcome.actions + flushed.actions
                },
        }
    }
}

} // verus!
