//! The state of one end of a connection.

use vstd::prelude::*;

use crate::buffer::{FragmentRef, ReliableRxBuffer, UnreliableRxBuffer};
use crate::frame::serial::{
    lemma_block_sizes, lemma_frame_sizes, simple_frame, type_byte, BlockSerial, FrameWriter,
    PayloadReader, Serial, SimpleFrameWrite, SimplePayloadRead,
};
use crate::frame::{
    CloseAckFrame, CloseFrame, Datagram, FrameType, StreamAck, StreamSegmentHeader, StreamSync,
};
use crate::SendMode;

pub mod acks;
pub mod balance;
pub mod cc;
pub mod fragment_tx;
pub mod history;
pub mod laws;
pub mod lifecycle;
pub mod limits;
pub mod model;
pub mod prio;
pub mod recovery;
pub mod segment_rx;
pub mod segment_tx;
pub mod traffic;

use cc::{AimdReno, CcState, Mode, ONE_Q16};
use fragment_tx::{lemma_flushed_sizes, FragmentTxBuffers, FragmentTxState};
use model::{clamped_rto, EndpointState, HostAction, Received};
use segment_rx::{delivered_views, segment_bytes, Segment, SegmentRx};
use segment_tx::{total, SegmentTx};

verus! {

pub const DISCONNECT_TIMEOUT_MS: u64 = 10_000;

pub const FRAME_SIZE_MAX: usize = 1472;

pub const SEGMENT_WINDOW_SIZE: u32 = 4096;

pub const FRAGMENT_SIZE: usize = 1024;

pub const FRAGMENT_WINDOW_SIZE: u32 = 4096;

pub const RTO_INITIAL_MS: u64 = 1_000;

pub const RTO_MAX_MS: u64 = 60_000;

pub const RTO_MIN_MS: u64 = 1_000;

/// What an endpoint is to do once it has been told that its timer fired.
#[derive(Debug, Clone, Copy, PartialEq, Eq, Structural)]
pub enum TimeoutAction {
    /// The endpoint goes on.
    Continue,
    /// The endpoint is done for, and can be thrown away.
    Terminate,
}

/// Whether the timer is running, and for how long it has been.
#[derive(Debug, Clone, Copy)]
pub struct RtoTimerState {
    /// The timeout which the timer was set with
    pub rto_ms: u64,
    /// Total timeout time
    pub rto_sum_ms: u64,
}

/// The segment of which the round trip time is being measured.
#[derive(Debug, Clone, Copy)]
pub struct RttTimerState {
    pub segment_id: u32,
    pub send_time_ms: u64,
    pub expire_time_ms: u64,
}

#[derive(Debug, Clone, Copy, PartialEq, Eq, Structural)]
pub enum StateId {
    PreInit,
    Active,
    Closing,
    Closed,
    Zombie,
}

/// Parameters for unreliable / reliable channel prioritization.
#[derive(Clone, Copy)]
pub struct ChannelBalanceConfig {
    /// Relative weight with which to send unreliable packets.
    ///
    /// Minimum value: 1 \
    /// Maximum value: 256 \
    /// Default value: 1
    ///
    /// *Note*: The product of weights may not exceed 256 ([`prio::WEIGHT_MAX`]).
    pub unreliable_weight: u32,
    /// Relative weight with which to send reliable packets.
    ///
    /// Minimum value: 1 \
    /// Maximum value: 256 \
    /// Default value: 1
    ///
    /// *Note*: The product of weights may not exceed 256 ([`prio::WEIGHT_MAX`]).
    pub reliable_weight: u32,
    /// Defines the maximum amount of data sent by a channel after an idle period. If a channel has
    /// a weight of 2, it may send 2 times this value in a burst, and so on.
    ///
    /// Minimum value: 1 \
    /// Maximum value: 65535 * 255 ([`prio::BURST_SIZE_MAX`]) \
    /// Default value: 10_000
    ///
    /// *Note*: This value determines the time horizon over which channels are prioritized. If this
    /// value is too low, all channels will send with an effectively equal weight. If this value is
    /// too high, an idle channel will dominate the stream once it resumes sending.
    pub burst_size: usize,
}

impl ChannelBalanceConfig {
    pub open spec fn is_valid(self) -> bool {
        prio::is_valid(
            seq![self.unreliable_weight, self.reliable_weight, 1, 1],
            self.burst_size as int,
        )
    }

    /// What the parameters come to.
    pub open spec fn prio(self) -> prio::ConfigState {
        prio::ConfigState {
            costs: seq![
                self.reliable_weight,
                self.unreliable_weight,
                (self.unreliable_weight * self.reliable_weight) as u32,
                (self.unreliable_weight * self.reliable_weight) as u32,
            ],
            counter_max: (self.burst_size * (self.unreliable_weight
                * self.reliable_weight)) as u32,
        }
    }

    /// Whether all parameters are in range.
    pub fn validate(&self) -> (valid: bool)
        ensures
            valid == self.is_valid(),
    {
        let weights: [u32; 4] = [self.unreliable_weight, self.reliable_weight, 1, 1];
        assert(weights@ =~= seq![self.unreliable_weight, self.reliable_weight, 1, 1]);
        prio::validate(&weights, self.burst_size)
    }

    /// The parameters in the form in which channels are prioritized.
    pub fn prio_config(&self) -> (config: prio::Config)
        requires
            self.is_valid(),
        ensures
            config@.wf(),
            config@ == self.prio(),
    {
        let weights: [u32; 4] = [self.unreliable_weight, self.reliable_weight, 1, 1];
        assert(weights@ =~= seq![self.unreliable_weight, self.reliable_weight, 1, 1]);
        proof {
            let (a, b) = (self.unreliable_weight as int, self.reliable_weight as int);
            assert(b * 1 * 1 == b && a * 1 * 1 == a && a * b * 1 == a * b && a * b * 1 * 1 == a * b)
                by (nonlinear_arith);
        }
        let config = prio::Config::new(&weights, self.burst_size);
        assert(config@.costs =~= self.prio().costs);
        config
    }
}

impl Default for ChannelBalanceConfig {
    fn default() -> (config: Self)
        ensures
            config == (ChannelBalanceConfig {
                unreliable_weight: 1,
                reliable_weight: 1,
                burst_size: 10_000,
            }),
            config.is_valid(),
    {
        assert(1int * 1int * 1int * 1int == 1) by (nonlinear_arith);
        Self { unreliable_weight: 1, reliable_weight: 1, burst_size: 10_000 }
    }
}

/// Parameters of an endpoint.
#[derive(Clone, Copy)]
pub struct Config {
    /// How long the remote host may be silent, in milliseconds.
    pub timeout_time_ms: u64,
    pub prio_config: prio::Config,
}

impl Config {
    pub open spec fn is_valid(self) -> bool {
        self.prio_config@.wf() && self.timeout_time_ms <= u64::MAX - RTO_MAX_MS
    }
}

/// The host of an endpoint, which does what the endpoint cannot do on its own.
pub trait HostContext {
    /// All that has been asked of the host so far.
    spec fn actions(&self) -> Seq<HostAction>;

    /// Called to send a frame to the remote host.
    fn send_frame(&mut self, frame_bytes: &[u8])
        ensures
            final(self).actions() == old(self).actions().push(
                HostAction::SendFrame(frame_bytes@),
            ),
    ;

    /// Called to set the rto timer
    fn set_rto_timer(&mut self, time_ms: u64)
        ensures
            final(self).actions() == old(self).actions().push(HostAction::SetRtoTimer(time_ms)),
    ;

    /// Called to unset the rto timer
    fn unset_rto_timer(&mut self)
        ensures
            final(self).actions() == old(self).actions().push(HostAction::UnsetRtoTimer),
    ;

    /// Called when the connection has been successfully initialized
    fn on_connect(&mut self)
        ensures
            final(self).actions() == old(self).actions().push(HostAction::Connect),
    ;

    /// Called when the connection has been terminated gracefully
    fn on_disconnect(&mut self)
        ensures
            final(self).actions() == old(self).actions().push(HostAction::Disconnect),
    ;

    /// Called when a packet has been received from the remote host
    fn on_receive(&mut self, packet_bytes: Box<[u8]>)
        ensures
            final(self).actions() == old(self).actions().push(HostAction::Receive(packet_bytes@)),
    ;

    /// Called when the connection has been terminated due to a timeout
    fn on_timeout(&mut self)
        ensures
            final(self).actions() == old(self).actions().push(HostAction::Timeout),
    ;
}

/// One end of a connection.
pub struct Endpoint {
    config: Config,
    state_id: StateId,
    local_nonce: u32,
    remote_nonce: u32,
    // Sender state
    segment_tx: SegmentTx,
    fragment_tx: FragmentTxBuffers,
    cc_state: AimdReno,
    tx_buffer: Vec<u8>,
    rto_ms: u64,
    rto_timer_state: Option<RtoTimerState>,
    rtt_timer_state: Option<RttTimerState>,
    // Receiver state
    segment_rx: SegmentRx,
    unreliable_rx: UnreliableRxBuffer,
    reliable_rx: ReliableRxBuffer,
}

impl View for Endpoint {
    type V = EndpointState;

    closed spec fn view(&self) -> EndpointState {
        EndpointState {
            timeout_time_ms: self.config.timeout_time_ms,
            state_id: self.state_id,
            local_nonce: self.local_nonce,
            remote_nonce: self.remote_nonce,
            segment_tx: self.segment_tx@,
            fragment_tx: self.fragment_tx@,
            cc: self.cc_state@,
            rto_ms: self.rto_ms,
            rto_timer: self.rto_timer_state,
            rtt_timer: self.rtt_timer_state,
            segment_rx: self.segment_rx@,
            unreliable_rx: self.unreliable_rx@,
            reliable_rx: self.reliable_rx@,
        }
    }
}

/// Whether sums of this time and any timeout are valid times.
pub open spec fn is_time(now_ms: u64) -> bool {
    now_ms <= u64::MAX - 0x1_0000
}

/// The state of an endpoint before the connection is up.
pub open spec fn initial_state(
    timeout_time_ms: u64,
    prio_config: prio::ConfigState,
) -> EndpointState {
    EndpointState {
        timeout_time_ms,
        state_id: StateId::PreInit,
        local_nonce: 0,
        remote_nonce: 0,
        segment_tx: segment_tx::TxState {
            base_id: 0,
            next_id: 0,
            size: SEGMENT_WINDOW_SIZE,
            transit: Seq::empty(),
            nonces: Seq::new(SEGMENT_WINDOW_SIZE as nat, |i: int| false),
            ack_history: u32::MAX,
            nonce_history: 0,
        },
        fragment_tx: FragmentTxState {
            unrel: crate::buffer::unreliable::TxState {
                queue: Seq::empty(),
                next_id: 0,
                fragment_size: FRAGMENT_SIZE as nat,
            },
            rel: crate::buffer::reliable::TxState {
                fragments: Seq::empty(),
                base_id: 0,
                window_size: FRAGMENT_WINDOW_SIZE,
                fragment_size: FRAGMENT_SIZE as nat,
                next_send_id: 0,
                min_ack_id: 0,
                duplicate_acks: 0,
            },
            prio: prio::PrioState {
                counters: seq![0u32, 0, 0, 0],
                config: prio_config,
            },
        },
        cc: CcState {
            mode: Mode::UnboundedSlowStart,
            mss: FRAGMENT_SIZE * ONE_Q16,
            cwnd: cc::INITIAL_CWND_MSS * FRAGMENT_SIZE * ONE_Q16,
            dropcnt: 0,
        },
        rto_ms: RTO_INITIAL_MS,
        rto_timer: None,
        rtt_timer: None,
        segment_rx: segment_rx::RxState {
            base_id: 0,
            window_size: SEGMENT_WINDOW_SIZE,
            segment_size_max: FRAME_SIZE_MAX as nat,
            pending: Seq::empty(),
            rx_history: 0,
            nonce_history: 0,
        },
        unreliable_rx: crate::buffer::unreliable::RxState {
            fragment_size: FRAGMENT_SIZE as nat,
            next_id: 0,
            build: None,
        },
        reliable_rx: crate::buffer::reliable::RxState {
            fragment_size: FRAGMENT_SIZE as nat,
            next_id: 0,
            build: None,
        },
    }
}

/// Growing the congestion window of an endpoint never overflows.
proof fn lemma_cc_ack(state: CcState)
    requires
        state.wf(),
        state.mss == FRAGMENT_SIZE * ONE_Q16,
    ensures
        state.cwnd > 0,
        state.mss * state.mss + state.cwnd / 2 <= u64::MAX,
        state.after_ack().mss == state.mss,
{
    let m = state.mss;
    assert(m * m == 0x10_0000_0000_0000) by (nonlinear_arith)
        requires
            m == 0x400_0000,
    ;
}

/// The segments in transit never add up to more than the window holds.
proof fn lemma_transit_total(transit: Seq<usize>, max: nat)
    requires
        forall|i: int| 0 <= i < transit.len() ==> #[trigger] transit[i] <= max,
    ensures
        total(transit) <= transit.len() * max,
    decreases transit.len(),
{
    if transit.len() > 0 {
        lemma_transit_total(transit.drop_last(), max);
        assert(transit[transit.len() - 1] <= max);
        assert(transit.len() * max == (transit.len() - 1) * max + max) by (nonlinear_arith)
            requires
                transit.len() > 0,
        ;
    }
}

/// Dropping expired fragments twice is the same as dropping them once.
proof fn lemma_current(state: EndpointState, now_ms: u64)
    ensures
        state.current(now_ms).current(now_ms) == state.current(now_ms),
        state.current(now_ms).can_send_data(now_ms) == state.can_send_data(now_ms),
{
    crate::buffer::unreliable::law_unexpired(state.fragment_tx.unrel.queue, now_ms);
}

/// The state in which the next frame is about to be sent: expired fragments are dropped, and if a
/// segment is to be sent its nonce is picked.
spec fn prepared(state: EndpointState, nonce: bool, now_ms: u64) -> EndpointState {
    let current = state.current(now_ms);
    let tx = current.segment_tx;
    if state.can_send_data(now_ms) {
        EndpointState {
            segment_tx: segment_tx::TxState {
                nonces: tx.nonces.update(tx.next_id as int % tx.size as int, nonce),
                ..tx
            },
            ..current
        }
    } else {
        current
    }
}

proof fn lemma_prepared(
    state: EndpointState,
    send_ack: bool,
    ack_rel: bool,
    nonce: bool,
    now_ms: u64,
)
    requires
        state.wf(),
    ensures
        ({
            let ready = prepared(state, nonce, now_ms);
            &&& ready.current(now_ms) == ready
            &&& ready.can_send_data(now_ms) == state.can_send_data(now_ms)
            &&& ready.after_stream_frame(send_ack, ack_rel, nonce, now_ms)
                == state.after_stream_frame(send_ack, ack_rel, nonce, now_ms)
        }),
{
    reveal(EndpointState::after_stream_frame);
    lemma_current(state, now_ms);
    let ready = prepared(state, nonce, now_ms);
    let tx = state.segment_tx;
    let i = tx.next_id as int % tx.size as int;
    assert(tx.nonces.update(i, nonce).update(i, nonce) =~= tx.nonces.update(i, nonce));
}

/// Every segment sent takes a place in the window.
proof fn lemma_transit_grows(
    state: EndpointState,
    send_ack: bool,
    ack_rel: bool,
    nonce: bool,
    now_ms: u64,
)
    ensures
        ({
            let after = state.after_stream_frame(send_ack, ack_rel, nonce, now_ms).state;
            after.segment_tx.transit.len() == state.segment_tx.transit.len()
                + if state.can_send_data(now_ms) {
                1int
            } else {
                0int
            }
        }),
{
    reveal(EndpointState::after_stream_frame);
}

impl Endpoint {
    pub closed spec fn wf(&self) -> bool {
        &&& self@.wf()
        &&& self.segment_tx.wf()
        &&& self.segment_rx.wf()
        &&& self.tx_buffer@.len() == FRAME_SIZE_MAX
    }

    pub fn new(config: Config) -> (endpoint: Self)
        requires
            config.is_valid(),
        ensures
            endpoint.wf(),
            endpoint@ == initial_state(config.timeout_time_ms, config.prio_config@),
    {
        assert(4096u32 & 4095u32 == 0) by (bit_vector);
        Self {
            config,
            state_id: StateId::PreInit,
            local_nonce: 0,
            remote_nonce: 0,
            segment_tx: SegmentTx::new(0, SEGMENT_WINDOW_SIZE),
            fragment_tx: FragmentTxBuffers::new(
                0,
                FRAGMENT_WINDOW_SIZE,
                FRAGMENT_SIZE,
                config.prio_config,
            ),
            cc_state: AimdReno::new(FRAGMENT_SIZE),
            tx_buffer: vec![0; FRAME_SIZE_MAX],
            rto_ms: RTO_INITIAL_MS,
            rto_timer_state: None,
            rtt_timer_state: None,
            segment_rx: SegmentRx::new(0, SEGMENT_WINDOW_SIZE, FRAME_SIZE_MAX),
            unreliable_rx: UnreliableRxBuffer::new(0, FRAGMENT_SIZE),
            reliable_rx: ReliableRxBuffer::new(0, FRAGMENT_SIZE),
        }
    }

    /// The connection is up.
    pub fn init<C>(&mut self, _now_ms: u64, ctx: &mut C) where C: HostContext
        requires
            old(self).wf(),
            old(self)@.state_id is PreInit,
        ensures
            final(self).wf(),
            final(self)@ == (EndpointState { state_id: StateId::Active, ..old(self)@ }),
            final(ctx).actions() == old(ctx).actions().push(HostAction::Connect),
    {
        self.state_id = StateId::Active;
        ctx.on_connect();
    }

    /// Enqueues a packet to be sent.
    pub fn enqueue(&mut self, packet_bytes: Box<[u8]>, mode: SendMode, now_ms: u64)
        requires
            old(self).wf(),
            is_time(now_ms),
        ensures
            final(self).wf(),
            final(self)@ == old(self)@.after_enqueue(packet_bytes@, mode, now_ms),
    {
        if self.state_id == StateId::Active {
            self.fragment_tx.enqueue(packet_bytes, mode, now_ms);
        }
    }

    /// Whether a segment can be sent. Drops expired fragments.
    fn data_sendable(&mut self, now_ms: u64) -> (sendable: bool)
        requires
            old(self).wf(),
        ensures
            final(self).wf(),
            final(self)@ == old(self)@.current(now_ms),
            sendable == old(self)@.can_send_data(now_ms),
    {
        let cwnd: usize = self.cc_state.cwnd();

        let frame_window_limited: bool = !self.segment_tx.can_send();
        let congestion_window_limited: bool = self.segment_tx.bytes_in_transit() >= cwnd;
        let data_ready: bool = self.fragment_tx.data_ready(now_ms);

        !frame_window_limited && !congestion_window_limited && data_ready
    }

    /// Sends one frame, which holds an acknowledgement, or a segment, or both. The nonce of the
    /// segment has been picked already.
    fn send_stream_frame<C>(
        &mut self,
        send_ack: bool,
        send_data: bool,
        ack_rel: bool,
        nonce: bool,
        now_ms: u64,
        ctx: &mut C,
    ) where C: HostContext
        requires
            old(self).wf(),
            is_time(now_ms),
            send_ack || send_data,
            old(self)@.current(now_ms) == old(self)@,
            send_data == old(self)@.can_send_data(now_ms),
            send_data ==> old(self)@.segment_tx.nonce(old(self)@.segment_tx.next_id) == nonce,
        ensures
            final(self).wf(),
            final(self)@ == old(self)@.after_stream_frame(send_ack, ack_rel, nonce, now_ms).state,
            final(ctx).actions() == old(ctx).actions() + old(self)@.after_stream_frame(
                send_ack,
                ack_rel,
                nonce,
                now_ms,
            ).actions,
    {
        reveal(EndpointState::after_stream_frame);
        let ghost before = self@;
        let ghost goal = before.after_stream_frame(send_ack, ack_rel, nonce, now_ms);

        let frame_type: FrameType = if !send_ack {
            FrameType::StreamSegment
        } else if !send_data {
            FrameType::StreamAck
        } else {
            FrameType::StreamSegmentAck
        };

        let mut frame_writer = FrameWriter::new(self.tx_buffer.as_mut_slice(), frame_type);

        if send_ack {
            let segment_id: u32 = self.segment_rx.next_expected_id();
            let (segment_history, segment_checksum) = self.segment_rx.next_ack_info();

            let rel_fragment_id = if ack_rel {
                Some(self.reliable_rx.next_expected_id())
            } else {
                None
            };

            let ack = StreamAck { segment_id, segment_history, segment_checksum, rel_fragment_id };
            proof {
                ack.round_trip(Seq::empty());
                assert(ack == before.next_ack(ack_rel));
            }
            let _ = frame_writer.write(&ack);
        }
        let ghost ack_bytes = if send_ack {
            before.next_ack(ack_rel).encode()
        } else {
            Seq::empty()
        };
        assert(frame_writer.content() =~= seq![type_byte(frame_type)] + ack_bytes);
        if send_data {
            let segment_id: u32 = self.segment_tx.next_id();

            let header = StreamSegmentHeader { id: segment_id, nonce };
            proof {
                header.round_trip(Seq::empty());
            }
            let _ = frame_writer.write(&header);

            let ghost flushed = before.fragment_tx.flushed(
                EndpointState::segment_room(send_ack),
                now_ms,
            );
            proof {
                before.next_ack(ack_rel).round_trip(Seq::empty());
                assert(frame_writer.content().len() == 1 + ack_bytes.len() + header.encode().len());
                assert(frame_writer.room() == EndpointState::segment_room(send_ack));
                lemma_flushed_sizes(
                    before.fragment_tx,
                    EndpointState::segment_room(send_ack),
                    now_ms,
                );
            }
            let size_written: usize = self.fragment_tx.flush(&mut frame_writer, now_ms);
            assert(frame_writer.content() =~= seq![type_byte(frame_type)] + (ack_bytes
                + header.encode() + flushed.bytes));

            proof {
                let tx = before.segment_tx;
                lemma_transit_total(tx.transit, FRAME_SIZE_MAX as nat);
                assert(tx.nonces.update(tx.next_id as int % tx.size as int, nonce) =~= tx.nonces);
            }
            self.segment_tx.mark_sent(size_written);

            // Acks are expected, set the resend timeout if not set already
            if self.rto_timer_state.is_none() {
                ctx.set_rto_timer(now_ms + self.rto_ms);
                self.rto_timer_state = Some(RtoTimerState { rto_ms: self.rto_ms, rto_sum_ms: 0 });
            }
            if self.rtt_timer_state.is_none() {
                self.rtt_timer_state = Some(
                    RttTimerState {
                        segment_id,
                        send_time_ms: now_ms,
                        expire_time_ms: now_ms + self.rto_ms,
                    },
                );
            }
        }
        let frame = frame_writer.finalize();

        ctx.send_frame(frame);
        assert(ctx.actions() =~= old(ctx).actions() + goal.actions);
    }

    /// Sends one frame, if there is an acknowledgement or a segment to be sent. `nonce` is the nonce
    /// of the segment.
    pub fn flush_frame<C>(
        &mut self,
        send_ack: bool,
        ack_rel: bool,
        nonce: bool,
        now_ms: u64,
        ctx: &mut C,
    ) -> (sent: bool) where C: HostContext
        requires
            old(self).wf(),
            is_time(now_ms),
        ensures
            final(self).wf(),
            sent == (send_ack || old(self)@.can_send_data(now_ms)),
            sent ==> final(self)@ == old(self)@.after_stream_frame(
                send_ack,
                ack_rel,
                nonce,
                now_ms,
            ).state && final(ctx).actions() == old(ctx).actions() + old(self)@.after_stream_frame(
                send_ack,
                ack_rel,
                nonce,
                now_ms,
            ).actions,
            !sent ==> final(self)@ == old(self)@.current(now_ms) && final(ctx).actions() == old(
                ctx,
            ).actions(),
    {
        proof {
            lemma_prepared(self@, send_ack, ack_rel, nonce, now_ms);
        }
        let send_data: bool = self.data_sendable(now_ms);

        if !send_ack && !send_data {
            return false;
        }
        if send_data {
            self.segment_tx.set_next_nonce(nonce);
        }
        assert(self@ == prepared(old(self)@, nonce, now_ms));
        self.send_stream_frame(send_ack, send_data, ack_rel, nonce, now_ms, ctx);
        true
    }

    /// Sends one frame, if there is an acknowledgement or a segment to be sent. Returns the nonce
    /// which was picked at random for the segment.
    fn flush_next<C>(
        &mut self,
        send_ack: bool,
        ack_rel: bool,
        now_ms: u64,
        ctx: &mut C,
    ) -> (sent: Option<bool>) where C: HostContext
        requires
            old(self).wf(),
            is_time(now_ms),
        ensures
            final(self).wf(),
            sent is Some == (send_ack || old(self)@.can_send_data(now_ms)),
            match sent {
                Some(nonce) => {
                    let goal = old(self)@.after_stream_frame(send_ack, ack_rel, nonce, now_ms);
                    &&& final(self)@ == goal.state
                    &&& final(ctx).actions() == old(ctx).actions() + goal.actions
                },
                None => final(self)@ == old(self)@.current(now_ms) && final(ctx).actions() == old(
                    ctx,
                ).actions(),
            },
    {
        let send_data: bool = self.data_sendable(now_ms);

        if !send_ack && !send_data {
            return None;
        }
        let nonce: bool = if send_data {
            self.segment_tx.compute_next_nonce()
        } else {
            false
        };
        proof {
            lemma_prepared(old(self)@, send_ack, ack_rel, nonce, now_ms);
            assert(self@ == prepared(old(self)@, nonce, now_ms));
        }
        self.send_stream_frame(send_ack, send_data, ack_rel, nonce, now_ms, ctx);
        Some(nonce)
    }

    /// Sends all frames which can be sent, each with a nonce picked at random. Only the first frame
    /// holds an acknowledgement, if one is wanted.
    pub fn flush_stream<C>(&mut self, send_ack: bool, ack_rel: bool, now_ms: u64, ctx: &mut C) where
        C: HostContext,

        requires
            old(self).wf(),
            is_time(now_ms),
        ensures
            final(self).wf(),
            exists|nonces: Seq<bool>|
                {
                    &&& #[trigger] old(self)@.is_flush(send_ack, ack_rel, nonces, now_ms)
                    &&& final(self)@ == old(self)@.after_flush(
                        send_ack,
                        ack_rel,
                        nonces,
                        now_ms,
                    ).state
                    &&& final(ctx).actions() == old(ctx).actions() + old(self)@.after_flush(
                        send_ack,
                        ack_rel,
                        nonces,
                        now_ms,
                    ).actions
                },
    {
        let ghost first = self@;
        let ghost mut nonces: Seq<bool> = Seq::empty();
        let mut ack_pending: bool = send_ack;
        proof {
            let sent = first.after_stream_frames(send_ack, ack_rel, nonces, now_ms);
            assert(ctx.actions() =~= old(ctx).actions() + sent.actions);
        }

        loop
            invariant_except_break
                self@ == first.after_stream_frames(send_ack, ack_rel, nonces, now_ms).state,
            invariant
                self.wf(),
                is_time(now_ms),
                ack_pending == (send_ack && nonces.len() == 0),
                forall|n: int|
                    0 <= n < nonces.len() ==> first.goes_on(
                        send_ack,
                        ack_rel,
                        #[trigger] nonces.take(n),
                        now_ms,
                    ),
                ctx.actions() == old(ctx).actions() + first.after_stream_frames(
                    send_ack,
                    ack_rel,
                    nonces,
                    now_ms,
                ).actions,
            ensures
                !first.goes_on(send_ack, ack_rel, nonces, now_ms),
                self@ == first.after_flush(send_ack, ack_rel, nonces, now_ms).state,
            decreases
                    SEGMENT_WINDOW_SIZE - self@.segment_tx.transit.len() + if ack_pending {
                        1int
                    } else {
                        0int
                    },
        {
            let ghost before = self@;
            let ghost sent = first.after_stream_frames(send_ack, ack_rel, nonces, now_ms);
            match self.flush_next(ack_pending, ack_rel, now_ms, ctx) {
                Some(nonce) => {
                    proof {
                        lemma_transit_grows(before, ack_pending, ack_rel, nonce, now_ms);
                        let longer = nonces.push(nonce);
                        assert(longer.drop_last() =~= nonces);
                        assert forall|n: int| 0 <= n < longer.len() implies first.goes_on(
                            send_ack,
                            ack_rel,
                            #[trigger] longer.take(n),
                            now_ms,
                        ) by {
                            if n < nonces.len() {
                                assert(longer.take(n) =~= nonces.take(n));
                            } else {
                                assert(longer.take(n) =~= nonces);
                            }
                        }
                        let more = first.after_stream_frames(send_ack, ack_rel, longer, now_ms);
                        assert(ctx.actions() =~= old(ctx).actions() + more.actions);
                        nonces = longer;
                    }
                },
                None => break,
            }
            // Only append one ack per flush
            ack_pending = false;
        }
        assert(first.is_flush(send_ack, ack_rel, nonces, now_ms));
    }

    /// Sends what can be sent.
    pub fn flush<C>(&mut self, now_ms: u64, ctx: &mut C) where C: HostContext
        requires
            old(self).wf(),
            is_time(now_ms),
        ensures
            final(self).wf(),
            old(self)@.on_flush().ends_in(
                now_ms,
                final(self)@,
                old(ctx).actions(),
                final(ctx).actions(),
            ),
    {
        assert(ctx.actions() =~= ctx.actions() + Seq::empty());
        if self.state_id == StateId::Active {
            self.flush_stream(false, false, now_ms, ctx);
        }
    }

    /// Takes over the estimated retransmission timeout if this is the acknowledgement that the timer
    /// for the round trip time is waiting for.
    fn update_rtt(&mut self, segment_id: u32, now_ms: u64, rto_estimate_ms: u64)
        requires
            old(self).wf(),
        ensures
            final(self).wf(),
            final(self)@ == (EndpointState {
                rto_ms: if old(self)@.is_rtt_sample(segment_id) {
                    clamped_rto(rto_estimate_ms as int)
                } else {
                    old(self)@.rto_ms
                },
                rtt_timer: match old(self)@.rtt_timer {
                    Some(timer) => if old(self)@.is_rtt_sample(segment_id)
                        || timer.expire_time_ms <= now_ms {
                        None
                    } else {
                        Some(timer)
                    },
                    None => None,
                },
                ..old(self)@
            }),
    {
        if let Some(state) = self.rtt_timer_state {
            if segment_id == state.segment_id.wrapping_add(1) {
                // This is the ack the RTT timer is looking for
                self.rto_ms = clamp_rto(rto_estimate_ms);

                self.rtt_timer_state = None;
            } else if state.expire_time_ms <= now_ms {
                // RTT timer timed out, better luck next time
                self.rtt_timer_state = None;
            }
        }
    }

    fn update_rto_timer<C>(&mut self, segment_id: u32, now_ms: u64, ctx: &mut C) where
        C: HostContext,

        requires
            old(self).wf(),
            !(old(self)@.state_id is Closing),
            is_time(now_ms),
        ensures
            final(self).wf(),
            ({
                let caught_up = segment_id == old(self)@.segment_tx.next_id;
                let rto_ms = old(self)@.rto_ms;
                &&& final(self)@ == (EndpointState {
                    rto_timer: if old(self)@.rto_timer is None || caught_up {
                        None
                    } else {
                        Some(RtoTimerState { rto_ms, rto_sum_ms: 0 })
                    },
                    ..old(self)@
                })
                &&& final(ctx).actions() == old(ctx).actions() + if old(self)@.rto_timer is None {
                    Seq::empty()
                } else if caught_up {
                    seq![HostAction::UnsetRtoTimer]
                } else {
                    seq![HostAction::SetRtoTimer((now_ms + rto_ms) as u64)]
                }
            }),
    {
        if self.rto_timer_state.is_some() {
            if segment_id == self.segment_tx.next_id() {
                // All caught up
                ctx.unset_rto_timer();
                self.rto_timer_state = None;
            } else {
                // More acks expected
                ctx.set_rto_timer(now_ms + self.rto_ms);
                self.rto_timer_state = Some(RtoTimerState { rto_ms: self.rto_ms, rto_sum_ms: 0 });
            }
        }
        proof {
            assert(old(ctx).actions() + Seq::empty() =~= old(ctx).actions());
        }
    }

    /// Takes in an acknowledgement.
    fn handle_ack<C>(&mut self, ack: &StreamAck, now_ms: u64, rto_estimate_ms: u64, ctx: &mut C) where
        C: HostContext,

        requires
            old(self).wf(),
            !(old(self)@.state_id is Closing),
            is_time(now_ms),
        ensures
            final(self).wf(),
            final(self)@ == old(self)@.after_ack(*ack, now_ms, rto_estimate_ms).state,
            final(ctx).actions() == old(ctx).actions() + old(self)@.after_ack(
                *ack,
                now_ms,
                rto_estimate_ms,
            ).actions,
    {
        proof {
            lemma_cc_ack(self@.cc);
        }
        self.cc_state.handle_ack();

        if self.segment_tx.acknowledge(
            ack.segment_id,
            ack.segment_history as u32,
            ack.segment_checksum,
        ) {
            self.cc_state.handle_drop();
        }
        self.fragment_tx.acknowledge(ack.rel_fragment_id);

        self.update_rtt(ack.segment_id, now_ms, rto_estimate_ms);
        self.update_rto_timer(ack.segment_id, now_ms, ctx);
    }

    /// Takes in all whole datagrams at the front of a segment. Returns whether there was a reliable
    /// one.
    fn receive_datagrams<C>(&mut self, segment: &[u8], ctx: &mut C) -> (any_rel: bool) where
        C: HostContext,

        requires
            old(self).wf(),
        ensures
            final(self).wf(),
            ({
                let received = old(self)@.receiving().after_segment(segment@);
                &&& final(self)@ == (EndpointState {
                    unreliable_rx: received.unreliable_rx,
                    reliable_rx: received.reliable_rx,
                    ..old(self)@
                })
                &&& final(ctx).actions() == old(ctx).actions() + received.actions
                &&& any_rel == received.any_rel
            }),
    {
        let mut frame_reader = PayloadReader::new(segment);
        let mut any_rel: bool = false;
        let ghost goal = self@.receiving().after_segment(segment@);
        let ghost mut received = self@.receiving();
        proof {
            assert(ctx.actions() =~= ctx.actions() + received.actions);
        }

        loop
            invariant
                self.wf(),
                frame_reader.wf(),
                self@ == (EndpointState {
                    unreliable_rx: received.unreliable_rx,
                    reliable_rx: received.reliable_rx,
                    ..old(self)@
                }),
                ctx.actions() == old(ctx).actions() + received.actions,
                any_rel == received.any_rel,
                goal == received.after_segment(frame_reader.rest()),
            ensures
                goal == received,
            decreases frame_reader.rest().len(),
        {
            let ghost bytes = frame_reader.rest();
            match frame_reader.read::<Datagram<'_>>() {
                Some(datagram) => {
                    let fragment = FragmentRef {
                        first: datagram.first,
                        last: datagram.last,
                        data: datagram.data,
                    };
                    let packet = if datagram.unrel {
                        self.unreliable_rx.receive(datagram.id, &fragment)
                    } else {
                        any_rel = true;
                        self.reliable_rx.receive(datagram.id, &fragment)
                    };
                    if let Some(packet) = packet {
                        ctx.on_receive(packet);
                    }
                    proof {
                        let next = received.after_datagram(datagram@);
                        assert(frame_reader.rest() == bytes.skip(
                            crate::frame::serial::DATAGRAM_HEADER_SIZE
                                + datagram@.data.len() as int,
                        ));
                        assert(ctx.actions() =~= old(ctx).actions() + next.actions);
                        received = next;
                    }
                },
                None => break,
            }
        }
        any_rel
    }

    /// Takes in the datagrams of some segments. Returns whether there was a reliable one.
    fn receive_segments<C>(&mut self, segments: &Vec<Vec<u8>>, ctx: &mut C) -> (any_rel: bool) where
        C: HostContext,

        requires
            old(self).wf(),
        ensures
            final(self).wf(),
            ({
                let received = old(self)@.receiving().after_segments(delivered_views(segments@));
                &&& final(self)@ == (EndpointState {
                    unreliable_rx: received.unreliable_rx,
                    reliable_rx: received.reliable_rx,
                    ..old(self)@
                })
                &&& final(ctx).actions() == old(ctx).actions() + received.actions
                &&& any_rel == received.any_rel
            }),
    {
        let mut any_rel: bool = false;
        let ghost views = delivered_views(segments@);
        let ghost start = self@.receiving();
        proof {
            assert(views.take(0) =~= Seq::empty());
            assert(ctx.actions() =~= ctx.actions() + start.actions);
        }
        let mut i: usize = 0;
        while i < segments.len()
            invariant
                self.wf(),
                i <= segments@.len(),
                views == delivered_views(segments@),
                start == old(self)@.receiving(),
                ({
                    let received = start.after_segments(views.take(i as int));
                    &&& self@ == (EndpointState {
                        unreliable_rx: received.unreliable_rx,
                        reliable_rx: received.reliable_rx,
                        ..old(self)@
                    })
                    &&& ctx.actions() == old(ctx).actions() + received.actions
                    &&& any_rel == received.any_rel
                }),
            decreases segments@.len() - i,
        {
            let ghost before = start.after_segments(views.take(i as int));
            let ghost bytes = segments@[i as int]@;
            let ghost here = self@.receiving();
            if self.receive_datagrams(segments[i].as_slice(), ctx) {
                any_rel = true;
            }
            proof {
                let longer = views.take(i + 1);
                assert(longer.drop_last() =~= views.take(i as int));
                assert(longer.last() == bytes);
                lemma_after_segment_offset(here, before, bytes);
                assert(ctx.actions() =~= old(ctx).actions() + start.after_segments(longer).actions);
            }
            i = i + 1;
        }
        assert(views.take(i as int) =~= views);
        any_rel
    }

    /// Takes in a segment. Returns whether a reliable datagram was delivered.
    fn handle_segment<C>(
        &mut self,
        id: u32,
        nonce: bool,
        bytes: &[u8],
        ctx: &mut C,
    ) -> (any_rel: bool) where C: HostContext
        requires
            old(self).wf(),
            bytes@.len() <= FRAME_SIZE_MAX,
        ensures
            final(self).wf(),
            ({
                let segment = Segment { id, nonce, data: bytes@ };
                let received = old(self)@.received(segment);
                let goal = old(self)@.after_segment(segment);
                &&& final(self)@ == goal.state
                &&& final(ctx).actions() == old(ctx).actions() + goal.actions
                &&& any_rel == received.any_rel
            }),
    {
        let mut delivered: Vec<Vec<u8>> = Vec::new();
        assert(delivered_views(delivered@) =~= Seq::empty());
        let _ = self.segment_rx.receive(id, nonce, bytes, &mut delivered);
        proof {
            let segment = Segment { id, nonce, data: bytes@ };
            assert(delivered_views(delivered@) =~= segment_bytes(
                old(self)@.segment_rx.delivery(segment),
            ));
            segment_rx::law_in_order_and_once(old(self)@.segment_rx, segment);
            segment_rx::lemma_after_sizes(old(self)@.segment_rx, segment);
        }
        self.receive_segments(&delivered, ctx)
    }

    /// Takes in a stream frame, which may begin with an acknowledgement, and may then hold a segment.
    fn handle_stream_frame<C>(
        &mut self,
        frame_type: FrameType,
        payload_bytes: &[u8],
        now_ms: u64,
        rto_estimate_ms: u64,
        ctx: &mut C,
    ) where C: HostContext
        requires
            old(self).wf(),
            old(self)@.state_id is Active,
            is_time(now_ms),
            payload_bytes@.len() <= FRAME_SIZE_MAX,
            frame_type is StreamSegment || frame_type is StreamAck
                || frame_type is StreamSegmentAck,
        ensures
            final(self).wf(),
            old(self)@.on_frame(frame_type, payload_bytes@, now_ms, rto_estimate_ms).ends_in(
                now_ms,
                final(self)@,
                old(ctx).actions(),
                final(ctx).actions(),
            ),
    {
        let mut frame_reader = PayloadReader::new(payload_bytes);

        let read_ack: bool = !(frame_type == FrameType::StreamSegment);
        let read_data: bool = !(frame_type == FrameType::StreamAck);

        let ghost start = ctx.actions();
        let ghost reaction = self@.on_frame(
            frame_type,
            payload_bytes@,
            now_ms,
            rto_estimate_ms,
        );
        proof {
            lemma_block_sizes();
            assert(reaction == self@.on_stream_frame(
                read_ack,
                read_data,
                payload_bytes@,
                now_ms,
                rto_estimate_ms,
            ));
            assert(start =~= start + Seq::empty());
            assert(start + (Seq::empty() + Seq::empty()) =~= start);
        }

        if read_ack {
            if let Some(ack) = frame_reader.read::<StreamAck>() {
                self.handle_ack(&ack, now_ms, rto_estimate_ms, ctx);
            } else {
                // Truncated packet?
                return;
            }
        }
        let ghost acked_actions = ctx.actions();
        assert(acked_actions + Seq::empty() =~= acked_actions);

        let mut send_ack: bool = false;
        let mut ack_rel: bool = false;

        if read_data {
            if let Some(segment_header) = frame_reader.read::<StreamSegmentHeader>() {
                let segment_bytes = frame_reader.remaining_bytes();

                ack_rel = self.handle_segment(
                    segment_header.id,
                    segment_header.nonce,
                    segment_bytes,
                    ctx,
                );
                // Always send an ack, though data may be held back until others have come in
                send_ack = true;
            }
        }
        proof {
            assert(self@ == reaction.outcome.state);
            assert(ctx.actions() =~= start + reaction.outcome.actions);
            assert(reaction.flush == Some((send_ack, ack_rel)));
        }

        self.flush_stream(send_ack, ack_rel, now_ms, ctx);
    }

    /// Takes in a sync frame.
    fn handle_stream_sync_frame<C>(&mut self, payload_bytes: &[u8], now_ms: u64, ctx: &mut C) where
        C: HostContext,

        requires
            old(self).wf(),
            is_time(now_ms),
        ensures
            final(self).wf(),
            old(self)@.on_sync(payload_bytes@).ends_in(
                now_ms,
                final(self)@,
                old(ctx).actions(),
                final(ctx).actions(),
            ),
    {
        assert(ctx.actions() + Seq::empty() =~= ctx.actions());
        if let Some(sync) = <StreamSync as SimplePayloadRead>::read(payload_bytes) {
            let mut delivered: Vec<Vec<u8>> = Vec::new();
            assert(delivered_views(delivered@) =~= Seq::empty());
            self.segment_rx.sync(sync.next_segment_id, &mut delivered);
            proof {
                let rx = old(self)@.segment_rx;
                assert(delivered_views(delivered@) =~= segment_bytes(
                    rx.sync_delivery(sync.next_segment_id),
                ));
                segment_rx::lemma_sync_sizes(rx, sync.next_segment_id);
            }
            let _ = self.receive_segments(&delivered, ctx);

            // The unreliable rx buffer may be expecting fragment IDs that are made ambiguous by
            // advancing the segment rx window. Thus, any in-progress packets must be cleared in
            // order to avoid combining unrelated fragments. Since all fragments which were not
            // delivered can be assumed to have been dropped (the sender only sends a sync frame
            // after an RTO), this will not artificially introduce data loss.
            self.unreliable_rx.reset();

            // Send an ack in response to sync
            self.flush_stream(true, true, now_ms, ctx);
        }
    }

    fn validate_close_frame(&self, payload_bytes: &[u8]) -> (valid: bool)
        ensures
            valid == self@.is_valid_close(payload_bytes@),
    {
        if let Some(frame) = <CloseFrame as SimplePayloadRead>::read(payload_bytes) {
            frame.remote_nonce == self.local_nonce
        } else {
            false
        }
    }

    fn validate_close_ack_frame(&self, payload_bytes: &[u8]) -> (valid: bool)
        ensures
            valid == self@.is_valid_close_ack(payload_bytes@),
    {
        if let Some(frame) = <CloseAckFrame as SimplePayloadRead>::read(payload_bytes) {
            frame.remote_nonce == self.local_nonce
        } else {
            false
        }
    }

    fn send_close_frame<C>(&mut self, ctx: &mut C) where C: HostContext
        requires
            old(self).wf(),
        ensures
            final(self).wf(),
            final(self)@ == old(self)@,
            final(ctx).actions() == old(ctx).actions().push(
                HostAction::SendFrame(old(self)@.close_frame()),
            ),
    {
        proof {
            lemma_frame_sizes();
        }
        let frame = CloseFrame { remote_nonce: self.remote_nonce };

        ctx.send_frame(frame.write(self.tx_buffer.as_mut_slice()));
    }

    fn send_close_ack_frame<C>(&mut self, ctx: &mut C) where C: HostContext
        requires
            old(self).wf(),
        ensures
            final(self).wf(),
            final(self)@ == old(self)@,
            final(ctx).actions() == old(ctx).actions().push(
                HostAction::SendFrame(old(self)@.close_ack_frame()),
            ),
    {
        proof {
            lemma_frame_sizes();
        }
        let frame = CloseAckFrame { remote_nonce: self.remote_nonce };

        ctx.send_frame(frame.write(self.tx_buffer.as_mut_slice()));
    }

    fn send_stream_sync_frame<C>(&mut self, next_segment_id: u32, ctx: &mut C) where C: HostContext
        requires
            old(self).wf(),
        ensures
            final(self).wf(),
            final(self)@ == old(self)@,
            final(ctx).actions() == old(ctx).actions().push(
                HostAction::SendFrame(simple_frame(StreamSync { next_segment_id })),
            ),
    {
        proof {
            lemma_frame_sizes();
        }
        let frame = StreamSync { next_segment_id };

        ctx.send_frame(frame.write(self.tx_buffer.as_mut_slice()));
    }

    fn enter_closing<C>(&mut self, now_ms: u64, ctx: &mut C) where C: HostContext
        requires
            old(self).wf(),
            old(self)@.state_id is Active,
            is_time(now_ms),
        ensures
            final(self).wf(),
            final(self)@ == old(self)@.on_disconnect(now_ms).outcome.state,
            final(ctx).actions() == old(ctx).actions() + old(self)@.on_disconnect(
                now_ms,
            ).outcome.actions,
    {
        self.state_id = StateId::Closing;

        ctx.set_rto_timer(now_ms + self.rto_ms);
        self.rto_timer_state = Some(RtoTimerState { rto_ms: self.rto_ms, rto_sum_ms: 0 });

        self.send_close_frame(ctx);
        assert(ctx.actions() =~= old(ctx).actions() + old(self)@.on_disconnect(
            now_ms,
        ).outcome.actions);
    }

    fn enter_closed<C>(&mut self, now_ms: u64, ctx: &mut C) where C: HostContext
        requires
            old(self).wf(),
            is_time(now_ms),
        ensures
            final(self).wf(),
            final(self)@ == old(self)@.after_closed(now_ms).state,
            final(ctx).actions() == old(ctx).actions() + old(self)@.after_closed(now_ms).actions,
    {
        self.state_id = StateId::Closed;
        ctx.on_disconnect();

        // Use RTO timer to leave closed state
        ctx.set_rto_timer(now_ms + DISCONNECT_TIMEOUT_MS);
        self.rto_timer_state = None;
        assert(ctx.actions() =~= old(ctx).actions() + old(self)@.after_closed(now_ms).actions);
    }

    /// Begins to close the connection.
    pub fn disconnect<C>(&mut self, now_ms: u64, ctx: &mut C) where C: HostContext
        requires
            old(self).wf(),
            is_time(now_ms),
        ensures
            final(self).wf(),
            final(self)@ == old(self)@.on_disconnect(now_ms).outcome.state,
            final(ctx).actions() == old(ctx).actions() + old(self)@.on_disconnect(
                now_ms,
            ).outcome.actions,
    {
        assert(ctx.actions() + Seq::empty() =~= ctx.actions());
        if self.state_id == StateId::Active {
            self.enter_closing(now_ms, ctx);
        }
    }

    /// Whether the clock has not gone back since the segment was sent of which the round trip time is
    /// being measured.
    pub fn can_sample_rtt(&self, now_ms: u64) -> (result: bool)
        ensures
            result == self@.can_sample_rtt(now_ms),
    {
        match self.rtt_timer_state {
            Some(state) => state.send_time_ms <= now_ms,
            None => true,
        }
    }

    /// The round trip time which a frame reveals, if it does. From it follows the estimate of the
    /// retransmission timeout that [`Endpoint::handle_frame`] takes.
    pub fn rtt_sample(&self, frame_type: FrameType, payload_bytes: &[u8], now_ms: u64) -> (sample:
        Option<u64>)
        requires
            self@.can_sample_rtt(now_ms),
        ensures
            sample == self@.rtt_sample(frame_type, payload_bytes@, now_ms),
    {
        if self.state_id != StateId::Active || (frame_type != FrameType::StreamAck && frame_type
            != FrameType::StreamSegmentAck) {
            return None;
        }
        proof {
            lemma_block_sizes();
        }
        match (PayloadReader::new(payload_bytes).read::<StreamAck>(), self.rtt_timer_state) {
            (Some(ack), Some(state)) => if ack.segment_id == state.segment_id.wrapping_add(1) {
                Some(now_ms - state.send_time_ms)
            } else {
                None
            },
            _ => None,
        }
    }

    /// Takes in a frame. If the frame reveals a round trip time, as [`Endpoint::rtt_sample`] tells,
    /// `rto_estimate_ms` is the retransmission timeout estimated from it. Otherwise it is not used.
    pub fn handle_frame<C>(
        &mut self,
        frame_type: FrameType,
        payload_bytes: &[u8],
        now_ms: u64,
        rto_estimate_ms: u64,
        ctx: &mut C,
    ) where C: HostContext
        requires
            old(self).wf(),
            is_time(now_ms),
            payload_bytes@.len() <= FRAME_SIZE_MAX,
        ensures
            final(self).wf(),
            old(self)@.on_frame(frame_type, payload_bytes@, now_ms, rto_estimate_ms).ends_in(
                now_ms,
                final(self)@,
                old(ctx).actions(),
                final(ctx).actions(),
            ),
    {
        let ghost start = ctx.actions();
        let ghost reaction = self@.on_frame(
            frame_type,
            payload_bytes@,
            now_ms,
            rto_estimate_ms,
        );
        assert(start + Seq::empty() =~= start);

        match self.state_id {
            StateId::Active => match frame_type {
                FrameType::StreamSegment
                | FrameType::StreamAck
                | FrameType::StreamSegmentAck => {
                    self.handle_stream_frame(
                        frame_type,
                        payload_bytes,
                        now_ms,
                        rto_estimate_ms,
                        ctx,
                    );
                },
                FrameType::StreamSync => {
                    self.handle_stream_sync_frame(payload_bytes, now_ms, ctx);
                },
                FrameType::Close => {
                    if self.validate_close_frame(payload_bytes) {
                        // Acknowledge
                        self.send_close_ack_frame(ctx);
                        // We are now disconnected
                        self.enter_closed(now_ms, ctx);
                        assert(ctx.actions() =~= start + reaction.outcome.actions);
                    }
                },
                _ => (),
            },
            StateId::Closing => match frame_type {
                FrameType::Close => {
                    if self.validate_close_frame(payload_bytes) {
                        // Acknowledge
                        self.send_close_ack_frame(ctx);
                        // We are now disconnected
                        self.enter_closed(now_ms, ctx);
                        assert(ctx.actions() =~= start + reaction.outcome.actions);
                    }
                },
                FrameType::CloseAck => {
                    if self.validate_close_ack_frame(payload_bytes) {
                        // We are now disconnected
                        self.enter_closed(now_ms, ctx);
                    }
                },
                _ => (),
            },
            StateId::Closed => match frame_type {
                FrameType::Close => {
                    if self.validate_close_frame(payload_bytes) {
                        // Acknowledge further requests until destruction
                        self.send_close_ack_frame(ctx);
                        assert(ctx.actions() =~= start + reaction.outcome.actions);
                    }
                },
                _ => (),
            },
            _ => (),
        }
    }

    /// Whether the timer may fire.
    pub fn expects_rto_timer(&self) -> (expected: bool)
        ensures
            expected == (self@.state_id is Active ==> self@.rto_timer is Some),
    {
        self.state_id != StateId::Active || self.rto_timer_state.is_some()
    }

    /// Takes in that the timer has fired.
    pub fn handle_rto_timer<C>(&mut self, now_ms: u64, ctx: &mut C) -> (action: TimeoutAction) where
        C: HostContext,

        requires
            old(self).wf(),
            is_time(now_ms),
            old(self)@.state_id is Active ==> old(self)@.rto_timer is Some,
        ensures
            final(self).wf(),
            (action is Terminate) == old(self)@.ends_on_timer(),
            old(self)@.on_timer(now_ms).ends_in(
                now_ms,
                final(self)@,
                old(ctx).actions(),
                final(ctx).actions(),
            ),
    {
        let ghost start = ctx.actions();
        let ghost reaction = self@.on_timer(now_ms);
        assert(start + Seq::empty() =~= start);

        match self.state_id {
            StateId::Active | StateId::Closing => {
                let (rto_ms, rto_sum_ms) = match self.rto_timer_state {
                    Some(timer_state) => (
                        timer_state.rto_ms,
                        timer_state.rto_sum_ms + timer_state.rto_ms,
                    ),
                    None => (0, 0),
                };

                if rto_sum_ms >= self.config.timeout_time_ms {
                    // No acks received for longer than user-specified timeout
                    self.rto_timer_state = Some(RtoTimerState { rto_ms, rto_sum_ms });
                    self.state_id = StateId::Zombie;
                    ctx.on_timeout();
                    assert(ctx.actions() =~= start + reaction.outcome.actions);

                    // I've seen things you people wouldn't believe... Attack ships on fire off
                    // the shoulder of Orion... I watched C-beams glitter in the dark near the
                    // Tannhauser Gate. All those moments will be lost in time, like tears in
                    // rain... Time to die.
                    return TimeoutAction::Terminate;
                }
                self.rto_ms = clamp_rto(self.rto_ms * 2);

                ctx.set_rto_timer(now_ms + self.rto_ms);
                self.rto_timer_state = Some(RtoTimerState { rto_ms: self.rto_ms, rto_sum_ms });

                if self.state_id == StateId::Active {
                    // Notify congestion control of timeout
                    self.cc_state.handle_timeout();

                    // Resend everything in the reliable queue
                    self.fragment_tx.handle_timeout();

                    // Attempt to resynchronize now that the pipe has drained
                    let next_id: u32 = self.segment_tx.next_id();
                    self.send_stream_sync_frame(next_id, ctx);
                    assert(ctx.actions() =~= start + reaction.outcome.actions);

                    // Don't waste an opportunity to send data
                    self.flush_stream(false, false, now_ms, ctx);
                } else {
                    // Send another close frame
                    self.send_close_frame(ctx);
                    assert(ctx.actions() =~= start + reaction.outcome.actions);
                }
                TimeoutAction::Continue
            },
            StateId::Closed => {
                // Finished acking resent close requests and/or soaking up stray packets
                self.state_id = StateId::Zombie;

                // (See previous)
                TimeoutAction::Terminate
            },
            _ => TimeoutAction::Continue,
        }
    }
}

/// What has come of earlier datagrams does not matter for later ones.
proof fn lemma_after_segment_offset(fresh: Received, earlier: Received, bytes: Seq<u8>)
    requires
        fresh.unreliable_rx == earlier.unreliable_rx,
        fresh.reliable_rx == earlier.reliable_rx,
    ensures
        ({
            let a = fresh.after_segment(bytes);
            let b = earlier.after_segment(bytes);
            let new_actions = a.actions.skip(fresh.actions.len() as int);
            &&& fresh.actions.len() <= a.actions.len()
            &&& a.actions == fresh.actions + new_actions
            &&& b.unreliable_rx == a.unreliable_rx
            &&& b.reliable_rx == a.reliable_rx
            &&& b.actions == earlier.actions + new_actions
            &&& !fresh.any_rel ==> b.any_rel == (earlier.any_rel || a.any_rel)
            &&& fresh.any_rel ==> a.any_rel
            &&& earlier.any_rel ==> b.any_rel
        }),
    decreases bytes.len(),
{
    match crate::frame::serial::decode_datagram(bytes) {
        Some(datagram) => {
            let rest = bytes.skip(
                crate::frame::serial::DATAGRAM_HEADER_SIZE + datagram.data.len() as int,
            );
            let f = fresh.after_datagram(datagram);
            let e = earlier.after_datagram(datagram);
            lemma_after_segment_offset(f, e, rest);
            let a = fresh.after_segment(bytes);
            let b = earlier.after_segment(bytes);
            assert(a.actions =~= fresh.actions + a.actions.skip(fresh.actions.len() as int));
            assert(b.actions =~= earlier.actions + a.actions.skip(fresh.actions.len() as int));
        },
        None => {
            assert(fresh.actions =~= fresh.actions + fresh.actions.skip(
                fresh.actions.len() as int,
            ));
            assert(earlier.actions =~= earlier.actions + fresh.actions.skip(
                fresh.actions.len() as int,
            ));
        },
    }
}

/// A retransmission timeout which is neither too short nor too long.
fn clamp_rto(estimate_ms: u64) -> (rto_ms: u64)
    ensures
        rto_ms == clamped_rto(estimate_ms as int),
{
    if estimate_ms < RTO_MIN_MS {
        RTO_MIN_MS
    } else if estimate_ms > RTO_MAX_MS {
        RTO_MAX_MS
    } else {
        estimate_ms
    }
}

} // verus!
