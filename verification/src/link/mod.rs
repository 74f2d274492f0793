//! A link: one end of a connection which sends as fast as a fixed window permits.

use vstd::prelude::*;

pub mod frame;
pub mod laws;
pub mod model;
pub mod prio;
pub mod serial;
pub mod window;

use crate::buffer::{
    FragmentRef, ReliableRxBuffer, ReliableTxBuffer, UnreliableRxBuffer, UnreliableTxBuffer,
};
use crate::endpoint::segment_tx::total;
use crate::frame::serial::{encode_datagram, BlockSerial};
use crate::frame::Datagram;
use crate::SendMode;
use frame::{FrameType, StreamAck, StreamDataHeader};
use model::{HostAction, LinkState, Outcome, QueueState};
use prio::{SendModeType, TxPrioState};
use serial::{
    frame_bytes, frame_payload, frame_type, law_ack_round_trip, lemma_header_size, type_byte,
    FrameReader, FrameWriter,
};
use window::{FrameRxWindow, FrameTxWindow, TxWindowState};

verus! {

pub const FRAME_SIZE_MAX: usize = 1478;

pub const FRAGMENT_SIZE: usize = 1478;

pub const FRAGMENT_WINDOW_SIZE: u32 = 1024;

pub const FRAME_WINDOW_SIZE: u32 = 20;

pub const CONGESTION_WINDOW: usize = 15000;

pub const INITIAL_TIMEOUT_MS: u64 = 500;

#[derive(Debug, Clone, Copy, PartialEq, Eq, Structural)]
pub enum TimerName {
    /// Resend time out (no ack from remote)
    Rto,
    /// When to skip a hole in the reorder buffer
    Receive,
}

/// The host of a link, which does what the link cannot do on its own.
pub trait HostContext {
    /// All that has been asked of the host so far.
    spec fn actions(&self) -> Seq<HostAction>;

    /// Called to send a frame to the remote host.
    fn send_frame(&mut self, frame_bytes: &[u8])
        ensures
            final(self).actions() == old(self).actions().push(HostAction::SendFrame(frame_bytes@)),
    ;

    /// Called to set the given timer
    fn set_timer(&mut self, timer: TimerName, time_ms: u64)
        ensures
            final(self).actions() == old(self).actions().push(HostAction::SetTimer(timer, time_ms)),
    ;

    /// Called to unset the given timer
    fn unset_timer(&mut self, timer: TimerName)
        ensures
            final(self).actions() == old(self).actions().push(HostAction::UnsetTimer(timer)),
    ;

    /// Called when the connection has been successfully initialized
    fn on_connect(&mut self)
        ensures
            final(self).actions() == old(self).actions().push(HostAction::Connect),
    ;

    /// Called when the connection has been terminated gracefully
    fn on_disconnect(&mut self)
        ensures
            final(self).actions() == old(self).actions().push(HostAction::Disconnect),
    ;

    /// Called when a packet has been received from the remote host
    fn on_receive(&mut self, packet_bytes: Box<[u8]>)
        ensures
            final(self).actions() == old(self).actions().push(HostAction::Receive(packet_bytes@)),
    ;

    /// Called when the connection has been terminated due to a timeout
    fn on_timeout(&mut self)
        ensures
            final(self).actions() == old(self).actions().push(HostAction::Timeout),
    ;
}

/// What a link has asked for.
pub enum Action {
    SendFrame(Vec<u8>),
    SetTimer(TimerName, u64),
    UnsetTimer(TimerName),
    Connect,
    Disconnect,
    Receive(Box<[u8]>),
    Timeout,
}

impl View for Action {
    type V = HostAction;

    open spec fn view(&self) -> HostAction {
        match *self {
            Action::SendFrame(frame) => HostAction::SendFrame(frame@),
            Action::SetTimer(timer, time_ms) => HostAction::SetTimer(timer, time_ms),
            Action::UnsetTimer(timer) => HostAction::UnsetTimer(timer),
            Action::Connect => HostAction::Connect,
            Action::Disconnect => HostAction::Disconnect,
            Action::Receive(packet) => HostAction::Receive(packet@),
            Action::Timeout => HostAction::Timeout,
        }
    }
}

/// Writes down what a link asks for, in order.
pub struct ActionLog {
    pub actions: Vec<Action>,
}

impl ActionLog {
    pub fn new() -> (log: Self)
        ensures
            log.actions() == Seq::<HostAction>::empty(),
    {
        let log = Self { actions: Vec::new() };
        assert(log.actions() =~= Seq::empty());
        log
    }

    fn push(&mut self, action: Action)
        ensures
            final(self).actions() == old(self).actions().push(action@),
    {
        self.actions.push(action);
        assert(self.actions() =~= old(self).actions().push(action@));
    }
}

impl HostContext for ActionLog {
    open spec fn actions(&self) -> Seq<HostAction> {
        self.actions@.map_values(|action: Action| action@)
    }

    fn send_frame(&mut self, frame_bytes: &[u8]) {
        self.push(Action::SendFrame(vstd::slice::slice_to_vec(frame_bytes)));
    }

    fn set_timer(&mut self, timer: TimerName, time_ms: u64) {
        self.push(Action::SetTimer(timer, time_ms));
    }

    fn unset_timer(&mut self, timer: TimerName) {
        self.push(Action::UnsetTimer(timer));
    }

    fn on_connect(&mut self) {
        self.push(Action::Connect);
    }

    fn on_disconnect(&mut self) {
        self.push(Action::Disconnect);
    }

    fn on_receive(&mut self, packet_bytes: Box<[u8]>) {
        self.push(Action::Receive(packet_bytes));
    }

    fn on_timeout(&mut self) {
        self.push(Action::Timeout);
    }
}

/// The fragments waiting to be sent.
struct Queues {
    prio_state: TxPrioState,
    unreliable_tx: UnreliableTxBuffer,
    reliable_tx: ReliableTxBuffer,
}

impl Queues {
    spec fn view(&self) -> QueueState {
        QueueState {
            unrel: self.unreliable_tx@,
            rel: self.reliable_tx@,
            prio: self.prio_state,
        }
    }

    /// Writes the next datagram, if there is one and room for it. Returns the amount of data in it.
    fn fill_one(&mut self, writer: &mut FrameWriter<'_>) -> (written: Option<usize>)
        requires
            old(self).view().wf(),
            old(writer).wf(),
        ensures
            final(self).view().wf(),
            final(writer).wf(),
            final(writer).buffer@.len() == old(writer).buffer@.len(),
            final(final(writer).buffer)@ == final(old(writer).buffer)@,
            ({
                let queues = old(self).view();
                let bytes = encode_datagram(queues.next_datagram());
                if queues.has_data() && bytes.len() <= old(writer).room() {
                    &&& written == Some(queues.next_datagram().data.len() as usize)
                    &&& final(self).view() == queues.after_send()
                    &&& final(writer).content() == old(writer).content() + bytes
                } else {
                    &&& written is None
                    &&& final(self).view() == queues
                    &&& final(writer).content() == old(writer).content()
                }
            }),
    {
        let ghost queues = self.view();
        let unrel_next = self.unreliable_tx.peek_sendable();
        let rel_next = self.reliable_tx.peek_sendable();

        // Query prio state before sending each fragment
        let mode = match self.prio_state.next_mode() {
            SendModeType::Unreliable => if unrel_next.is_some() {
                SendModeType::Unreliable
            } else {
                SendModeType::Reliable
            },
            SendModeType::Reliable => if rel_next.is_some() {
                SendModeType::Reliable
            } else {
                SendModeType::Unreliable
            },
        };
        let unrel: bool = mode == SendModeType::Unreliable;
        let next = if unrel {
            unrel_next
        } else {
            rel_next
        };
        assert(mode == queues.next_mode());

        match next {
            Some((id, fragment)) => {
                let data: &[u8] = fragment.borrowed().data;
                let datagram = Datagram {
                    id,
                    unrel,
                    first: fragment.first,
                    last: fragment.last,
                    data,
                };
                assert(datagram@ == queues.next_datagram());
                let size: usize = data.len();

                if !writer.write(&datagram) {
                    // Frame finished, send what we have
                    return None;
                }
                if unrel {
                    let _ = self.unreliable_tx.pop_sendable();
                } else {
                    let _ = self.reliable_tx.pop_sendable();
                }
                proof {
                    let (w_r, w_u) = (self.prio_state.w_r, self.prio_state.w_u);
                    assert(size * w_r <= 1478 * 255 && size * w_u <= 1478 * 255)
                        by (nonlinear_arith)
                        requires
                            size <= 1478,
                            w_r <= 255,
                            w_u <= 255,
                    ;
                }
                self.prio_state.mark_sent_on(mode, size);
                Some(size)
            },
            // No more data to be sent
            None => None,
        }
    }

    /// Writes datagrams to a frame for as long as there is one, and room for it. Returns the amount
    /// of data in them.
    fn fill(&mut self, writer: &mut FrameWriter<'_>) -> (data_size_total: usize)
        requires
            old(self).view().wf(),
            old(writer).wf(),
        ensures
            final(self).view().wf(),
            final(writer).wf(),
            final(writer).buffer@.len() == old(writer).buffer@.len(),
            final(final(writer).buffer)@ == final(old(writer).buffer)@,
            ({
                let filled = old(self).view().filled(old(writer).room());
                &&& final(self).view() == filled.queues
                &&& final(writer).content() == old(writer).content() + filled.bytes
                &&& data_size_total == filled.size
            }),
            data_size_total <= old(writer).room(),
    {
        let mut data_size_total: usize = 0;
        let capacity: usize = writer.buffer.len();
        let ghost goal = self.view().filled(writer.room());
        let ghost room = writer.room();
        let ghost mut written: Seq<u8> = Seq::empty();
        proof {
            assert(writer.content() =~= writer.content() + written);
            assert(written + goal.bytes =~= goal.bytes);
        }
        loop
            invariant_except_break
                goal.queues == self.view().filled(writer.room()).queues,
                goal.bytes == written + self.view().filled(writer.room()).bytes,
                goal.size == data_size_total + self.view().filled(writer.room()).size,
            invariant
                self.view().wf(),
                writer.wf(),
                writer.buffer@.len() == old(writer).buffer@.len(),
                final(writer.buffer)@ == final(old(writer).buffer)@,
                writer.content() == old(writer).content() + written,
                written.len() == room - writer.room(),
                room == old(writer).room(),
                data_size_total <= written.len(),
                room <= capacity,
            ensures
                self.view() == goal.queues,
                written == goal.bytes,
                data_size_total == goal.size,
            decreases writer.room(),
        {
            let ghost bytes = encode_datagram(self.view().next_datagram());
            let ghost rest = self.view().filled(writer.room());
            let ghost content = writer.content();
            match self.fill_one(writer) {
                Some(size) => {
                    assert(writer.content().len() == content.len() + bytes.len());
                    data_size_total = data_size_total + size;
                    proof {
                        assert(old(writer).content() + written + bytes =~= old(writer).content() + (
                        written + bytes));
                        assert(written + rest.bytes =~= (written + bytes) + self.view().filled(
                            writer.room(),
                        ).bytes);
                        written = written + bytes;
                    }
                },
                None => {
                    assert(written + rest.bytes =~= written);
                    break;
                },
            }
        }
        data_size_total
    }
}

/// One end of a connection.
pub struct Endpoint {
    // Sender state
    tx_window: FrameTxWindow,
    rx_window: FrameRxWindow,
    cwnd: usize,
    queues: Queues,
    tx_buffer: Vec<u8>,
    // Receiver state
    unreliable_rx: UnreliableRxBuffer,
    reliable_rx: ReliableRxBuffer,
}

impl View for Endpoint {
    type V = LinkState;

    closed spec fn view(&self) -> LinkState {
        LinkState {
            tx_window: self.tx_window@,
            rx_window: self.rx_window,
            cwnd: self.cwnd,
            queues: self.queues.view(),
            unrel_rx: self.unreliable_rx@,
            rel_rx: self.reliable_rx@,
        }
    }
}

/// The state of a link which has not sent or received anything.
pub open spec fn initial_state() -> LinkState {
    LinkState {
        tx_window: TxWindowState {
            base_id: 0,
            next_id: 0,
            size: FRAME_WINDOW_SIZE,
            transit: Seq::empty(),
        },
        rx_window: FrameRxWindow { base_id: 0, size: FRAME_WINDOW_SIZE },
        cwnd: CONGESTION_WINDOW,
        queues: QueueState {
            unrel: crate::buffer::unreliable::TxState {
                queue: Seq::empty(),
                next_id: 0,
                fragment_size: FRAGMENT_SIZE as nat,
            },
            rel: crate::buffer::reliable::TxState {
                fragments: Seq::empty(),
                base_id: 0,
                window_size: FRAGMENT_WINDOW_SIZE,
                fragment_size: FRAGMENT_SIZE as nat,
                next_send_id: 0,
                min_ack_id: 0,
                duplicate_acks: 0,
            },
            prio: TxPrioState { counter: 0, w_r: 1, w_u: 2, sat_r: 10_000, sat_u: 20_000 },
        },
        unrel_rx: crate::buffer::unreliable::RxState {
            fragment_size: FRAGMENT_SIZE as nat,
            next_id: 0,
            build: None,
        },
        rel_rx: crate::buffer::reliable::RxState {
            fragment_size: FRAGMENT_SIZE as nat,
            next_id: 0,
            build: None,
        },
    }
}

impl Endpoint {
    pub closed spec fn inv(&self) -> bool {
        self.tx_window.wf() && self.tx_buffer@.len() == FRAME_SIZE_MAX
    }

    pub open spec fn wf(&self) -> bool {
        self.inv() && self@.wf()
    }

    pub fn new() -> (endpoint: Self)
        ensures
            endpoint.wf(),
            endpoint@ == initial_state(),
    {
        Self {
            tx_window: FrameTxWindow::new(0, FRAME_WINDOW_SIZE),
            rx_window: FrameRxWindow::new(0, FRAME_WINDOW_SIZE),
            cwnd: CONGESTION_WINDOW,
            queues: Queues {
                prio_state: TxPrioState::new(1, 2, 10_000, 20_000),
                unreliable_tx: UnreliableTxBuffer::new(0, FRAGMENT_SIZE),
                reliable_tx: ReliableTxBuffer::new(0, FRAGMENT_WINDOW_SIZE, FRAGMENT_SIZE),
            },
            tx_buffer: vec![0; FRAME_SIZE_MAX],
            unreliable_rx: UnreliableRxBuffer::new(0, FRAGMENT_SIZE),
            reliable_rx: ReliableRxBuffer::new(0, FRAGMENT_SIZE),
        }
    }

    /// The connection is up.
    pub fn init<C>(&mut self, now_ms: u64, ctx: &mut C) where C: HostContext
        requires
            now_ms + INITIAL_TIMEOUT_MS <= u64::MAX,
        ensures
            *final(self) == *old(self),
            final(ctx).actions() == old(ctx).actions() + seq![
                HostAction::Connect,
                HostAction::SetTimer(TimerName::Rto, (now_ms + INITIAL_TIMEOUT_MS) as u64),
            ],
    {
        ctx.on_connect();
        ctx.set_timer(TimerName::Rto, now_ms + INITIAL_TIMEOUT_MS);
        assert(ctx.actions() =~= old(ctx).actions() + seq![
            HostAction::Connect,
            HostAction::SetTimer(TimerName::Rto, (now_ms + INITIAL_TIMEOUT_MS) as u64),
        ]);
    }

    /// Sends a packet, as far as possible.
    pub fn send<C>(&mut self, packet_bytes: Box<[u8]>, mode: SendMode, ctx: &mut C) where
        C: HostContext,

        requires
            old(self).wf(),
        ensures
            final(self).wf(),
            final(self)@ == old(self)@.after_send(packet_bytes@, mode).state,
            final(ctx).actions() == old(ctx).actions() + old(self)@.after_send(
                packet_bytes@,
                mode,
            ).actions,
    {
        match mode {
            SendMode::Reliable => {
                self.queues.reliable_tx.push(packet_bytes);
            },
            SendMode::Unreliable(_) => {
                self.queues.unreliable_tx.push(packet_bytes, u64::MAX);
            },
        }
        self.actual_flush(false, false, true, ctx);
    }

    /// Sends one frame, which holds an acknowledgement, or data, or both.
    fn send_one<C>(
        &mut self,
        send_ack: bool,
        send_data: bool,
        ack_unrel: bool,
        ack_rel: bool,
        ctx: &mut C,
    ) where C: HostContext
        requires
            old(self).wf(),
            send_ack || send_data,
            send_data ==> old(self)@.can_send_data(),
        ensures
            final(self).wf(),
            final(self)@ == old(self)@.after_frame(send_ack, send_data),
            final(ctx).actions() == old(ctx).actions().push(
                HostAction::SendFrame(
                    old(self)@.next_frame(send_ack, send_data, ack_unrel, ack_rel),
                ),
            ),
    {
        let ghost before = self@;
        let frame_type = if !send_data {
            FrameType::StreamAck
        } else if send_ack {
            FrameType::StreamDataAck
        } else {
            FrameType::StreamData
        };
        proof {
            lemma_header_size();
        }
        let ghost head = seq![type_byte(frame_type)];
        let ghost mut ack_bytes: Seq<u8> = Seq::empty();
        let ghost mut data_bytes: Seq<u8> = Seq::empty();

        if let Some(writer) = FrameWriter::new(self.tx_buffer.as_mut_slice(), frame_type) {
            let mut frame_writer = writer;
            if send_ack {
                let ack = StreamAck {
                    data_id: self.rx_window.next_expected_id(),
                    unrel_id: if ack_unrel {
                        Some(self.unreliable_rx.next_expected_id())
                    } else {
                        None
                    },
                    rel_id: if ack_rel {
                        Some(self.reliable_rx.next_expected_id())
                    } else {
                        None
                    },
                };
                proof {
                    ack_bytes = ack.encode();
                    law_ack_round_trip(ack, Seq::empty());
                }
                let _ = frame_writer.write(&ack);
                assert(frame_writer.content() =~= head + ack_bytes);
            }
            assert(frame_writer.content() =~= head + ack_bytes);

            if send_data {
                let header = StreamDataHeader { id: self.tx_window.next_id() };
                proof {
                    header.round_trip(Seq::empty());
                }
                let _ = frame_writer.write(&header);
                assert(frame_writer.content().len() == 1 + ack_bytes.len() + header.encode().len());
                assert(frame_writer.room() == LinkState::data_room(send_ack));

                let data_size_total: usize = self.queues.fill(&mut frame_writer);
                self.tx_window.mark_sent(data_size_total);
                proof {
                    lemma_total_push(before.tx_window.transit, data_size_total);
                    data_bytes = header.encode() + before.filling(send_ack).bytes;
                    assert(frame_writer.content() =~= head + (ack_bytes + data_bytes));
                }
            }
            assert(frame_writer.content() =~= head + (ack_bytes + data_bytes));
            let frame = frame_writer.finalize();
            assert(frame@ == before.next_frame(send_ack, send_data, ack_unrel, ack_rel));

            ctx.send_frame(frame);
        }
    }

    /// Sends what can be sent, after an acknowledgement of what has been received, if any is due.
    pub fn actual_flush<C>(
        &mut self,
        ack_unrel: bool,
        ack_rel: bool,
        try_send_data: bool,
        ctx: &mut C,
    ) where C: HostContext
        requires
            old(self).wf(),
        ensures
            final(self).wf(),
            final(self)@ == old(self)@.after_flush(ack_unrel, ack_rel, try_send_data).state,
            final(ctx).actions() == old(ctx).actions() + old(self)@.after_flush(
                ack_unrel,
                ack_rel,
                try_send_data,
            ).actions,
    {
        let mut send_ack: bool = ack_unrel || ack_rel;
        let ghost goal = self@.after_flush(ack_unrel, ack_rel, try_send_data);
        let ghost start = ctx.actions();

        loop
            invariant_except_break
                goal.state == self@.flushed(send_ack, ack_unrel, ack_rel, try_send_data).state,
                start + goal.actions == ctx.actions() + self@.flushed(
                    send_ack,
                    ack_unrel,
                    ack_rel,
                    try_send_data,
                ).actions,
            invariant
                self.wf(),
            ensures
                self@ == goal.state,
                ctx.actions() == start + goal.actions,
            decreases
                    self@.tx_window.size - self@.tx_window.transit.len(),
                    if send_ack {
                        1int
                    } else {
                        0int
                    },
        {
            let frame_window_limited: bool = !self.tx_window.can_send();
            let congestion_window_limited: bool = self.tx_window.bytes_in_transit() >= self.cwnd;
            let unrel_data_ready: bool = self.queues.unreliable_tx.peek_sendable().is_some();
            let rel_data_ready: bool = self.queues.reliable_tx.peek_sendable().is_some();
            let data_ready: bool = unrel_data_ready || rel_data_ready;

            let send_data: bool = try_send_data && !frame_window_limited
                && !congestion_window_limited && data_ready;

            let ghost rest = self@.flushed(send_ack, ack_unrel, ack_rel, try_send_data);
            if !send_ack && !send_data {
                assert(ctx.actions() + rest.actions =~= ctx.actions());
                break;
            }
            let ghost before = ctx.actions();
            self.send_one(send_ack, send_data, ack_unrel, ack_rel, ctx);
            // Only append one ack per flush
            send_ack = false;
            assert(before + rest.actions =~= ctx.actions() + self@.flushed(
                false,
                ack_unrel,
                ack_rel,
                try_send_data,
            ).actions);
        }
    }

    /// Takes in some datagrams. Returns whether there has been an unreliable one, and a reliable
    /// one.
    fn receive_datagrams<C>(&mut self, frame_reader: &mut FrameReader<'_>, ctx: &mut C) -> (any: (
        bool,
        bool,
    )) where C: HostContext
        requires
            old(self).wf(),
            old(frame_reader).wf(),
        ensures
            final(self).wf(),
            ({
                let received = old(self)@.receiving().after_bytes(old(frame_reader).rest());
                &&& any == (received.any_unrel, received.any_rel)
                &&& final(self)@ == (LinkState {
                    unrel_rx: received.unrel_rx,
                    rel_rx: received.rel_rx,
                    ..old(self)@
                })
                &&& final(ctx).actions() == old(ctx).actions() + received.actions
            }),
    {
        let mut ack_unrel: bool = false;
        let mut ack_rel: bool = false;
        let ghost start = ctx.actions();
        let ghost goal = self@.receiving().after_bytes(frame_reader.rest());
        let ghost mut now = self@.receiving();
        assert(start + now.actions =~= start);

        loop
            invariant_except_break
                goal == now.after_bytes(frame_reader.rest()),
            invariant
                self.wf(),
                frame_reader.wf(),
                self@ == (LinkState {
                    unrel_rx: now.unrel_rx,
                    rel_rx: now.rel_rx,
                    ..old(self)@
                }),
                ack_unrel == now.any_unrel,
                ack_rel == now.any_rel,
                ctx.actions() == start + now.actions,
            ensures
                goal == now,
            decreases frame_reader.rest().len(),
        {
            let ghost before = now;
            match frame_reader.read::<Datagram>() {
                Some(datagram) => {
                    let fragment = FragmentRef {
                        first: datagram.first,
                        last: datagram.last,
                        data: datagram.data,
                    };
                    let packet = if datagram.unrel {
                        ack_unrel = true;
                        self.unreliable_rx.receive(datagram.id, &fragment)
                    } else {
                        ack_rel = true;
                        self.reliable_rx.receive(datagram.id, &fragment)
                    };
                    if let Some(packet) = packet {
                        ctx.on_receive(packet);
                    }
                    proof {
                        now = before.after_datagram(datagram@);
                        assert(ctx.actions() =~= start + now.actions);
                    }
                },
                None => break,
            }
        }
        (ack_unrel, ack_rel)
    }

    /// Takes in a stream frame.
    fn handle_primary<C>(
        &mut self,
        frame_reader: &mut FrameReader<'_>,
        frame_type: FrameType,
        ctx: &mut C,
    ) where C: HostContext
        requires
            old(self).wf(),
            old(frame_reader).wf(),
            frame_type is StreamData || frame_type is StreamAck || frame_type is StreamDataAck,
        ensures
            final(self).wf(),
            final(self)@ == old(self)@.after_payload(frame_type, old(frame_reader).rest()).state,
            final(ctx).actions() == old(ctx).actions() + old(self)@.after_payload(
                frame_type,
                old(frame_reader).rest(),
            ).actions,
    {
        let read_ack: bool = frame_type != FrameType::StreamData;
        let read_data: bool = frame_type != FrameType::StreamAck;
        proof {
            lemma_header_size();
        }
        let ghost payload = frame_reader.rest();
        let ghost start = ctx.actions();

        if read_ack {
            if let Some(stream_ack) = frame_reader.read::<StreamAck>() {
                let _ = self.tx_window.acknowledge(stream_ack.data_id);
                proof {
                    lemma_total_skip(
                        old(self)@.tx_window.transit,
                        crate::id::delta(stream_ack.data_id, old(self)@.tx_window.base_id),
                    );
                }
                if let Some(rel_id) = stream_ack.rel_id {
                    let _ = self.queues.reliable_tx.acknowledge(rel_id);
                }
            }
        }
        let mut ack_unrel: bool = false;
        let mut ack_rel: bool = false;
        let ghost acked = self@;
        let ghost rest = frame_reader.rest();
        assert(acked.receiving().actions =~= Seq::empty());
        assert(ctx.actions() + Seq::empty() =~= ctx.actions());

        if read_data {
            if let Some(stream_data_header) = frame_reader.read::<StreamDataHeader>() {
                if self.rx_window.can_receive(stream_data_header.id) {
                    self.rx_window.mark_received(stream_data_header.id);

                    let any = self.receive_datagrams(frame_reader, ctx);
                    ack_unrel = any.0;
                    ack_rel = any.1;
                }
            }
            assert(self@ == acked.after_data(rest));
            assert(ctx.actions() == start + acked.received(rest).actions);
        }
        self.actual_flush(ack_unrel, ack_rel, read_ack, ctx);
        assert(ctx.actions() =~= start + old(self)@.after_payload(frame_type, payload).actions);
    }

    /// Takes in a frame.
    pub fn handle_frame<C>(&mut self, frame_bytes: &[u8], ctx: &mut C) where C: HostContext
        requires
            old(self).wf(),
        ensures
            final(self).wf(),
            ({
                let outcome = match frame_type(frame_bytes@) {
                    Some(kind) => old(self)@.after_payload(kind, frame_payload(frame_bytes@)),
                    None => Outcome { state: old(self)@, actions: Seq::empty() },
                };
                &&& final(self)@ == outcome.state
                &&& final(ctx).actions() == old(ctx).actions() + outcome.actions
            }),
    {
        assert(ctx.actions() + Seq::empty() =~= ctx.actions());
        if let Some((reader, kind)) = FrameReader::new(frame_bytes) {
            let mut frame_reader = reader;
            match kind {
                FrameType::StreamData | FrameType::StreamAck | FrameType::StreamDataAck => {
                    self.handle_primary(&mut frame_reader, kind, ctx);
                },
                _ => (),
            }
        }
    }

    /// Takes in that a timer has fired. Nothing comes of it.
    pub fn handle_timer<C>(&mut self, _timer: TimerName, _now_ms: u64, _ctx: &mut C) where
        C: HostContext,

        ensures
            *final(self) == *old(self),
            *final(_ctx) == *old(_ctx),
    {
    }

    /// Sends what can be sent.
    pub fn flush<C>(&mut self, ctx: &mut C) where C: HostContext
        requires
            old(self).wf(),
        ensures
            final(self).wf(),
            final(self)@ == old(self)@.after_flush(false, false, true).state,
            final(ctx).actions() == old(ctx).actions() + old(self)@.after_flush(
                false,
                false,
                true,
            ).actions,
    {
        self.actual_flush(false, false, true, ctx);
    }

    /// Gives up on the connection. The remote host is not told.
    pub fn disconnect<C>(&mut self, _ctx: &mut C) where C: HostContext
        ensures
            *final(self) == *old(self),
            *final(_ctx) == *old(_ctx),
    {
    }
}

proof fn lemma_total_push(sizes: Seq<usize>, size: usize)
    ensures
        total(sizes.push(size)) == total(sizes) + size,
{
    assert(sizes.push(size).drop_last() =~= sizes);
}

proof fn lemma_total_skip(sizes: Seq<usize>, n: int)
    ensures
        0 <= n <= sizes.len() ==> total(sizes.skip(n)) <= total(sizes),
    decreases sizes.len(),
{
    if 0 <= n < sizes.len() {
        assert(sizes.skip(n).drop_last() =~= sizes.drop_last().skip(n));
        lemma_total_skip(sizes.drop_last(), n);
    } else if n == sizes.len() {
        assert(sizes.skip(n) =~= Seq::empty());
    }
}

} // verus!
