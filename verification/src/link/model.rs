//! What a link does, as functions from states to states.

use vstd::prelude::*;

use super::frame::{FrameType, StreamAck, StreamDataHeader};
use super::prio::{SendModeType, TxPrioState};
use super::serial::{frame_bytes, STREAM_ACK_SIZE, STREAM_DATA_HEADER_SIZE};
use super::window::{FrameRxWindow, TxWindowState};
use super::{TimerName, FRAGMENT_SIZE, FRAME_SIZE_MAX};
use crate::buffer::reliable::{RxState as ReliableRxState, TxState as ReliableTxState};
use crate::buffer::unreliable::{
    queued, RxState as UnreliableRxState, TxState as UnreliableTxState,
};
use crate::buffer::fragments_of;
use crate::endpoint::segment_tx::total;
use crate::frame::serial::{
    decode_datagram, encode_datagram, BlockSerial, DATAGRAM_HEADER_SIZE, FRAME_OVERHEAD_SIZE,
};
use crate::frame::DatagramView;
use crate::SendMode;

verus! {

/// What a link asks of its host.
pub enum HostAction {
    /// To send a frame to the remote host.
    SendFrame(Seq<u8>),
    /// To call back at a given time.
    SetTimer(TimerName, u64),
    /// Not to call back any more.
    UnsetTimer(TimerName),
    /// To announce that the connection is up.
    Connect,
    /// To announce that the connection has been terminated gracefully.
    Disconnect,
    /// To hand out a packet.
    Receive(Seq<u8>),
    /// To announce that the remote host has gone silent.
    Timeout,
}

/// The fragments waiting to be sent.
pub struct QueueState {
    pub unrel: UnreliableTxState,
    pub rel: ReliableTxState,
    pub prio: TxPrioState,
}

/// What happens when datagrams are written to a frame.
pub struct Filled {
    pub queues: QueueState,
    /// The datagrams written.
    pub bytes: Seq<u8>,
    /// The amount of data in these datagrams.
    pub size: nat,
}

impl QueueState {
    pub open spec fn wf(self) -> bool {
        &&& self.unrel.wf()
        &&& self.rel.wf()
        &&& self.prio.wf()
        &&& self.unrel.fragment_size == FRAGMENT_SIZE
        &&& self.rel.fragment_size == FRAGMENT_SIZE
    }

    pub open spec fn has_data(self) -> bool {
        self.unrel.queue.len() > 0 || self.rel.can_send()
    }

    /// The channel which sends next: the one whose turn it is, or the other if that one has nothing
    /// to send.
    pub open spec fn next_mode(self) -> SendModeType {
        if self.prio.mode() is Unreliable {
            if self.unrel.queue.len() > 0 {
                SendModeType::Unreliable
            } else {
                SendModeType::Reliable
            }
        } else {
            if self.rel.can_send() {
                SendModeType::Reliable
            } else {
                SendModeType::Unreliable
            }
        }
    }

    /// The datagram which is sent next.
    pub open spec fn next_datagram(self) -> DatagramView {
        let unrel = self.next_mode() is Unreliable;
        let fragment = if unrel {
            self.unrel.queue[0].fragment
        } else {
            self.rel.next_fragment()
        };
        DatagramView {
            id: if unrel {
                self.unrel.next_id
            } else {
                self.rel.next_send_id
            },
            unrel,
            first: fragment.first,
            last: fragment.last,
            data: fragment.bytes(),
        }
    }

    /// The state once the next datagram has been sent.
    pub open spec fn after_send(self) -> QueueState {
        let unrel = self.next_mode() is Unreliable;
        QueueState {
            unrel: if unrel {
                self.unrel.after_send()
            } else {
                self.unrel
            },
            rel: if unrel {
                self.rel
            } else {
                self.rel.after_send()
            },
            prio: self.prio.after_sent(self.next_mode(), self.next_datagram().data.len() as int),
        }
    }

    /// Writes datagrams for as long as there is one, and room for it.
    pub open spec fn filled(self, room: int) -> Filled
        decreases room,
    {
        let datagram = self.next_datagram();
        let bytes = encode_datagram(datagram);
        if self.has_data() && bytes.len() <= room {
            let rest = self.after_send().filled(room - bytes.len());
            Filled {
                queues: rest.queues,
                bytes: bytes + rest.bytes,
                size: datagram.data.len() + rest.size,
            }
        } else {
            Filled { queues: self, bytes: Seq::empty(), size: 0 }
        }
    }

    pub open spec fn after_push(self, packet: Seq<u8>, mode: SendMode) -> QueueState {
        match mode {
            SendMode::Reliable => QueueState {
                rel: ReliableTxState {
                    fragments: self.rel.fragments + fragments_of(packet, self.rel.fragment_size),
                    ..self.rel
                },
                ..self
            },
            SendMode::Unreliable(_) => QueueState {
                unrel: UnreliableTxState {
                    queue: self.unrel.queue + queued(
                        fragments_of(packet, self.unrel.fragment_size),
                        u64::MAX,
                    ),
                    ..self.unrel
                },
                ..self
            },
        }
    }
}

/// The receive buffers on the way through some datagrams, and what has come of them.
pub struct Received {
    pub unrel_rx: UnreliableRxState,
    pub rel_rx: ReliableRxState,
    pub actions: Seq<HostAction>,
    /// Whether there has been an unreliable datagram.
    pub any_unrel: bool,
    /// Whether there has been a reliable one.
    pub any_rel: bool,
}

impl Received {
    /// The packet which a datagram completes, if it does.
    pub open spec fn packet(self, datagram: DatagramView) -> Option<Seq<u8>> {
        if datagram.unrel {
            self.unrel_rx.delivery(datagram.id, datagram.first, datagram.last, datagram.data)
        } else {
            self.rel_rx.delivery(datagram.id, datagram.last, datagram.data)
        }
    }

    pub open spec fn after_datagram(self, datagram: DatagramView) -> Received {
        Received {
            unrel_rx: if datagram.unrel {
                self.unrel_rx.after(datagram.id, datagram.first, datagram.last, datagram.data)
            } else {
                self.unrel_rx
            },
            rel_rx: if datagram.unrel {
                self.rel_rx
            } else {
                self.rel_rx.after(datagram.id, datagram.last, datagram.data)
            },
            actions: match self.packet(datagram) {
                Some(packet) => self.actions.push(HostAction::Receive(packet)),
                None => self.actions,
            },
            any_unrel: self.any_unrel || datagram.unrel,
            any_rel: self.any_rel || !datagram.unrel,
        }
    }

    /// Takes in all whole datagrams at the front of some bytes.
    pub open spec fn after_bytes(self, bytes: Seq<u8>) -> Received
        decreases bytes.len(),
    {
        match decode_datagram(bytes) {
            Some(datagram) => self.after_datagram(datagram).after_bytes(
                bytes.skip(DATAGRAM_HEADER_SIZE + datagram.data.len() as int),
            ),
            None => self,
        }
    }
}

/// What a [`Endpoint`](super::Endpoint) holds.
pub struct LinkState {
    pub tx_window: TxWindowState,
    pub rx_window: FrameRxWindow,
    pub cwnd: usize,
    pub queues: QueueState,
    pub unrel_rx: UnreliableRxState,
    pub rel_rx: ReliableRxState,
}

/// A new state, and what is asked of the host on the way to it.
pub struct Outcome {
    pub state: LinkState,
    pub actions: Seq<HostAction>,
}

impl LinkState {
    pub open spec fn wf(self) -> bool {
        &&& self.tx_window.wf()
        &&& total(self.tx_window.transit) <= self.cwnd + FRAME_SIZE_MAX
        &&& self.cwnd <= 0x1000_0000
        &&& self.queues.wf()
        &&& self.unrel_rx.wf()
        &&& self.rel_rx.wf()
    }

    /// Whether a data frame can be sent: neither the window of frames nor the congestion window is
    /// exhausted, and there is a fragment to send.
    pub open spec fn can_send_data(self) -> bool {
        &&& self.tx_window.can_send()
        &&& total(self.tx_window.transit) < self.cwnd
        &&& self.queues.has_data()
    }

    /// The acknowledgement of what has been received so far.
    pub open spec fn next_ack(self, ack_unrel: bool, ack_rel: bool) -> StreamAck {
        StreamAck {
            data_id: self.rx_window.base_id,
            unrel_id: if ack_unrel {
                Some(self.unrel_rx.next_id)
            } else {
                None
            },
            rel_id: if ack_rel {
                Some(self.rel_rx.next_id)
            } else {
                None
            },
        }
    }

    /// How many bytes of datagrams a frame can hold.
    pub open spec fn data_room(send_ack: bool) -> int {
        FRAME_SIZE_MAX - FRAME_OVERHEAD_SIZE - STREAM_DATA_HEADER_SIZE - if send_ack {
            STREAM_ACK_SIZE as int
        } else {
            0
        }
    }

    /// The datagrams which go into a frame.
    pub open spec fn filling(self, send_ack: bool) -> Filled {
        self.queues.filled(Self::data_room(send_ack))
    }

    /// The frame which is sent next, and which holds an acknowledgement, or data, or both.
    pub open spec fn next_frame(
        self,
        send_ack: bool,
        send_data: bool,
        ack_unrel: bool,
        ack_rel: bool,
    ) -> Seq<u8> {
        let ack_bytes = if send_ack {
            self.next_ack(ack_unrel, ack_rel).encode()
        } else {
            Seq::empty()
        };
        let data_bytes = if send_data {
            StreamDataHeader { id: self.tx_window.next_id }.encode() + self.filling(send_ack).bytes
        } else {
            Seq::empty()
        };
        let kind = if !send_data {
            FrameType::StreamAck
        } else if send_ack {
            FrameType::StreamDataAck
        } else {
            FrameType::StreamData
        };
        frame_bytes(kind, ack_bytes + data_bytes)
    }

    /// The state once that frame has been sent.
    pub open spec fn after_frame(self, send_ack: bool, send_data: bool) -> LinkState {
        if send_data {
            LinkState {
                tx_window: self.tx_window.after_sent(self.filling(send_ack).size as usize),
                queues: self.filling(send_ack).queues,
                ..self
            }
        } else {
            self
        }
    }

    /// Sends all frames which can be sent. Only the first holds an acknowledgement.
    pub open spec fn flushed(
        self,
        send_ack: bool,
        ack_unrel: bool,
        ack_rel: bool,
        try_send_data: bool,
    ) -> Outcome
        decreases
                self.tx_window.size - self.tx_window.transit.len(),
                if send_ack {
                    1int
                } else {
                    0int
                },
    {
        let send_data = try_send_data && self.can_send_data();
        if send_ack || send_data {
            let frame = self.next_frame(send_ack, send_data, ack_unrel, ack_rel);
            let rest = self.after_frame(send_ack, send_data).flushed(
                false,
                ack_unrel,
                ack_rel,
                try_send_data,
            );
            Outcome {
                state: rest.state,
                actions: seq![HostAction::SendFrame(frame)] + rest.actions,
            }
        } else {
            Outcome { state: self, actions: Seq::empty() }
        }
    }

    /// Sends what can be sent, after an acknowledgement of what has been received, if any is due.
    pub open spec fn after_flush(
        self,
        ack_unrel: bool,
        ack_rel: bool,
        try_send_data: bool,
    ) -> Outcome {
        self.flushed(ack_unrel || ack_rel, ack_unrel, ack_rel, try_send_data)
    }

    pub open spec fn after_send(self, packet: Seq<u8>, mode: SendMode) -> Outcome {
        LinkState { queues: self.queues.after_push(packet, mode), ..self }.after_flush(
            false,
            false,
            true,
        )
    }

    /// Takes in an acknowledgement.
    pub open spec fn after_ack(self, ack: StreamAck) -> LinkState {
        LinkState {
            tx_window: self.tx_window.after_ack(ack.data_id),
            queues: QueueState {
                rel: match ack.rel_id {
                    Some(id) => self.queues.rel.after_ack(id),
                    None => self.queues.rel,
                },
                ..self.queues
            },
            ..self
        }
    }

    /// The receive buffers before any datagram.
    pub open spec fn receiving(self) -> Received {
        Received {
            unrel_rx: self.unrel_rx,
            rel_rx: self.rel_rx,
            actions: Seq::empty(),
            any_unrel: false,
            any_rel: false,
        }
    }

    /// What comes of the part of a frame after the acknowledgement.
    pub open spec fn received(self, payload: Seq<u8>) -> Received {
        if payload.len() >= STREAM_DATA_HEADER_SIZE && self.rx_window.has(
            StreamDataHeader::decode(payload).id,
        ) {
            self.receiving().after_bytes(payload.skip(STREAM_DATA_HEADER_SIZE as int))
        } else {
            self.receiving()
        }
    }

    /// Takes in that part.
    pub open spec fn after_data(self, payload: Seq<u8>) -> LinkState {
        let received = self.received(payload);
        let header = StreamDataHeader::decode(payload);
        LinkState {
            rx_window: if payload.len() >= STREAM_DATA_HEADER_SIZE && self.rx_window.has(
                header.id,
            ) {
                FrameRxWindow { base_id: header.id.wrapping_add(1), size: self.rx_window.size }
            } else {
                self.rx_window
            },
            unrel_rx: received.unrel_rx,
            rel_rx: received.rel_rx,
            ..self
        }
    }

    /// Takes in a stream frame.
    pub open spec fn after_primary(
        self,
        has_ack: bool,
        has_data: bool,
        payload: Seq<u8>,
    ) -> Outcome {
        let whole = has_ack && payload.len() >= STREAM_ACK_SIZE;
        let acked = if whole {
            self.after_ack(StreamAck::decode(payload))
        } else {
            self
        };
        let rest = if whole {
            payload.skip(StreamAck::decoded_size(payload))
        } else {
            payload
        };
        if has_data {
            let received = acked.received(rest);
            let flushed = acked.after_data(rest).after_flush(
                received.any_unrel,
                received.any_rel,
                has_ack,
            );
            Outcome { state: flushed.state, actions: received.actions + flushed.actions }
        } else {
            acked.after_flush(false, false, has_ack)
        }
    }

    /// Takes in the payload of a frame.
    pub open spec fn after_payload(self, frame_type: FrameType, payload: Seq<u8>) -> Outcome {
        match frame_type {
            FrameType::StreamData => self.after_primary(false, true, payload),
            FrameType::StreamAck => self.after_primary(true, false, payload),
            FrameType::StreamDataAck => self.after_primary(true, true, payload),
            _ => Outcome { state: self, actions: Seq::empty() },
        }
    }
}

} // verus!
