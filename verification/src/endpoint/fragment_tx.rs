//! The queues of fragments waiting to be sent.

use vstd::prelude::*;

use super::prio::{Config, Prio, PrioState, DATA_SIZE_MAX};
use crate::buffer::reliable::TxState as ReliableTxState;
use crate::buffer::unreliable::{queued, unexpired, Queued, TxState as UnreliableTxState};
use crate::buffer::{fragments_of, ReliableTxBuffer, UnreliableTxBuffer};
use crate::frame::serial::{encode_datagram, FrameWriter, Serial, DATAGRAM_HEADER_SIZE};
use crate::frame::{Datagram, DatagramView};
use crate::SendMode;

verus! {

/// The channel of unreliable fragments.
pub const UNRELIABLE: u8 = 0;

/// The channel of reliable fragments.
pub const RELIABLE: u8 = 1;

/// The queues of both channels, which share the connection.
pub struct FragmentTxBuffers {
    unrel: UnreliableTxBuffer,
    rel: ReliableTxBuffer,
    prio: Prio,
}

/// What a [`FragmentTxBuffers`] holds.
pub struct FragmentTxState {
    pub unrel: UnreliableTxState,
    pub rel: ReliableTxState,
    pub prio: PrioState,
}

/// What happens when datagrams are written to a frame.
pub struct Flushed {
    pub state: FragmentTxState,
    /// The datagrams written.
    pub bytes: Seq<u8>,
    /// The amount of data in these datagrams.
    pub size: nat,
}

impl FragmentTxState {
    pub open spec fn wf(self) -> bool {
        &&& self.unrel.wf()
        &&& self.rel.wf()
        &&& self.prio.wf()
        &&& self.unrel.fragment_size <= DATA_SIZE_MAX
        &&& self.rel.fragment_size <= DATA_SIZE_MAX
    }

    /// The state once expired fragments are dropped.
    pub open spec fn current(self, now_ms: u64) -> FragmentTxState {
        FragmentTxState {
            unrel: UnreliableTxState { queue: unexpired(self.unrel.queue, now_ms), ..self.unrel },
            ..self
        }
    }

    /// Whether a fragment can be sent.
    pub open spec fn has_data(self) -> bool {
        self.unrel.queue.len() > 0 || self.rel.can_send()
    }

    /// The channel which is to send next.
    pub open spec fn next_channel(self) -> u8 {
        if self.unrel.queue.len() > 0 && (!self.rel.can_send() || self.prio.counters[0]
            <= self.prio.counters[1]) {
            UNRELIABLE
        } else {
            RELIABLE
        }
    }

    /// The datagram which is to be sent next.
    pub open spec fn next_datagram(self) -> DatagramView {
        let unrel = self.next_channel() == UNRELIABLE;
        let fragment = if unrel {
            self.unrel.queue[0].fragment
        } else {
            self.rel.next_fragment()
        };
        DatagramView {
            id: if unrel {
                self.unrel.next_id
            } else {
                self.rel.next_send_id
            },
            unrel,
            first: fragment.first,
            last: fragment.last,
            data: fragment.bytes(),
        }
    }

    /// The state once the next datagram has been sent.
    pub open spec fn after_send(self) -> FragmentTxState {
        let channel = self.next_channel();
        FragmentTxState {
            unrel: if channel == UNRELIABLE {
                self.unrel.after_send()
            } else {
                self.unrel
            },
            rel: if channel == UNRELIABLE {
                self.rel
            } else {
                self.rel.after_send()
            },
            prio: self.prio.after_sent(channel as int, self.next_datagram().data.len() as int),
        }
    }

    /// Writes datagrams for as long as there is one, and room for it.
    pub open spec fn flushed(self, room: int, now_ms: u64) -> Flushed
        decreases room,
    {
        let state = self.current(now_ms);
        let datagram = state.next_datagram();
        let bytes = encode_datagram(datagram);
        if state.has_data() && bytes.len() <= room {
            let rest = state.after_send().flushed(room - bytes.len(), now_ms);
            Flushed {
                state: rest.state,
                bytes: bytes + rest.bytes,
                size: datagram.data.len() + rest.size,
            }
        } else {
            Flushed { state, bytes: Seq::empty(), size: 0 }
        }
    }

    /// The state once a packet has been enqueued.
    pub open spec fn after_enqueue(self, packet: Seq<u8>, mode: SendMode, now_ms: u64) -> FragmentTxState {
        match mode {
            SendMode::Reliable => FragmentTxState {
                rel: ReliableTxState {
                    fragments: self.rel.fragments + fragments_of(packet, self.rel.fragment_size),
                    ..self.rel
                },
                ..self
            },
            SendMode::Unreliable(timeout_ms) => FragmentTxState {
                unrel: UnreliableTxState {
                    queue: self.unrel.queue + queued(
                        fragments_of(packet, self.unrel.fragment_size),
                        (now_ms + timeout_ms + 1) as u64,
                    ),
                    ..self.unrel
                },
                ..self
            },
        }
    }

    /// The state once a fragment acknowledgement has come in, if there is one.
    pub open spec fn after_ack(self, rel_fragment_id: Option<u32>) -> FragmentTxState {
        match rel_fragment_id {
            Some(id) => FragmentTxState { rel: self.rel.after_ack(id), ..self },
            None => self,
        }
    }

    /// The state once no acknowledgement has come in for too long.
    pub open spec fn after_timeout(self) -> FragmentTxState {
        FragmentTxState {
            rel: ReliableTxState { next_send_id: self.rel.base_id, ..self.rel },
            ..self
        }
    }
}

impl View for FragmentTxBuffers {
    type V = FragmentTxState;

    closed spec fn view(&self) -> FragmentTxState {
        FragmentTxState { unrel: self.unrel@, rel: self.rel@, prio: self.prio@ }
    }
}

/// Sending changes no sizes.
pub(crate) proof fn lemma_flushed_sizes(state: FragmentTxState, room: int, now_ms: u64)
    ensures
        state.flushed(room, now_ms).state.unrel.fragment_size == state.unrel.fragment_size,
        state.flushed(room, now_ms).state.rel.fragment_size == state.rel.fragment_size,
    decreases room,
{
    let current = state.current(now_ms);
    let bytes = encode_datagram(current.next_datagram());
    if current.has_data() && bytes.len() <= room {
        lemma_flushed_sizes(current.after_send(), room - bytes.len(), now_ms);
    }
}

/// A datagram takes more bytes than its data.
proof fn lemma_datagram_len(datagram: DatagramView)
    ensures
        encode_datagram(datagram).len() == DATAGRAM_HEADER_SIZE + datagram.data.len(),
{
}

impl FragmentTxBuffers {
    pub fn new(
        window_base_id: u32,
        window_size: u32,
        fragment_size: usize,
        prio_config: Config,
    ) -> (buffers: Self)
        requires
            window_size > 0,
            0 < fragment_size <= DATA_SIZE_MAX,
            prio_config@.wf(),
        ensures
            buffers@.wf(),
            buffers@ == (FragmentTxState {
                unrel: UnreliableTxState {
                    queue: Seq::empty(),
                    next_id: window_base_id,
                    fragment_size: fragment_size as nat,
                },
                rel: ReliableTxState {
                    fragments: Seq::empty(),
                    base_id: window_base_id,
                    window_size,
                    fragment_size: fragment_size as nat,
                    next_send_id: window_base_id,
                    min_ack_id: window_base_id,
                    duplicate_acks: 0,
                },
                prio: PrioState { counters: seq![0u32, 0, 0, 0], config: prio_config@ },
            }),
    {
        Self {
            unrel: UnreliableTxBuffer::new(window_base_id, fragment_size),
            rel: ReliableTxBuffer::new(window_base_id, window_size, fragment_size),
            prio: Prio::new(prio_config),
        }
    }

    /// Enqueues a packet.
    pub fn enqueue(&mut self, packet_bytes: Box<[u8]>, mode: SendMode, now_ms: u64)
        requires
            old(self)@.wf(),
            mode matches SendMode::Unreliable(timeout_ms) ==> now_ms + timeout_ms + 1 <= u64::MAX,
        ensures
            final(self)@.wf(),
            final(self)@ == old(self)@.after_enqueue(packet_bytes@, mode, now_ms),
    {
        match mode {
            SendMode::Reliable => {
                self.rel.push(packet_bytes);
            },
            SendMode::Unreliable(timeout_ms) => {
                // The timeout field is the minimum amount of time for which a packet should be
                // sent, when possible
                self.unrel.push(packet_bytes, now_ms + timeout_ms as u64 + 1);
            },
        }
    }

    /// Takes in the acknowledgement of all reliable fragments before a given one.
    pub fn acknowledge(&mut self, rel_fragment_id: Option<u32>)
        requires
            old(self)@.wf(),
        ensures
            final(self)@.wf(),
            final(self)@ == old(self)@.after_ack(rel_fragment_id),
    {
        if let Some(id) = rel_fragment_id {
            let _ = self.rel.acknowledge(id);
        }
    }

    /// Restarts sending of reliable fragments.
    pub fn handle_timeout(&mut self)
        requires
            old(self)@.wf(),
        ensures
            final(self)@.wf(),
            final(self)@ == old(self)@.after_timeout(),
    {
        self.rel.resend_all();
    }

    /// Whether there is a fragment to be sent. Drops expired ones.
    pub fn data_ready(&mut self, now_ms: u64) -> (ready: bool)
        requires
            old(self)@.wf(),
        ensures
            final(self)@.wf(),
            final(self)@ == old(self)@.current(now_ms),
            ready == final(self)@.has_data(),
    {
        self.unrel.pop_expired(now_ms);

        self.unrel.peek_sendable().is_some() || self.rel.peek_sendable().is_some()
    }

    /// Writes the next datagram, if there is one and room for it. Returns the amount of data in it.
    fn flush_one(&mut self, writer: &mut FrameWriter<'_>, now_ms: u64) -> (written: Option<usize>)
        requires
            old(self)@.wf(),
            old(writer).wf(),
        ensures
            final(self)@.wf(),
            final(writer).wf(),
            final(writer).buffer@.len() == old(writer).buffer@.len(),
            final(final(writer).buffer)@ == final(old(writer).buffer)@,
            ({
                let state = old(self)@.current(now_ms);
                let bytes = encode_datagram(state.next_datagram());
                if state.has_data() && bytes.len() <= old(writer).room() {
                    &&& written == Some(state.next_datagram().data.len() as usize)
                    &&& final(self)@ == state.after_send()
                    &&& final(writer).content() == old(writer).content() + bytes
                } else {
                    &&& written is None
                    &&& final(self)@ == state
                    &&& final(writer).content() == old(writer).content()
                }
            }),
    {
        self.unrel.pop_expired(now_ms);
        let ghost state = self@;

        let unrel_next = self.unrel.peek_sendable();
        let rel_next = self.rel.peek_sendable();

        let next_channel_idx = self.prio.next(
            unrel_next.is_some(),
            rel_next.is_some(),
            false,
            false,
        );

        let channel_idx: u8 = match next_channel_idx {
            Some(channel_idx) => channel_idx,
            // No more data to send
            None => return None,
        };

        proof {
            let ready = seq![unrel_next.is_some(), rel_next.is_some(), false, false];
            assert(state.prio.is_next(ready, channel_idx as int));
            assert(ready[0] == (state.unrel.queue.len() > 0));
            assert(ready[1] == state.rel.can_send());
            assert(!ready[2] && !ready[3]);
            assert(channel_idx == state.next_channel());
        }

        let next = if channel_idx == UNRELIABLE {
            unrel_next
        } else {
            rel_next
        };

        match next {
            Some((id, fragment)) => {
                let data: &[u8] = fragment.borrowed().data;
                let datagram = Datagram {
                    id,
                    unrel: channel_idx == UNRELIABLE,
                    first: fragment.first,
                    last: fragment.last,
                    data,
                };
                assert(datagram@ == state.next_datagram());
                let data_size: usize = data.len();

                if writer.write(&datagram) {
                    self.prio.mark_sent(channel_idx, data_size);

                    if channel_idx == UNRELIABLE {
                        let _ = self.unrel.pop_sendable();
                    } else {
                        let _ = self.rel.pop_sendable();
                    }
                    return Some(data_size);
                }
                // No more datagrams can be written

                None
            },
            None => None,
        }
    }

    /// Writes datagrams to a frame for as long as there is one, and room for it. Returns the amount
    /// of data in them.
    pub fn flush(&mut self, writer: &mut FrameWriter<'_>, now_ms: u64) -> (data_size_total: usize)
        requires
            old(self)@.wf(),
            old(writer).wf(),
        ensures
            final(self)@.wf(),
            final(writer).wf(),
            final(writer).buffer@.len() == old(writer).buffer@.len(),
            final(final(writer).buffer)@ == final(old(writer).buffer)@,
            ({
                let flushed = old(self)@.flushed(old(writer).room(), now_ms);
                &&& final(self)@ == flushed.state
                &&& final(writer).content() == old(writer).content() + flushed.bytes
                &&& data_size_total == flushed.size
            }),
            data_size_total <= old(writer).room(),
    {
        let mut data_size_total: usize = 0;
        let capacity: usize = writer.buffer.len();
        let ghost goal = self@.flushed(writer.room(), now_ms);
        let ghost room = writer.room();
        let ghost mut written: Seq<u8> = Seq::empty();
        proof {
            assert(writer.content() =~= writer.content() + written);
            assert(written + goal.bytes =~= goal.bytes);
        }

        loop
            invariant_except_break
                goal.state == self@.flushed(writer.room(), now_ms).state,
                goal.bytes == written + self@.flushed(writer.room(), now_ms).bytes,
                goal.size == data_size_total + self@.flushed(writer.room(), now_ms).size,
            invariant
                self@.wf(),
                writer.wf(),
                writer.buffer@.len() == old(writer).buffer@.len(),
                final(writer.buffer)@ == final(old(writer).buffer)@,
                writer.content() == old(writer).content() + written,
                written.len() == room - writer.room(),
                room == old(writer).room(),
                data_size_total <= written.len(),
                room <= capacity,
            ensures
                self@ == goal.state,
                written == goal.bytes,
                data_size_total == goal.size,
            decreases writer.room(),
        {
            let ghost state = self@.current(now_ms);
            let ghost bytes = encode_datagram(state.next_datagram());
            let ghost rest = self@.flushed(writer.room(), now_ms);
            let ghost content = writer.content();
            proof {
                lemma_datagram_len(state.next_datagram());
            }

            match self.flush_one(writer, now_ms) {
                Some(data_size) => {
                    assert(writer.content().len() == content.len() + bytes.len());
                    data_size_total = data_size_total + data_size;
                    proof {
                        assert(old(writer).content() + written + bytes =~= old(writer).content() + (
                        written + bytes));
                        assert(written + rest.bytes =~= (written + bytes) + self@.flushed(
                            writer.room(),
                            now_ms,
                        ).bytes);
                        written = written + bytes;
                    }
                },
                None => {
                    assert(written + rest.bytes =~= written);
                    break;
                },
            }
        }

        return data_size_total;
    }
}

proof fn lemma_all_expire_together(queue: Seq<Queued>, expire_time_ms: u64, now_ms: u64)
    requires
        forall|i: int| 0 <= i < queue.len() ==> (#[trigger] queue[i]).expire_time_ms == expire_time_ms,
    ensures
        unexpired(queue, now_ms).len() == if now_ms < expire_time_ms {
            queue.len()
        } else {
            0
        },
    decreases queue.len(),
{
    if queue.len() > 0 && expire_time_ms <= now_ms {
        assert forall|i: int| 0 <= i < queue.skip(1).len() implies (#[trigger] queue.skip(
            1,
        )[i]).expire_time_ms == expire_time_ms by {
            assert(queue.skip(1)[i] == queue[i + 1]);
        }
        lemma_all_expire_together(queue.skip(1), expire_time_ms, now_ms);
    }
}

/// An unreliable packet can be sent for exactly as long as its sender wishes. A reliable one can be
/// sent at any time.
pub proof fn law_packets_stay_for_their_time(
    state: FragmentTxState,
    packet: Seq<u8>,
    timeout_ms: u16,
    now_ms: u64,
    later_ms: u64,
)
    requires
        state.wf(),
        state.unrel.queue.len() == 0,
        state.rel.fragments.len() == 0,
        state.rel.next_send_id == state.rel.base_id,
        now_ms + timeout_ms + 1 <= u64::MAX,
        now_ms <= later_ms,
    ensures
        ({
            let unreliable = state.after_enqueue(packet, SendMode::Unreliable(timeout_ms), now_ms);
            let reliable = state.after_enqueue(packet, SendMode::Reliable, now_ms);
            &&& unreliable.current(later_ms).has_data() == (later_ms <= now_ms + timeout_ms)
            &&& reliable.current(later_ms).has_data()
        }),
{
    let expire_time_ms = (now_ms + timeout_ms + 1) as u64;
    let unreliable = state.after_enqueue(packet, SendMode::Unreliable(timeout_ms), now_ms);
    assert(fragments_of(packet, state.unrel.fragment_size).len() > 0);
    assert(fragments_of(packet, state.rel.fragment_size).len() > 0);
    assert forall|i: int| 0 <= i < unreliable.unrel.queue.len() implies (
    #[trigger] unreliable.unrel.queue[i]).expire_time_ms == expire_time_ms by {}
    lemma_all_expire_together(unreliable.unrel.queue, expire_time_ms, later_ms);
}

} // verus!
