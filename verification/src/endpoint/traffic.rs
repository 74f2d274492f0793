//! What becomes of packets on their way from one end of a connection to the other.

use vstd::prelude::*;

use super::fragment_tx::FragmentTxState;
use super::laws::{after_datagrams, flushed_datagrams, is_in_step, lemma_current_round_trip};
use super::lifecycle::stream_type;
use super::model::{EndpointState, HostAction, Received};
use super::segment_rx::{lemma_expected, segment_bytes, Segment};
use super::segment_tx::total;
use super::{is_time, FRAGMENT_SIZE, FRAME_SIZE_MAX};
use crate::buffer::flow;
use crate::buffer::reliable::{RxState as ReliableRxState, TxState as ReliableTxState};
use crate::buffer::stream::{
    handed_out, is_on_track, law_packets_in_order, law_receiver_follows_stream, law_stream_fits,
    lemma_handed_out_prefix, lemma_next_id, sends_stream, stream_of,
};
use crate::buffer::unreliable::{
    Queued, RxState as UnreliableRxState, TxState as UnreliableTxState,
};
use crate::frame::serial::{
    encode_datagram, frame_payload, frame_type, is_intact, law_frame_round_trip, lemma_block_sizes,
    BlockSerial, DATAGRAM_HEADER_SIZE, STREAM_ACK_SIZE, STREAM_SEGMENT_HEADER_SIZE,
};
use crate::frame::{DatagramView, FrameType, StreamAck, StreamSegmentHeader};
use crate::id::{advance, delta, lemma_advance_sum, lemma_delta_advance};

verus! {

/// The packets which are handed out, in order.
pub open spec fn packets_of(actions: Seq<HostAction>) -> Seq<Seq<u8>>
    decreases actions.len(),
{
    if actions.len() == 0 {
        Seq::empty()
    } else {
        let before = packets_of(actions.drop_last());
        match actions.last() {
            HostAction::Receive(packet) => before.push(packet),
            _ => before,
        }
    }
}

pub(crate) proof fn lemma_packets_sum(a: Seq<HostAction>, b: Seq<HostAction>)
    ensures
        packets_of(a + b) == packets_of(a) + packets_of(b),
    decreases b.len(),
{
    if b.len() == 0 {
        assert(a + b =~= a);
        assert(packets_of(a) + packets_of(b) =~= packets_of(a));
    } else {
        assert((a + b).drop_last() =~= a + b.drop_last());
        lemma_packets_sum(a, b.drop_last());
        assert(packets_of(a + b) =~= packets_of(a) + packets_of(b));
    }
}

/// No packet comes of an acknowledgement.
proof fn lemma_ack_hands_out_nothing(
    state: EndpointState,
    ack: StreamAck,
    now_ms: u64,
    rto_estimate_ms: u64,
)
    ensures
        packets_of(state.after_ack(ack, now_ms, rto_estimate_ms).actions).len() == 0,
{
    reveal_with_fuel(packets_of, 2);
}

/// An acknowledgement and a segment which share a frame have the effects which they have in frames
/// of their own: what an endpoint receives does not depend on whether an acknowledgement comes
/// along, and what is acknowledged does not depend on whether a segment does.
pub proof fn law_ack_and_segment_share_a_frame(
    state: EndpointState,
    payload: Seq<u8>,
    now_ms: u64,
    rto_estimate_ms: u64,
)
    requires
        state.state_id is Active,
        payload.len() >= STREAM_ACK_SIZE,
    ensures
        ({
            let front = payload.take(STREAM_ACK_SIZE as int);
            let rest = payload.skip(STREAM_ACK_SIZE as int);
            let both = state.on_frame(FrameType::StreamSegmentAck, payload, now_ms, rto_estimate_ms);
            let acked = state.on_frame(FrameType::StreamAck, front, now_ms, rto_estimate_ms);
            let taken = state.on_frame(FrameType::StreamSegment, rest, now_ms, rto_estimate_ms);
            let after = both.outcome.state;
            &&& after.segment_rx == taken.outcome.state.segment_rx
            &&& after.reliable_rx == taken.outcome.state.reliable_rx
            &&& after.unreliable_rx == taken.outcome.state.unreliable_rx
            &&& after.segment_tx == acked.outcome.state.segment_tx
            &&& after.fragment_tx == acked.outcome.state.fragment_tx
            &&& after.cc == acked.outcome.state.cc
            &&& after.rto_ms == acked.outcome.state.rto_ms
            &&& after.rto_timer == acked.outcome.state.rto_timer
            &&& after.rtt_timer == acked.outcome.state.rtt_timer
            &&& after.state_id is Active
            &&& after.timeout_time_ms == state.timeout_time_ms
            &&& both.outcome.actions == acked.outcome.actions + taken.outcome.actions
            &&& packets_of(both.outcome.actions) == packets_of(taken.outcome.actions)
            &&& both.flush == taken.flush
            &&& acked.flush is Some
        }),
{
    let front = payload.take(STREAM_ACK_SIZE as int);
    let rest = payload.skip(STREAM_ACK_SIZE as int);
    let ack = StreamAck::decode(payload);
    assert(StreamAck::decode(front) == ack);
    lemma_ack_hands_out_nothing(state, ack, now_ms, rto_estimate_ms);
    let acked = state.after_ack(ack, now_ms, rto_estimate_ms);
    let taken = state.on_frame(FrameType::StreamSegment, rest, now_ms, rto_estimate_ms);
    assert(acked.state.receiving() == state.receiving());
    assert(Seq::<HostAction>::empty() + taken.outcome.actions =~= taken.outcome.actions);
    lemma_packets_sum(acked.actions, taken.outcome.actions);
    assert(packets_of(acked.actions) + packets_of(taken.outcome.actions) =~= packets_of(
        taken.outcome.actions,
    ));
}

/// A datagram only concerns the channel to which it belongs, and what comes of it does not depend
/// on anything else which is received.
pub proof fn law_channels_do_not_meddle(a: Received, b: Received, datagram: DatagramView)
    requires
        datagram.unrel ==> a.unreliable_rx == b.unreliable_rx,
        !datagram.unrel ==> a.reliable_rx == b.reliable_rx,
    ensures
        ({
            let x = a.after_datagram(datagram);
            let y = b.after_datagram(datagram);
            &&& datagram.unrel ==> {
                &&& x.reliable_rx == a.reliable_rx
                &&& x.unreliable_rx == y.unreliable_rx
                &&& x.any_rel == a.any_rel
            }
            &&& !datagram.unrel ==> {
                &&& x.unreliable_rx == a.unreliable_rx
                &&& x.reliable_rx == y.reliable_rx
                &&& x.any_rel
            }
            &&& x.actions.skip(a.actions.len() as int) == y.actions.skip(b.actions.len() as int)
            &&& a.actions.is_prefix_of(x.actions)
            &&& x.actions.len() <= a.actions.len() + 1
        }),
{
    let x = a.after_datagram(datagram);
    let y = b.after_datagram(datagram);
    assert(x.actions.skip(a.actions.len() as int) =~= y.actions.skip(b.actions.len() as int));
}

pub(crate) proof fn lemma_flushed_len(state: FragmentTxState, room: int, now_ms: u64)
    requires
        room >= 0,
    ensures
        state.flushed(room, now_ms).bytes.len() <= room,
    decreases room,
{
    let current = state.current(now_ms);
    let bytes = encode_datagram(current.next_datagram());
    if current.has_data() && bytes.len() <= room {
        lemma_flushed_len(current.after_send(), room - bytes.len(), now_ms);
    }
}

/// What comes of a segment which is expected while none is held back.
proof fn lemma_expected_segment(b: EndpointState, header: StreamSegmentHeader, bytes: Seq<u8>)
    requires
        b.segment_rx.wf(),
        header.id == b.segment_rx.base_id,
        b.segment_rx.pending.len() == 0,
        b.segment_rx.window_size > 0,
    ensures
        ({
            let reaction = b.on_segment(header.encode() + bytes);
            let taken = b.receiving().after_segment(bytes);
            &&& reaction.outcome.actions == taken.actions
            &&& reaction.outcome.state.reliable_rx == taken.reliable_rx
            &&& reaction.outcome.state.unreliable_rx == taken.unreliable_rx
            &&& reaction.flush == Some((true, taken.any_rel))
            &&& reaction.outcome.state.segment_rx.base_id == advance(header.id, 1)
            &&& reaction.outcome.state.segment_rx.pending.len() == 0
            &&& reaction.outcome.state.segment_rx.window_size == b.segment_rx.window_size
            &&& reaction.outcome.state.state_id == b.state_id
        }),
{
    lemma_block_sizes();
    header.round_trip(bytes);
    let payload = header.encode() + bytes;
    assert(payload.skip(STREAM_SEGMENT_HEADER_SIZE as int) =~= bytes);
    let segment = Segment { id: header.id, nonce: header.nonce, data: bytes };
    lemma_expected(b.segment_rx, segment);
    assert(seq![segment] + b.segment_rx.pending =~= seq![segment]);
    assert(segment_bytes(seq![segment]) =~= seq![bytes]);
    reveal_with_fuel(Received::after_segments, 2);
    assert(seq![bytes].drop_last() =~= Seq::empty());
}

/// The frame which is sent last.
pub open spec fn last_frame(actions: Seq<HostAction>) -> Seq<u8> {
    actions.last()->SendFrame_0
}

/// How the other end reacts to that frame.
pub open spec fn reaction_to(
    b: EndpointState,
    actions: Seq<HostAction>,
    now_ms: u64,
    rto_estimate_ms: u64,
) -> super::model::Reaction {
    b.on_frame(
        frame_type(last_frame(actions))->0,
        frame_payload(last_frame(actions)),
        now_ms,
        rto_estimate_ms,
    )
}

/// A frame which is sent while it is expected is taken in as it was written, whether or not it
/// begins with an acknowledgement: the receiving end deals with exactly the datagrams which the
/// sending end has picked, hands out the packets which they complete, and acknowledges them. Both
/// ends go on in step.
pub proof fn law_every_frame_is_taken_in(
    a: EndpointState,
    b: EndpointState,
    send_ack: bool,
    ack_rel: bool,
    nonce: bool,
    sent_ms: u64,
    received_ms: u64,
    rto_estimate_ms: u64,
)
    requires
        a.wf(),
        b.wf(),
        is_in_step(a, b),
        a.can_send_data(sent_ms),
    ensures
        ({
            let room = EndpointState::segment_room(send_ack);
            let queues = a.fragment_tx.current(sent_ms);
            let sent = a.after_stream_frame(send_ack, ack_rel, nonce, sent_ms);
            let frame = last_frame(sent.actions);
            let reaction = reaction_to(b, sent.actions, received_ms, rto_estimate_ms);
            let taken = after_datagrams(
                b.receiving(),
                flushed_datagrams(queues, room, sent_ms),
            );
            &&& sent.actions.last() is SendFrame
            &&& is_intact(frame)
            &&& frame.len() <= FRAME_SIZE_MAX
            &&& frame_type(frame) == Some(stream_type(send_ack, true))
            &&& sent.state.fragment_tx == queues.flushed(room, sent_ms).state
            &&& packets_of(reaction.outcome.actions) == packets_of(taken.actions)
            &&& reaction.outcome.state.reliable_rx == taken.reliable_rx
            &&& reaction.outcome.state.unreliable_rx == taken.unreliable_rx
            &&& reaction.flush == Some((true, taken.any_rel))
            &&& is_in_step(sent.state, reaction.outcome.state)
        }),
{
    let room = EndpointState::segment_room(send_ack);
    let queues = a.fragment_tx.current(sent_ms);
    let flushed = queues.flushed(room, sent_ms);
    let header = StreamSegmentHeader { id: a.segment_tx.next_id, nonce };
    let ack_bytes = lemma_written_frame(a, send_ack, ack_rel, nonce, sent_ms);
    lemma_current_round_trip(a, b.receiving(), room, sent_ms);
    assert(a.current(sent_ms).fragment_tx == queues);
    lemma_read_frame(b, send_ack, ack_bytes, header, flushed.bytes, received_ms, rto_estimate_ms);
}

/// What a frame with a segment is made of.
proof fn lemma_written_frame(
    a: EndpointState,
    send_ack: bool,
    ack_rel: bool,
    nonce: bool,
    now_ms: u64,
) -> (ack_bytes: Seq<u8>)
    requires
        a.can_send_data(now_ms),
    ensures
        ({
            let room = EndpointState::segment_room(send_ack);
            let flushed = a.fragment_tx.current(now_ms).flushed(room, now_ms);
            let header = StreamSegmentHeader { id: a.segment_tx.next_id, nonce };
            let sent = a.after_stream_frame(send_ack, ack_rel, nonce, now_ms);
            let frame = last_frame(sent.actions);
            &&& sent.actions.last() is SendFrame
            &&& is_intact(frame)
            &&& frame.len() <= FRAME_SIZE_MAX
            &&& frame_type(frame) == Some(stream_type(send_ack, true))
            &&& frame_payload(frame) == ack_bytes + (header.encode() + flushed.bytes)
            &&& ack_bytes.len() == if send_ack {
                STREAM_ACK_SIZE as int
            } else {
                0
            }
            &&& sent.state.fragment_tx == flushed.state
            &&& sent.state.state_id == a.state_id
            &&& sent.state.segment_tx.next_id == advance(a.segment_tx.next_id, 1)
        }),
{
    reveal(EndpointState::after_stream_frame);
    lemma_block_sizes();
    let room = EndpointState::segment_room(send_ack);
    let flushed = a.fragment_tx.current(now_ms).flushed(room, now_ms);
    assert(a.current(now_ms).fragment_tx == a.fragment_tx.current(now_ms));
    let header = StreamSegmentHeader { id: a.segment_tx.next_id, nonce };
    let ack = a.next_ack(ack_rel);
    let ack_bytes = if send_ack {
        ack.encode()
    } else {
        Seq::empty()
    };
    let payload = ack_bytes + header.encode() + flushed.bytes;
    ack.round_trip(Seq::empty());
    header.round_trip(Seq::empty());
    lemma_flushed_len(a.fragment_tx.current(now_ms), room, now_ms);
    law_frame_round_trip(stream_type(send_ack, true), payload);
    assert(payload =~= ack_bytes + (header.encode() + flushed.bytes));
    ack_bytes
}

/// What comes of such a frame.
proof fn lemma_read_frame(
    b: EndpointState,
    has_ack: bool,
    ack_bytes: Seq<u8>,
    header: StreamSegmentHeader,
    bytes: Seq<u8>,
    now_ms: u64,
    rto_estimate_ms: u64,
)
    requires
        b.state_id is Active,
        b.segment_rx.wf(),
        header.id == b.segment_rx.base_id,
        b.segment_rx.pending.len() == 0,
        b.segment_rx.window_size > 0,
        ack_bytes.len() == if has_ack {
            STREAM_ACK_SIZE as int
        } else {
            0
        },
    ensures
        ({
            let payload = ack_bytes + (header.encode() + bytes);
            let reaction = b.on_frame(stream_type(has_ack, true), payload, now_ms, rto_estimate_ms);
            let taken = b.receiving().after_segment(bytes);
            let after = reaction.outcome.state;
            &&& packets_of(reaction.outcome.actions) == packets_of(taken.actions)
            &&& after.reliable_rx == taken.reliable_rx
            &&& after.unreliable_rx == taken.unreliable_rx
            &&& reaction.flush == Some((true, taken.any_rel))
            &&& after.segment_rx.base_id == advance(header.id, 1)
            &&& after.segment_rx.pending.len() == 0
            &&& after.segment_rx.window_size == b.segment_rx.window_size
            &&& after.state_id is Active
        }),
{
    let rest = header.encode() + bytes;
    let payload = ack_bytes + rest;
    lemma_expected_segment(b, header, bytes);
    let taken = b.on_segment(rest);
    assert(Seq::<HostAction>::empty() + taken.outcome.actions =~= taken.outcome.actions);
    if has_ack {
        assert(payload.skip(STREAM_ACK_SIZE as int) =~= rest);
        law_ack_and_segment_share_a_frame(b, payload, now_ms, rto_estimate_ms);
    } else {
        assert(payload =~= rest);
    }
}

/// Whether the reliable channel from one end to the other carries some packets. The first `base` of
/// their fragments have been acknowledged, the first `n` have been received. Before any of them
/// came in, the receiver was in the state `origin`.
pub open spec fn is_carrying(
    tx: ReliableTxState,
    rx: ReliableRxState,
    origin: ReliableRxState,
    packets: Seq<Seq<u8>>,
    base: int,
    n: int,
) -> bool {
    let stream = stream_of(packets, FRAGMENT_SIZE as nat);
    &&& origin.fragment_size == FRAGMENT_SIZE
    &&& origin.build is None
    &&& tx.wf()
    &&& tx.fragment_size == FRAGMENT_SIZE
    &&& is_on_track(tx)
    &&& sends_stream(tx, stream, origin.next_id, base)
    &&& base <= n <= base + delta(tx.min_ack_id, tx.base_id)
    &&& rx == origin.after_run(origin.next_id, stream, n as nat)
}

/// The packets which have been handed out once the first `n` fragments have been received.
pub open spec fn carried(origin: ReliableRxState, packets: Seq<Seq<u8>>, n: int) -> Seq<Seq<u8>> {
    handed_out(origin, origin.next_id, stream_of(packets, FRAGMENT_SIZE as nat), n as nat)
}

/// How many fragments lie before the one which is sent next.
pub open spec fn send_position(tx: ReliableTxState, base: int) -> int {
    base + delta(tx.next_send_id, tx.base_id)
}

/// How many fragments have been received once those from `start` up to `end` have come in.
pub open spec fn received_up_to(n: int, start: int, end: int) -> int {
    if start <= n < end {
        end
    } else {
        n
    }
}

/// The packets which a carrying channel has handed out are the first few of those which it carries,
/// and all of them once all fragments have been received.
pub proof fn law_carried_packets_are_handed_out(
    tx: ReliableTxState,
    rx: ReliableRxState,
    origin: ReliableRxState,
    packets: Seq<Seq<u8>>,
    base: int,
    n: int,
)
    requires
        is_carrying(tx, rx, origin, packets, base, n),
    ensures
        carried(origin, packets, n).is_prefix_of(packets),
        n == stream_of(packets, FRAGMENT_SIZE as nat).len() ==> carried(origin, packets, n)
            == packets,
        n == base + tx.fragments.len() ==> carried(origin, packets, n) == packets,
{
    let stream = stream_of(packets, FRAGMENT_SIZE as nat);
    law_packets_in_order(origin, packets);
    lemma_handed_out_prefix(origin, origin.next_id, stream, n as nat, stream.len());
}

/// One more fragment of the stream comes in.
proof fn lemma_carry_one(
    tx: ReliableTxState,
    received: Received,
    datagram: DatagramView,
    origin: ReliableRxState,
    packets: Seq<Seq<u8>>,
    base: int,
    n: int,
)
    requires
        is_carrying(tx, received.reliable_rx, origin, packets, base, n),
        tx.can_send(),
        !datagram.unrel,
        datagram.id == tx.next_send_id,
        datagram.last == tx.next_fragment().last,
        datagram.data == tx.next_fragment().bytes(),
    ensures
        ({
            let start = send_position(tx, base);
            let m = received_up_to(n, start, start + 1);
            let taken = received.after_datagram(datagram);
            &&& is_carrying(tx.after_send(), taken.reliable_rx, origin, packets, base, m)
            &&& send_position(tx.after_send(), base) == start + 1
            &&& carried(origin, packets, n).is_prefix_of(carried(origin, packets, m))
            &&& packets_of(taken.actions) == packets_of(received.actions) + carried(
                origin,
                packets,
                m,
            ).skip(carried(origin, packets, n).len() as int)
        }),
{
    let stream = stream_of(packets, FRAGMENT_SIZE as nat);
    let start = send_position(tx, base);
    let m = received_up_to(n, start, start + 1);
    let taken = received.after_datagram(datagram);
    law_stream_fits(packets, FRAGMENT_SIZE as nat);
    assert(tx.next_fragment() == stream[start]);
    lemma_delta_advance(tx.next_send_id, tx.base_id);
    lemma_advance_sum(origin.next_id, base, start - base);
    law_receiver_follows_stream(origin, stream, n as nat, start as nat);
    lemma_next_id(origin, stream, n as nat);
    let before = carried(origin, packets, n);
    let after = carried(origin, packets, m);
    let got = packets_of(received.actions);
    if start == n {
        assert(m == n + 1);
        if let Some(packet) = received.packet(datagram) {
            assert(after == before.push(packet));
            assert(after.skip(before.len() as int) =~= seq![packet]);
            assert(taken.actions.drop_last() =~= received.actions);
            assert(packets_of(taken.actions) =~= got + seq![packet]);
        } else {
            assert(after.skip(before.len() as int) =~= Seq::empty());
            assert(got + Seq::empty() =~= got);
        }
    } else {
        assert(datagram.id != received.reliable_rx.next_id);
        assert(received.packet(datagram) is None);
        assert(after.skip(before.len() as int) =~= Seq::empty());
        assert(got + Seq::empty() =~= got);
    }
}

/// A reliable channel goes on carrying its packets while a segment is written and taken in.
proof fn lemma_carry(
    state: FragmentTxState,
    received: Received,
    room: int,
    now_ms: u64,
    origin: ReliableRxState,
    packets: Seq<Seq<u8>>,
    base: int,
    n: int,
)
    requires
        is_carrying(state.rel, received.reliable_rx, origin, packets, base, n),
    ensures
        ({
            let sent = state.flushed(room, now_ms).state;
            let taken = after_datagrams(received, flushed_datagrams(state, room, now_ms));
            let start = send_position(state.rel, base);
            let end = send_position(sent.rel, base);
            let m = received_up_to(n, start, end);
            &&& start <= end
            &&& is_carrying(sent.rel, taken.reliable_rx, origin, packets, base, m)
            &&& carried(origin, packets, n).is_prefix_of(carried(origin, packets, m))
            &&& state.unrel.queue.len() == 0 ==> packets_of(taken.actions) == packets_of(
                received.actions,
            ) + carried(origin, packets, m).skip(carried(origin, packets, n).len() as int)
            &&& state.unrel.queue.len() == 0 ==> taken.any_rel == (received.any_rel || start < end)
        }),
    decreases room,
{
    let current = state.current(now_ms);
    let datagram = current.next_datagram();
    let size = encode_datagram(datagram).len();
    let start = send_position(state.rel, base);
    let before = carried(origin, packets, n);
    if current.has_data() && size <= room {
        let next = current.after_send();
        let others = flushed_datagrams(next, room - size, now_ms);
        assert((seq![datagram] + others).skip(1) =~= others);
        let one = received.after_datagram(datagram);
        if datagram.unrel {
            lemma_carry(next, one, room - size, now_ms, origin, packets, base, n);
            crate::buffer::unreliable::law_unexpired(state.unrel.queue, now_ms);
        } else {
            lemma_carry_one(state.rel, received, datagram, origin, packets, base, n);
            let k = received_up_to(n, start, start + 1);
            lemma_carry(next, one, room - size, now_ms, origin, packets, base, k);
            let end = send_position(state.flushed(room, now_ms).state.rel, base);
            let m = received_up_to(n, start, end);
            assert(received_up_to(k, start + 1, end) == m);
            let middle = carried(origin, packets, k);
            let after = carried(origin, packets, m);
            assert(middle =~= before + middle.skip(before.len() as int));
            assert(after.skip(before.len() as int) =~= middle.skip(before.len() as int)
                + after.skip(middle.len() as int));
            let got = packets_of(received.actions);
            assert(got + middle.skip(before.len() as int) + after.skip(middle.len() as int) =~= got
                + after.skip(before.len() as int));
        }
    } else {
        assert(before.skip(before.len() as int) =~= Seq::empty());
        assert(packets_of(received.actions) + Seq::empty() =~= packets_of(received.actions));
    }
}

/// A frame which is sent while it is expected carries the reliable channel on: the receiving end
/// has then received all fragments which the frame holds, unless earlier ones are missing, and each
/// packet is handed out as soon as its last fragment has been received, in order and once.
pub proof fn law_frames_carry_packets(
    a: EndpointState,
    b: EndpointState,
    send_ack: bool,
    ack_rel: bool,
    nonce: bool,
    sent_ms: u64,
    received_ms: u64,
    rto_estimate_ms: u64,
    origin: ReliableRxState,
    packets: Seq<Seq<u8>>,
    base: int,
    n: int,
)
    requires
        a.wf(),
        b.wf(),
        is_in_step(a, b),
        a.can_send_data(sent_ms),
        is_carrying(a.fragment_tx.rel, b.reliable_rx, origin, packets, base, n),
    ensures
        ({
            let sent = a.after_stream_frame(send_ack, ack_rel, nonce, sent_ms);
            let reaction = reaction_to(b, sent.actions, received_ms, rto_estimate_ms);
            let after = reaction.outcome.state;
            let start = send_position(a.fragment_tx.rel, base);
            let end = send_position(sent.state.fragment_tx.rel, base);
            let m = received_up_to(n, start, end);
            let is_alone = a.fragment_tx.unrel.queue.len() == 0;
            &&& is_in_step(sent.state, after)
            &&& is_carrying(sent.state.fragment_tx.rel, after.reliable_rx, origin, packets, base, m)
            &&& start <= end
            &&& is_alone ==> start < end
            &&& is_alone ==> reaction.flush == Some((true, true))
            &&& is_alone ==> carried(origin, packets, m) == carried(origin, packets, n)
                + packets_of(reaction.outcome.actions)
        }),
{
    law_every_frame_is_taken_in(
        a,
        b,
        send_ack,
        ack_rel,
        nonce,
        sent_ms,
        received_ms,
        rto_estimate_ms,
    );
    let room = EndpointState::segment_room(send_ack);
    let queues = a.fragment_tx.current(sent_ms);
    lemma_carry(queues, b.receiving(), room, sent_ms, origin, packets, base, n);
    let sent = queues.flushed(room, sent_ms).state;
    let start = send_position(queues.rel, base);
    let end = send_position(sent.rel, base);
    let m = received_up_to(n, start, end);
    let before = carried(origin, packets, n);
    let after = carried(origin, packets, m);
    assert(Seq::<Seq<u8>>::empty() + after.skip(before.len() as int) =~= after.skip(
        before.len() as int,
    ));
    assert(before + after.skip(before.len() as int) =~= after);
    if a.fragment_tx.unrel.queue.len() == 0 {
        assert(queues == a.fragment_tx);
        let first = queues.next_datagram();
        assert(encode_datagram(first).len() == DATAGRAM_HEADER_SIZE + first.data.len());
        assert(encode_datagram(first).len() <= room);
        lemma_first_is_sent(queues, room, sent_ms, base);
    }
}

/// If there is room for the next fragment, it is sent.
proof fn lemma_first_is_sent(state: FragmentTxState, room: int, now_ms: u64, base: int)
    requires
        state.unrel.queue.len() == 0,
        state.rel.can_send(),
        state.rel.wf(),
        is_on_track(state.rel),
        encode_datagram(state.next_datagram()).len() <= room,
    ensures
        send_position(state.rel, base) < send_position(state.flushed(room, now_ms).state.rel, base),
{
    let next = state.current(now_ms).after_send();
    assert(state.current(now_ms) == state);
    lemma_position_grows(
        next,
        room - encode_datagram(state.next_datagram()).len(),
        now_ms,
        base,
    );
}

proof fn lemma_position_grows(state: FragmentTxState, room: int, now_ms: u64, base: int)
    requires
        state.rel.wf(),
        is_on_track(state.rel),
    ensures
        send_position(state.rel, base) <= send_position(state.flushed(room, now_ms).state.rel, base),
    decreases room,
{
    let current = state.current(now_ms);
    let bytes = encode_datagram(current.next_datagram());
    if current.has_data() && bytes.len() <= room {
        lemma_position_grows(current.after_send(), room - bytes.len(), now_ms, base);
    }
}

/// Whether the unreliable channel from one end to the other holds what is left of some packets,
/// after the first `n` fragments, all of which have been received. The first fragment has the ID
/// `first_id`. Before any of them came in, the receiver was in the state `origin`.
pub open spec fn is_flowing(
    tx: UnreliableTxState,
    rx: UnreliableRxState,
    origin: UnreliableRxState,
    first_id: u32,
    packets: Seq<Seq<u8>>,
    n: int,
) -> bool {
    let stream = stream_of(packets, FRAGMENT_SIZE as nat);
    &&& origin.fragment_size == FRAGMENT_SIZE
    &&& 0 <= n <= stream.len()
    &&& tx.queue.len() == stream.len() - n
    &&& forall|i: int| 0 <= i < tx.queue.len() ==> (#[trigger] tx.queue[i]).fragment == stream[n + i]
    &&& tx.next_id == advance(first_id, n)
    &&& rx == origin.after_run(first_id, stream, n as nat)
}

/// The packets which have been handed out once the first `n` fragments have been received.
pub open spec fn flowed(
    origin: UnreliableRxState,
    first_id: u32,
    packets: Seq<Seq<u8>>,
    n: int,
) -> Seq<Seq<u8>> {
    flow::handed_out(origin, first_id, stream_of(packets, FRAGMENT_SIZE as nat), n as nat)
}

/// Whether nothing in a queue has expired.
pub open spec fn is_current(queue: Seq<Queued>, now_ms: u64) -> bool {
    forall|i: int| 0 <= i < queue.len() ==> (#[trigger] queue[i]).expire_time_ms > now_ms
}

/// Once all fragments of some packets have been received, exactly these packets have been handed
/// out.
pub proof fn law_flowed_packets_are_handed_out(
    origin: UnreliableRxState,
    first_id: u32,
    packets: Seq<Seq<u8>>,
)
    requires
        origin.fragment_size == FRAGMENT_SIZE,
    ensures
        flowed(
            origin,
            first_id,
            packets,
            stream_of(packets, FRAGMENT_SIZE as nat).len() as int,
        ) == packets,
{
    flow::law_packets_in_order(origin, first_id, packets);
}

proof fn lemma_flow_one(
    tx: UnreliableTxState,
    received: Received,
    datagram: DatagramView,
    origin: UnreliableRxState,
    first_id: u32,
    packets: Seq<Seq<u8>>,
    n: int,
)
    requires
        is_flowing(tx, received.unreliable_rx, origin, first_id, packets, n),
        tx.queue.len() > 0,
        datagram.unrel,
        datagram.id == tx.next_id,
        datagram.first == tx.queue[0].fragment.first,
        datagram.last == tx.queue[0].fragment.last,
        datagram.data == tx.queue[0].fragment.bytes(),
    ensures
        ({
            let taken = received.after_datagram(datagram);
            let before = flowed(origin, first_id, packets, n);
            let after = flowed(origin, first_id, packets, n + 1);
            &&& is_flowing(tx.after_send(), taken.unreliable_rx, origin, first_id, packets, n + 1)
            &&& before.is_prefix_of(after)
            &&& packets_of(taken.actions) == packets_of(received.actions) + after.skip(
                before.len() as int,
            )
        }),
{
    let stream = stream_of(packets, FRAGMENT_SIZE as nat);
    assert(tx.queue[0].fragment == stream[n]);
    let taken = received.after_datagram(datagram);
    let before = flowed(origin, first_id, packets, n);
    let after = flowed(origin, first_id, packets, n + 1);
    let got = packets_of(received.actions);
    lemma_advance_sum(first_id, n, 1);
    let next = tx.after_send();
    assert forall|i: int| 0 <= i < next.queue.len() implies (#[trigger] next.queue[i]).fragment
        == stream[n + 1 + i] by {
        assert(next.queue[i] == tx.queue[i + 1]);
    }
    if let Some(packet) = received.packet(datagram) {
        assert(after == before.push(packet));
        assert(after.skip(before.len() as int) =~= seq![packet]);
        assert(taken.actions.drop_last() =~= received.actions);
        assert(packets_of(taken.actions) =~= got + seq![packet]);
    } else {
        assert(after == before);
        assert(after.skip(before.len() as int) =~= Seq::empty());
        assert(got + Seq::empty() =~= got);
    }
}

/// An unreliable channel goes on flowing while a segment is written and taken in.
proof fn lemma_flow(
    state: FragmentTxState,
    received: Received,
    room: int,
    now_ms: u64,
    origin: UnreliableRxState,
    first_id: u32,
    packets: Seq<Seq<u8>>,
    n: int,
)
    requires
        is_flowing(state.unrel, received.unreliable_rx, origin, first_id, packets, n),
        is_current(state.unrel.queue, now_ms),
    ensures
        ({
            let sent = state.flushed(room, now_ms).state;
            let taken = after_datagrams(received, flushed_datagrams(state, room, now_ms));
            let m = n + state.unrel.queue.len() - sent.unrel.queue.len();
            let before = flowed(origin, first_id, packets, n);
            let after = flowed(origin, first_id, packets, m);
            &&& n <= m
            &&& is_flowing(sent.unrel, taken.unreliable_rx, origin, first_id, packets, m)
            &&& is_current(sent.unrel.queue, now_ms)
            &&& before.is_prefix_of(after)
            &&& !state.rel.can_send() ==> packets_of(taken.actions) == packets_of(received.actions)
                + after.skip(before.len() as int)
            &&& !state.rel.can_send() ==> taken.any_rel == received.any_rel
        }),
    decreases room,
{
    let current = state.current(now_ms);
    assert(current.unrel.queue == state.unrel.queue);
    let datagram = current.next_datagram();
    let size = encode_datagram(datagram).len();
    let before = flowed(origin, first_id, packets, n);
    let got = packets_of(received.actions);
    if current.has_data() && size <= room {
        let next = current.after_send();
        let others = flushed_datagrams(next, room - size, now_ms);
        assert((seq![datagram] + others).skip(1) =~= others);
        let one = received.after_datagram(datagram);
        if datagram.unrel {
            lemma_flow_one(state.unrel, received, datagram, origin, first_id, packets, n);
            assert forall|i: int| 0 <= i < next.unrel.queue.len() implies (
            #[trigger] next.unrel.queue[i]).expire_time_ms > now_ms by {
                assert(next.unrel.queue[i] == state.unrel.queue[i + 1]);
            }
            lemma_flow(next, one, room - size, now_ms, origin, first_id, packets, n + 1);
            let sent = state.flushed(room, now_ms).state;
            let m = n + state.unrel.queue.len() - sent.unrel.queue.len();
            let middle = flowed(origin, first_id, packets, n + 1);
            let after = flowed(origin, first_id, packets, m);
            assert(middle =~= before + middle.skip(before.len() as int));
            assert(after.skip(before.len() as int) =~= middle.skip(before.len() as int)
                + after.skip(middle.len() as int));
            assert(got + middle.skip(before.len() as int) + after.skip(middle.len() as int) =~= got
                + after.skip(before.len() as int));
        } else {
            lemma_flow(next, one, room - size, now_ms, origin, first_id, packets, n);
        }
    } else {
        assert(before.skip(before.len() as int) =~= Seq::empty());
        assert(got + Seq::empty() =~= got);
    }
}

/// A frame which is sent while it is expected, and while nothing has expired, takes the unreliable
/// channel on: the receiving end has then received all fragments which the frame holds, and each
/// packet is handed out as soon as its last fragment has been received, in order and once.
pub proof fn law_frames_carry_unreliable_packets(
    a: EndpointState,
    b: EndpointState,
    send_ack: bool,
    ack_rel: bool,
    nonce: bool,
    sent_ms: u64,
    received_ms: u64,
    rto_estimate_ms: u64,
    origin: UnreliableRxState,
    first_id: u32,
    packets: Seq<Seq<u8>>,
    n: int,
)
    requires
        a.wf(),
        b.wf(),
        is_in_step(a, b),
        a.can_send_data(sent_ms),
        is_flowing(a.fragment_tx.unrel, b.unreliable_rx, origin, first_id, packets, n),
        is_current(a.fragment_tx.unrel.queue, sent_ms),
    ensures
        ({
            let sent = a.after_stream_frame(send_ack, ack_rel, nonce, sent_ms);
            let reaction = reaction_to(b, sent.actions, received_ms, rto_estimate_ms);
            let after = reaction.outcome.state;
            let m = n + a.fragment_tx.unrel.queue.len() - sent.state.fragment_tx.unrel.queue.len();
            let is_alone = !a.fragment_tx.rel.can_send();
            &&& is_in_step(sent.state, after)
            &&& is_flowing(
                sent.state.fragment_tx.unrel,
                after.unreliable_rx,
                origin,
                first_id,
                packets,
                m,
            )
            &&& n <= m
            &&& is_alone ==> n < m
            &&& is_alone ==> reaction.flush == Some((true, false))
            &&& is_alone ==> flowed(origin, first_id, packets, m) == flowed(
                origin,
                first_id,
                packets,
                n,
            ) + packets_of(reaction.outcome.actions)
        }),
{
    law_every_frame_is_taken_in(
        a,
        b,
        send_ack,
        ack_rel,
        nonce,
        sent_ms,
        received_ms,
        rto_estimate_ms,
    );
    let room = EndpointState::segment_room(send_ack);
    let queues = a.fragment_tx.current(sent_ms);
    assert(queues == a.fragment_tx);
    lemma_flow(queues, b.receiving(), room, sent_ms, origin, first_id, packets, n);
    let sent = queues.flushed(room, sent_ms).state;
    let m = n + queues.unrel.queue.len() - sent.unrel.queue.len();
    let before = flowed(origin, first_id, packets, n);
    let after = flowed(origin, first_id, packets, m);
    assert(Seq::<Seq<u8>>::empty() + after.skip(before.len() as int) =~= after.skip(
        before.len() as int,
    ));
    assert(before + after.skip(before.len() as int) =~= after);
    if !a.fragment_tx.rel.can_send() {
        let first = queues.next_datagram();
        assert(a.fragment_tx.unrel.queue[0].fragment.bytes().len() <= FRAGMENT_SIZE);
        assert(encode_datagram(first).len() == DATAGRAM_HEADER_SIZE + first.data.len());
        let next = queues.after_send();
        lemma_queue_shrinks(next, room - encode_datagram(first).len(), sent_ms);
    }
}

proof fn lemma_queue_shrinks(state: FragmentTxState, room: int, now_ms: u64)
    ensures
        state.flushed(room, now_ms).state.unrel.queue.len() <= state.unrel.queue.len(),
    decreases room,
{
    let current = state.current(now_ms);
    let bytes = encode_datagram(current.next_datagram());
    crate::buffer::unreliable::law_unexpired(state.unrel.queue, now_ms);
    if current.has_data() && bytes.len() <= room {
        lemma_queue_shrinks(current.after_send(), room - bytes.len(), now_ms);
    }
}

/// Packets which are enqueued while a connection is up wait behind those enqueued before, each on
/// the channel of its mode. The other channel is left alone. Unreliable packets are sent for as
/// long as their sender wishes.
pub proof fn law_enqueued_packets_wait_in_line(
    a: EndpointState,
    b: EndpointState,
    packet: Seq<u8>,
    mode: crate::SendMode,
    now_ms: u64,
    origin: ReliableRxState,
    reliable: Seq<Seq<u8>>,
    base: int,
    n: int,
    unreliable_origin: UnreliableRxState,
    first_id: u32,
    unreliable: Seq<Seq<u8>>,
    m: int,
)
    requires
        a.wf(),
        a.state_id is Active,
        is_carrying(a.fragment_tx.rel, b.reliable_rx, origin, reliable, base, n),
        is_flowing(
            a.fragment_tx.unrel,
            b.unreliable_rx,
            unreliable_origin,
            first_id,
            unreliable,
            m,
        ),
    ensures
        ({
            let after = a.after_enqueue(packet, mode, now_ms);
            &&& mode is Reliable ==> {
                &&& is_carrying(
                    after.fragment_tx.rel,
                    b.reliable_rx,
                    origin,
                    reliable.push(packet),
                    base,
                    n,
                )
                &&& carried(origin, reliable.push(packet), n) == carried(origin, reliable, n)
                &&& after.fragment_tx.unrel == a.fragment_tx.unrel
            }
            &&& mode matches crate::SendMode::Unreliable(timeout_ms) ==> {
                &&& is_flowing(
                    after.fragment_tx.unrel,
                    b.unreliable_rx,
                    unreliable_origin,
                    first_id,
                    unreliable.push(packet),
                    m,
                )
                &&& flowed(unreliable_origin, first_id, unreliable.push(packet), m) == flowed(
                    unreliable_origin,
                    first_id,
                    unreliable,
                    m,
                )
                &&& after.fragment_tx.rel == a.fragment_tx.rel
                &&& now_ms + timeout_ms < u64::MAX ==> forall|i: int|
                    a.fragment_tx.unrel.queue.len() <= i < after.fragment_tx.unrel.queue.len()
                        ==> (#[trigger] after.fragment_tx.unrel.queue[i]).expire_time_ms == now_ms
                        + timeout_ms + 1
                &&& a.fragment_tx.unrel.queue.is_prefix_of(after.fragment_tx.unrel.queue)
            }
            &&& after.fragment_tx.prio == a.fragment_tx.prio
            &&& after.segment_tx == a.segment_tx
            &&& after.state_id is Active
        }),
{
    let size = FRAGMENT_SIZE as nat;
    let after = a.after_enqueue(packet, mode, now_ms);
    let added = crate::buffer::fragments_of(packet, size);
    assert forall|i: int| 0 <= i < added.len() implies (#[trigger] added[i]).wf()
        && added[i].bytes().len() <= size by {
        crate::buffer::lemma_fragment_wf(packet, size, i);
    }
    match mode {
        crate::SendMode::Reliable => {
            let all = reliable.push(packet);
            assert(all.drop_last() =~= reliable);
            let stream = stream_of(reliable, size);
            assert(stream_of(all, size) == stream + added);
            assert((stream + added).skip(base) =~= stream.skip(base) + added);
            crate::buffer::stream::lemma_run_prefix(
                origin,
                origin.next_id,
                stream,
                added,
                n as nat,
            );
        },
        crate::SendMode::Unreliable(timeout_ms) => {
            let all = unreliable.push(packet);
            assert(all.drop_last() =~= unreliable);
            let stream = stream_of(unreliable, size);
            assert(stream_of(all, size) == stream + added);
            flow::lemma_prefix(unreliable_origin, first_id, stream, added, m as nat);
        },
    }
}

/// Whether nothing waits to be sent or acknowledged on either channel, and both windows have room.
pub open spec fn is_ready(a: EndpointState) -> bool {
    &&& a.fragment_tx.rel.fragments.len() == 0
    &&& a.fragment_tx.rel.next_send_id == a.fragment_tx.rel.base_id
    &&& a.fragment_tx.rel.min_ack_id == a.fragment_tx.rel.base_id
    &&& a.fragment_tx.unrel.queue.len() == 0
    &&& a.segment_tx.can_send()
    &&& total(a.segment_tx.transit) < a.cc.window()
}

/// A packet which is enqueued in either mode while nothing else waits is sent at once, and if it fits
/// into a fragment, the next frame takes it to the other end, which hands out this packet, and nothing
/// else. It is acknowledged, as a reliable one if and only if it is.
pub proof fn law_packet_crosses(
    a: EndpointState,
    b: EndpointState,
    packet: Seq<u8>,
    mode: crate::SendMode,
    send_ack: bool,
    ack_rel: bool,
    nonce: bool,
    sent_ms: u64,
    received_ms: u64,
    rto_estimate_ms: u64,
)
    requires
        a.wf(),
        b.wf(),
        is_in_step(a, b),
        is_ready(a),
        b.reliable_rx.fragment_size == FRAGMENT_SIZE,
        b.reliable_rx.next_id == a.fragment_tx.rel.base_id,
        b.reliable_rx.build is None,
        b.unreliable_rx.fragment_size == FRAGMENT_SIZE,
        packet.len() <= FRAGMENT_SIZE,
        is_time(sent_ms),
    ensures
        ({
            let ready = a.after_enqueue(packet, mode, sent_ms);
            let sent = ready.after_stream_frame(send_ack, ack_rel, nonce, sent_ms);
            let reaction = reaction_to(b, sent.actions, received_ms, rto_estimate_ms);
            &&& ready.can_send_data(sent_ms)
            &&& packets_of(reaction.outcome.actions) == seq![packet]
            &&& reaction.flush == Some((true, mode is Reliable))
            &&& is_in_step(sent.state, reaction.outcome.state)
            &&& !sent.state.can_send_data(sent_ms)
        }),
{
    let size = FRAGMENT_SIZE as nat;
    let none: Seq<Seq<u8>> = Seq::empty();
    let first_id = a.fragment_tx.unrel.next_id;
    assert(a.fragment_tx.rel.fragments =~= stream_of(none, size).skip(0));
    assert(advance(first_id, 0) == first_id);
    assert(advance(b.reliable_rx.next_id, 0) == b.reliable_rx.next_id);
    law_enqueued_packets_wait_in_line(
        a,
        b,
        packet,
        mode,
        sent_ms,
        b.reliable_rx,
        none,
        0,
        0,
        b.unreliable_rx,
        first_id,
        none,
        0,
    );
    let one = none.push(packet);
    assert(one =~= seq![packet]);
    let fragments = crate::buffer::fragments_of(packet, size);
    assert(crate::buffer::fragment_count(packet.len(), size) == 1) by (nonlinear_arith)
        requires
            packet.len() <= size,
            size == 1024,
    ;
    assert(one.drop_last() =~= none);
    assert(stream_of(one, size) =~= fragments);
    let ready = a.after_enqueue(packet, mode, sent_ms);
    lemma_enqueue_keeps_wf(a, packet, mode, sent_ms);
    match mode {
        crate::SendMode::Reliable => {
            assert(ready.can_send_data(sent_ms));
            law_frames_carry_packets(
                ready,
                b,
                send_ack,
                ack_rel,
                nonce,
                sent_ms,
                received_ms,
                rto_estimate_ms,
                b.reliable_rx,
                one,
                0,
                0,
            );
            law_packets_in_order(b.reliable_rx, one);
            let sent = ready.after_stream_frame(send_ack, ack_rel, nonce, sent_ms);
            let reaction = reaction_to(b, sent.actions, received_ms, rto_estimate_ms);
            let packets = packets_of(reaction.outcome.actions);
            assert(carried(b.reliable_rx, one, 0) + packets =~= packets);
            lemma_all_sent(ready, send_ack, ack_rel, nonce, sent_ms);
        },
        crate::SendMode::Unreliable(timeout_ms) => {
            assert(ready.fragment_tx.unrel.queue[0].expire_time_ms == sent_ms + timeout_ms + 1);
            assert(ready.fragment_tx.current(sent_ms) == ready.fragment_tx);
            assert(ready.can_send_data(sent_ms));
            law_frames_carry_unreliable_packets(
                ready,
                b,
                send_ack,
                ack_rel,
                nonce,
                sent_ms,
                received_ms,
                rto_estimate_ms,
                b.unreliable_rx,
                first_id,
                one,
                0,
            );
            law_flowed_packets_are_handed_out(b.unreliable_rx, first_id, one);
            let sent = ready.after_stream_frame(send_ack, ack_rel, nonce, sent_ms);
            let reaction = reaction_to(b, sent.actions, received_ms, rto_estimate_ms);
            let packets = packets_of(reaction.outcome.actions);
            assert(flowed(b.unreliable_rx, first_id, one, 0) + packets =~= packets);
            lemma_all_sent(ready, send_ack, ack_rel, nonce, sent_ms);
        },
    }
}

proof fn lemma_enqueue_keeps_wf(
    a: EndpointState,
    packet: Seq<u8>,
    mode: crate::SendMode,
    now_ms: u64,
)
    requires
        a.wf(),
    ensures
        a.after_enqueue(packet, mode, now_ms).wf(),
{
    let size = FRAGMENT_SIZE as nat;
    let added = crate::buffer::fragments_of(packet, size);
    assert forall|i: int| 0 <= i < added.len() implies (#[trigger] added[i]).wf()
        && added[i].bytes().len() <= size by {
        crate::buffer::lemma_fragment_wf(packet, size, i);
    }
}

/// Once a frame has taken the only fragment, nothing is left to send.
proof fn lemma_all_sent(
    a: EndpointState,
    send_ack: bool,
    ack_rel: bool,
    nonce: bool,
    now_ms: u64,
)
    requires
        a.can_send_data(now_ms),
        a.fragment_tx.unrel.queue.len() + a.fragment_tx.rel.fragments.len() == 1,
        a.fragment_tx.rel.next_send_id == a.fragment_tx.rel.base_id,
        a.fragment_tx.current(now_ms).next_datagram().data.len() <= FRAGMENT_SIZE,
    ensures
        !a.after_stream_frame(send_ack, ack_rel, nonce, now_ms).state.can_send_data(now_ms),
{
    reveal(EndpointState::after_stream_frame);
    let room = EndpointState::segment_room(send_ack);
    let queues = a.current(now_ms).fragment_tx;
    crate::buffer::unreliable::law_unexpired(a.fragment_tx.unrel.queue, now_ms);
    assert(queues.current(now_ms) == queues);
    let datagram = queues.next_datagram();
    let bytes = encode_datagram(datagram);
    assert(bytes.len() == DATAGRAM_HEADER_SIZE + datagram.data.len());
    let rest = queues.after_send();
    assert(!rest.has_data());
    assert(rest.current(now_ms) == rest);
    assert(rest.flushed(room - bytes.len(), now_ms).state == rest);
}

/// The frames of a connection never hold more than fits, and bytes are counted as in transit for as
/// long as they have not been acknowledged: a segment adds the amount of data which it holds.
pub proof fn law_sent_data_is_in_transit(
    a: EndpointState,
    send_ack: bool,
    ack_rel: bool,
    nonce: bool,
    now_ms: u64,
)
    requires
        a.wf(),
        a.can_send_data(now_ms),
    ensures
        ({
            let room = EndpointState::segment_room(send_ack);
            let queues = a.fragment_tx.current(now_ms);
            let sent = a.after_stream_frame(send_ack, ack_rel, nonce, now_ms).state;
            let size = data_size(flushed_datagrams(queues, room, now_ms));
            &&& sent.segment_tx.transit.len() == a.segment_tx.transit.len() + 1
            &&& sent.segment_tx.transit.drop_last() == a.segment_tx.transit
            &&& sent.segment_tx.transit.last() == size
            &&& sent.segment_tx.base_id == a.segment_tx.base_id
            &&& sent.cc == a.cc
        }),
{
    reveal(EndpointState::after_stream_frame);
    let room = EndpointState::segment_room(send_ack);
    let queues = a.fragment_tx.current(now_ms);
    assert(a.current(now_ms).fragment_tx == queues);
    lemma_data_size(queues, room, now_ms);
    let sent = a.after_stream_frame(send_ack, ack_rel, nonce, now_ms).state;
    assert(sent.segment_tx.transit.drop_last() =~= a.segment_tx.transit);
}

/// How many bytes some datagrams hold.
pub open spec fn data_size(datagrams: Seq<DatagramView>) -> int
    decreases datagrams.len(),
{
    if datagrams.len() == 0 {
        0
    } else {
        datagrams[0].data.len() + data_size(datagrams.skip(1))
    }
}

pub(crate) proof fn lemma_data_size(state: FragmentTxState, room: int, now_ms: u64)
    ensures
        state.flushed(room, now_ms).size == data_size(flushed_datagrams(state, room, now_ms)),
        room >= 0 ==> state.flushed(room, now_ms).size <= room,
    decreases room,
{
    let current = state.current(now_ms);
    let datagram = current.next_datagram();
    let size = encode_datagram(datagram).len();
    if current.has_data() && size <= room {
        let others = flushed_datagrams(current.after_send(), room - size, now_ms);
        assert((seq![datagram] + others).skip(1) =~= others);
        lemma_data_size(current.after_send(), room - size, now_ms);
    }
}

} // verus!
