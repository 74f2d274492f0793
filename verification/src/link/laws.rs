//! What holds between the two ends of a link.

use vstd::prelude::*;

use super::frame::{FrameType, StreamAck, StreamDataHeader};
use super::model::{HostAction, LinkState, QueueState, Received};
use super::serial::{
    frame_payload, frame_type, law_frame_round_trip, lemma_header_size, STREAM_ACK_SIZE,
    STREAM_DATA_HEADER_SIZE,
};
use super::{initial_state, FRAGMENT_SIZE, FRAME_SIZE_MAX};
use crate::buffer::{fragment_count, fragments_of};
use crate::endpoint::segment_tx::total;
use crate::frame::serial::{
    decode_datagram, encode_datagram, law_datagram_round_trip, BlockSerial, DATAGRAM_HEADER_SIZE,
};
use crate::frame::DatagramView;
use crate::id::{advance, delta};
use crate::SendMode;

verus! {

/// The packets which are handed out, in order.
pub open spec fn packets_of(actions: Seq<HostAction>) -> Seq<Seq<u8>>
    decreases actions.len(),
{
    if actions.len() == 0 {
        Seq::empty()
    } else {
        let before = packets_of(actions.drop_last());
        match actions.last() {
            HostAction::Receive(packet) => before.push(packet),
            _ => before,
        }
    }
}

proof fn lemma_packets_sum(a: Seq<HostAction>, b: Seq<HostAction>)
    ensures
        packets_of(a + b) == packets_of(a) + packets_of(b),
    decreases b.len(),
{
    if b.len() == 0 {
        assert(a + b =~= a);
        assert(packets_of(a) + packets_of(b) =~= packets_of(a));
    } else {
        assert((a + b).drop_last() =~= a + b.drop_last());
        lemma_packets_sum(a, b.drop_last());
        assert(packets_of(a + b) =~= packets_of(a) + packets_of(b));
    }
}

/// What filling a frame does not change.
proof fn lemma_filled(queues: QueueState, room: int)
    ensures
        ({
            let filled = queues.filled(room);
            &&& filled.queues.rel.fragments == queues.rel.fragments
            &&& filled.queues.rel.base_id == queues.rel.base_id
            &&& room >= 0 ==> filled.bytes.len() <= room
            &&& room >= 0 ==> filled.size <= room
            &&& filled.queues.has_data() ==> encode_datagram(filled.queues.next_datagram()).len()
                > room - filled.bytes.len()
        }),
    decreases room,
{
    let bytes = encode_datagram(queues.next_datagram());
    if queues.has_data() && bytes.len() <= room {
        lemma_filled(queues.after_send(), room - bytes.len());
    }
}

/// Sending, as far as it is possible, changes nothing but what waits to be sent and what is in
/// transit: it hands out nothing, and goes on until a window is exhausted, or nothing is left to
/// send. Frames have consecutive IDs. Without an acknowledgement or data to send, nothing is sent.
pub proof fn law_flush(
    state: LinkState,
    send_ack: bool,
    ack_unrel: bool,
    ack_rel: bool,
    try_send_data: bool,
)
    requires
        state.wf(),
    ensures
        ({
            let flushed = state.flushed(send_ack, ack_unrel, ack_rel, try_send_data);
            let after = flushed.state;
            let count = after.tx_window.transit.len() - state.tx_window.transit.len();
            let is_ack_alone = send_ack && count == 0;
            &&& after.rx_window == state.rx_window
            &&& after.unrel_rx == state.unrel_rx
            &&& after.rel_rx == state.rel_rx
            &&& after.cwnd == state.cwnd
            &&& after.tx_window.base_id == state.tx_window.base_id
            &&& after.tx_window.size == state.tx_window.size
            &&& after.queues.rel.fragments == state.queues.rel.fragments
            &&& after.queues.rel.base_id == state.queues.rel.base_id
            &&& packets_of(flushed.actions).len() == 0
            &&& try_send_data ==> !after.can_send_data()
            &&& !try_send_data ==> count == 0
            &&& 0 <= count
            &&& flushed.actions.len() == count + if is_ack_alone {
                1int
            } else {
                0
            }
            &&& forall|i: int|
                0 <= i < flushed.actions.len() ==> (#[trigger] flushed.actions[i]) is SendFrame
            &&& total(after.tx_window.transit) <= total(state.tx_window.transit)
                || total(after.tx_window.transit) <= state.cwnd + FRAME_SIZE_MAX
        }),
    decreases
            state.tx_window.size - state.tx_window.transit.len(),
            if send_ack {
                1int
            } else {
                0int
            },
{
    let send_data = try_send_data && state.can_send_data();
    let flushed = state.flushed(send_ack, ack_unrel, ack_rel, try_send_data);
    if send_ack || send_data {
        let next = state.after_frame(send_ack, send_data);
        let frame = state.next_frame(send_ack, send_data, ack_unrel, ack_rel);
        let room = LinkState::data_room(send_ack);
        lemma_filled(state.queues, room);
        if send_data {
            lemma_fill_keeps_wf(state, send_ack);
        }
        law_flush(next, false, ack_unrel, ack_rel, try_send_data);
        let rest = next.flushed(false, ack_unrel, ack_rel, try_send_data);
        let first = seq![HostAction::SendFrame(frame)];
        lemma_packets_sum(first, rest.actions);
        reveal_with_fuel(packets_of, 2);
        assert(first.drop_last() =~= Seq::empty());
        assert(packets_of(first) =~= Seq::empty());
        assert forall|i: int| 0 <= i < flushed.actions.len() implies (
        #[trigger] flushed.actions[i]) is SendFrame by {
            if i > 0 {
                assert(flushed.actions[i] == rest.actions[i - 1]);
            }
        }
    }
}

proof fn lemma_queues_wf(queues: QueueState)
    requires
        queues.wf(),
        queues.has_data(),
        encode_datagram(queues.next_datagram()).len() <= FRAME_SIZE_MAX,
    ensures
        queues.after_send().wf(),
{
    let next = queues.after_send();
    let size = queues.next_datagram().data.len() as int;
    assert forall|i: int| 0 <= i < next.unrel.queue.len() implies (
    #[trigger] next.unrel.queue[i]).fragment.wf() && next.unrel.queue[i].fragment.bytes().len()
        <= next.unrel.fragment_size by {
        if queues.next_mode() is Unreliable {
            assert(next.unrel.queue[i] == queues.unrel.queue[i + 1]);
        }
    }
    let (w_r, w_u) = (queues.prio.w_r as int, queues.prio.w_u as int);
    assert(0 <= size * w_r <= 1478 * 255 && 0 <= size * w_u <= 1478 * 255) by (nonlinear_arith)
        requires
            0 <= size <= 1478,
            0 <= w_r <= 255,
            0 <= w_u <= 255,
    ;
}

proof fn lemma_filled_wf(queues: QueueState, room: int)
    requires
        queues.wf(),
        room <= FRAME_SIZE_MAX,
    ensures
        queues.filled(room).queues.wf(),
    decreases room,
{
    let bytes = encode_datagram(queues.next_datagram());
    if queues.has_data() && bytes.len() <= room {
        lemma_queues_wf(queues);
        lemma_filled_wf(queues.after_send(), room - bytes.len());
    }
}

/// A link stays well-formed when a frame is sent.
proof fn lemma_fill_keeps_wf(state: LinkState, send_ack: bool)
    requires
        state.wf(),
        state.can_send_data(),
    ensures
        state.after_frame(send_ack, true).wf(),
        total(state.after_frame(send_ack, true).tx_window.transit) <= state.cwnd + FRAME_SIZE_MAX,
{
    let room = LinkState::data_room(send_ack);
    let filled = state.filling(send_ack);
    lemma_filled(state.queues, room);
    lemma_filled_wf(state.queues, room);
    let transit = state.tx_window.transit;
    assert(transit.push(filled.size as usize).drop_last() =~= transit);
}

/// What is received does not depend on whether an acknowledgement comes along: the data of a frame
/// which begins with one is taken in as if it had come in a frame of its own.
pub proof fn law_ack_and_data_share_a_frame(state: LinkState, payload: Seq<u8>)
    requires
        state.wf(),
        payload.len() >= STREAM_ACK_SIZE,
    ensures
        ({
            let both = state.after_payload(FrameType::StreamDataAck, payload);
            let alone = state.after_payload(
                FrameType::StreamData,
                payload.skip(StreamAck::decoded_size(payload)),
            );
            &&& both.state.rx_window == alone.state.rx_window
            &&& both.state.unrel_rx == alone.state.unrel_rx
            &&& both.state.rel_rx == alone.state.rel_rx
            &&& packets_of(both.actions) == packets_of(alone.actions)
        }),
{
    let rest = payload.skip(StreamAck::decoded_size(payload));
    let acked = state.after_ack(StreamAck::decode(payload));
    lemma_ack_keeps_wf(state, StreamAck::decode(payload));
    lemma_data_keeps_wf(acked, rest);
    lemma_data_keeps_wf(state, rest);
    let received = state.received(rest);
    assert(acked.received(rest) == received);
    let send_ack = received.any_unrel || received.any_rel;
    law_flush(
        acked.after_data(rest),
        send_ack,
        received.any_unrel,
        received.any_rel,
        true,
    );
    law_flush(
        state.after_data(rest),
        send_ack,
        received.any_unrel,
        received.any_rel,
        false,
    );
    let a = acked.after_data(rest).after_flush(received.any_unrel, received.any_rel, true);
    let b = state.after_data(rest).after_flush(received.any_unrel, received.any_rel, false);
    lemma_packets_sum(received.actions, a.actions);
    lemma_packets_sum(received.actions, b.actions);
    assert(packets_of(a.actions) =~= packets_of(b.actions));
}

proof fn lemma_total_skip(sizes: Seq<usize>, n: int)
    requires
        0 <= n <= sizes.len(),
    ensures
        total(sizes.skip(n)) <= total(sizes),
    decreases sizes.len(),
{
    if n < sizes.len() {
        assert(sizes.skip(n).drop_last() =~= sizes.drop_last().skip(n));
        lemma_total_skip(sizes.drop_last(), n);
    } else {
        assert(sizes.skip(n) =~= Seq::empty());
    }
}

proof fn lemma_ack_keeps_wf(state: LinkState, ack: StreamAck)
    requires
        state.wf(),
    ensures
        state.after_ack(ack).wf(),
{
    let n = delta(ack.data_id, state.tx_window.base_id);
    if state.tx_window.ack_is_valid(ack.data_id) {
        lemma_total_skip(state.tx_window.transit, n);
    }
    if let Some(id) = ack.rel_id {
        let rel = state.queues.rel;
        let after = rel.after_ack(id);
        assert forall|i: int| 0 <= i < after.fragments.len() implies (
        #[trigger] after.fragments[i]).wf() && after.fragments[i].bytes().len()
            <= after.fragment_size by {
            if id != rel.base_id && rel.ack_is_valid(id) {
                assert(after.fragments[i] == rel.fragments[i + delta(id, rel.base_id)]);
            }
        }
    }
}

proof fn lemma_bytes_keep_sizes(received: Received, bytes: Seq<u8>)
    ensures
        received.after_bytes(bytes).unrel_rx.fragment_size == received.unrel_rx.fragment_size,
        received.after_bytes(bytes).rel_rx.fragment_size == received.rel_rx.fragment_size,
    decreases bytes.len(),
{
    if let Some(datagram) = decode_datagram(bytes) {
        lemma_bytes_keep_sizes(
            received.after_datagram(datagram),
            bytes.skip(DATAGRAM_HEADER_SIZE + datagram.data.len() as int),
        );
    }
}

proof fn lemma_data_keeps_wf(state: LinkState, payload: Seq<u8>)
    requires
        state.wf(),
    ensures
        state.after_data(payload).wf(),
{
    lemma_bytes_keep_sizes(
        state.receiving(),
        payload.skip(STREAM_DATA_HEADER_SIZE as int),
    );
}

/// An acknowledgement takes what it covers out of transit, and off the reliable queue, if that has
/// been sent, and more is sent at once. Any other changes neither.
pub proof fn law_ack_frees_windows(state: LinkState, payload: Seq<u8>)
    requires
        state.wf(),
        payload.len() >= STREAM_ACK_SIZE,
    ensures
        ({
            let ack = StreamAck::decode(payload);
            let after = state.after_payload(FrameType::StreamAck, payload).state;
            let tx = state.tx_window;
            let rel = state.queues.rel;
            let n = delta(ack.data_id, tx.base_id);
            &&& 0 < n <= tx.transit.len() ==> after.tx_window.base_id == ack.data_id
            &&& !(0 < n <= tx.transit.len()) ==> after.tx_window.base_id == tx.base_id
            &&& ack.rel_id is None ==> after.queues.rel.base_id == rel.base_id
                && after.queues.rel.fragments == rel.fragments
            &&& ack.rel_id matches Some(id) ==> {
                let m = delta(id, rel.base_id);
                if m <= delta(rel.min_ack_id, rel.base_id) {
                    &&& after.queues.rel.base_id == id
                    &&& after.queues.rel.fragments == rel.fragments.skip(m)
                } else {
                    &&& after.queues.rel.base_id == rel.base_id
                    &&& after.queues.rel.fragments == rel.fragments
                }
            }
            &&& !after.can_send_data()
            &&& after.rx_window == state.rx_window
            &&& after.unrel_rx == state.unrel_rx
            &&& after.rel_rx == state.rel_rx
        }),
{
    let ack = StreamAck::decode(payload);
    lemma_ack_keeps_wf(state, ack);
    law_flush(state.after_ack(ack), false, false, false, true);
    assert(state.queues.rel.fragments.skip(0) =~= state.queues.rel.fragments);
}

/// The datagrams which are written for as long as there is one, and room for it.
pub open spec fn filled_datagrams(queues: QueueState, room: int) -> Seq<DatagramView>
    decreases room,
{
    let datagram = queues.next_datagram();
    let size = encode_datagram(datagram).len();
    if queues.has_data() && size <= room {
        seq![datagram] + filled_datagrams(queues.after_send(), room - size)
    } else {
        Seq::empty()
    }
}

/// Takes in some datagrams, in order.
pub open spec fn after_datagrams(received: Received, datagrams: Seq<DatagramView>) -> Received
    decreases datagrams.len(),
{
    if datagrams.len() == 0 {
        received
    } else {
        after_datagrams(received.after_datagram(datagrams[0]), datagrams.skip(1))
    }
}

proof fn lemma_round_trip(queues: QueueState, received: Received, room: int)
    requires
        queues.wf(),
        room <= FRAME_SIZE_MAX,
    ensures
        received.after_bytes(queues.filled(room).bytes) == after_datagrams(
            received,
            filled_datagrams(queues, room),
        ),
    decreases room,
{
    let datagram = queues.next_datagram();
    let bytes = encode_datagram(datagram);
    if queues.has_data() && bytes.len() <= room {
        let rest = queues.after_send().filled(room - bytes.len()).bytes;
        lemma_queues_wf(queues);
        lemma_round_trip(
            queues.after_send(),
            received.after_datagram(datagram),
            room - bytes.len(),
        );
        law_datagram_round_trip(datagram, rest);
        assert(bytes.len() == DATAGRAM_HEADER_SIZE + datagram.data.len());
        assert((bytes + rest).skip(bytes.len() as int) =~= rest);
        let others = filled_datagrams(queues.after_send(), room - bytes.len());
        assert((seq![datagram] + others).skip(1) =~= others);
    } else {
        assert(decode_datagram(Seq::<u8>::empty()) is None);
    }
}

/// A data frame which is expected is taken in as it was written: the receiving end deals with
/// exactly the datagrams which the sending end has picked, hands out the packets which they
/// complete, and expects the next frame. It acknowledges the channels to which the datagrams
/// belong, and no other.
pub proof fn law_frame_is_taken_in(a: LinkState, b: LinkState)
    requires
        a.wf(),
        b.wf(),
        a.can_send_data(),
        b.rx_window.base_id == a.tx_window.next_id,
        b.rx_window.size > 0,
    ensures
        ({
            let frame = a.next_frame(false, true, false, false);
            let after = b.after_payload(FrameType::StreamData, frame_payload(frame));
            let datagrams = filled_datagrams(a.queues, LinkState::data_room(false));
            let taken = after_datagrams(b.receiving(), datagrams);
            let ack = StreamAck {
                data_id: advance(a.tx_window.next_id, 1),
                unrel_id: if taken.any_unrel {
                    Some(taken.unrel_rx.next_id)
                } else {
                    None
                },
                rel_id: if taken.any_rel {
                    Some(taken.rel_rx.next_id)
                } else {
                    None
                },
            };
            &&& frame.len() <= FRAME_SIZE_MAX
            &&& frame_type(frame) == Some(FrameType::StreamData)
            &&& packets_of(after.actions) == packets_of(taken.actions)
            &&& after.state.unrel_rx == taken.unrel_rx
            &&& after.state.rel_rx == taken.rel_rx
            &&& after.state.rx_window.base_id == advance(a.tx_window.next_id, 1)
            &&& after.state.rx_window.base_id == a.after_frame(false, true).tx_window.next_id
            &&& taken.any_unrel || taken.any_rel ==> {
                &&& after.actions.len() == taken.actions.len() + 1
                &&& after.actions.last() matches HostAction::SendFrame(answer) && frame_type(answer)
                    == Some(FrameType::StreamAck) && frame_payload(answer) == ack.encode()
            }
            &&& !taken.any_unrel && !taken.any_rel ==> after.actions == taken.actions
        }),
{
    let room = LinkState::data_room(false);
    let filled = a.filling(false);
    let header = StreamDataHeader { id: a.tx_window.next_id };
    let frame = a.next_frame(false, true, false, false);
    let payload = header.encode() + filled.bytes;
    lemma_header_size();
    header.round_trip(filled.bytes);
    assert(Seq::<u8>::empty() + payload =~= payload);
    law_frame_round_trip(FrameType::StreamData, payload);
    lemma_filled(a.queues, room);
    assert(payload.skip(STREAM_DATA_HEADER_SIZE as int) =~= filled.bytes);
    lemma_round_trip(a.queues, b.receiving(), room);
    let received = b.received(payload);
    let taken = after_datagrams(b.receiving(), filled_datagrams(a.queues, room));
    assert(received == taken);
    lemma_data_keeps_wf(b, payload);
    let ready = b.after_data(payload);
    let send_ack = taken.any_unrel || taken.any_rel;
    law_flush(ready, send_ack, taken.any_unrel, taken.any_rel, false);
    let flushed = ready.flushed(send_ack, taken.any_unrel, taken.any_rel, false);
    let after = b.after_payload(FrameType::StreamData, payload);
    assert(after.actions == taken.actions + flushed.actions);
    lemma_packets_sum(taken.actions, flushed.actions);
    assert(packets_of(taken.actions) + packets_of(flushed.actions) =~= packets_of(taken.actions));
    if send_ack {
        let ack = ready.next_ack(taken.any_unrel, taken.any_rel);
        let answer = ready.next_frame(true, false, taken.any_unrel, taken.any_rel);
        assert(ack.encode() + Seq::<u8>::empty() =~= ack.encode());
        law_frame_round_trip(FrameType::StreamAck, ack.encode());
        assert(flushed.actions[0] == HostAction::SendFrame(answer));
        assert(after.actions.last() == flushed.actions[0]);
    } else {
        assert(after.actions =~= taken.actions);
    }
}

/// Whether nothing waits to be sent over a link, and something could be.
pub open spec fn is_idle(state: LinkState) -> bool {
    &&& state.queues.unrel.queue.len() == 0
    &&& state.queues.rel.fragments.len() == 0
    &&& state.queues.rel.next_send_id == state.queues.rel.base_id
    &&& state.tx_window.can_send()
    &&& total(state.tx_window.transit) < state.cwnd
}

/// A packet which fits into one frame, sent in either mode over a link on which nothing waits, goes
/// out at once, and is handed out at the other end, as it is.
pub proof fn law_packet_crosses(a: LinkState, b: LinkState, packet: Seq<u8>, mode: SendMode)
    requires
        a.wf(),
        b.wf(),
        is_idle(a),
        b.rx_window.base_id == a.tx_window.next_id,
        b.rx_window.size > 0,
        b.rel_rx.next_id == a.queues.rel.next_send_id,
        b.rel_rx.build is None,
        b.rel_rx.fragment_size == FRAGMENT_SIZE,
        b.unrel_rx.fragment_size == FRAGMENT_SIZE,
        packet.len() + DATAGRAM_HEADER_SIZE <= LinkState::data_room(false),
    ensures
        ({
            let sent = a.after_send(packet, mode);
            &&& sent.actions.len() == 1
            &&& sent.actions[0] matches HostAction::SendFrame(frame) && frame_type(frame) == Some(
                FrameType::StreamData,
            ) && packets_of(b.after_payload(FrameType::StreamData, frame_payload(frame)).actions)
                == seq![packet]
        }),
{
    let size = FRAGMENT_SIZE as nat;
    let ready = LinkState { queues: a.queues.after_push(packet, mode), ..a };
    let fragments = fragments_of(packet, size);
    assert(fragment_count(packet.len(), size) == 1) by (nonlinear_arith)
        requires
            packet.len() <= size,
            size == 1478,
    ;
    crate::buffer::lemma_fragment_wf(packet, size, 0);
    assert(0 * size == 0 && 1 * size == size) by (nonlinear_arith);
    assert(fragments.len() == 1);
    let fragment = fragments[0];
    assert(fragment.bytes() =~= packet);
    assert(fragment.first && fragment.last);
    assert(a.queues.rel.fragments + fragments =~= fragments);
    let entry = crate::buffer::unreliable::queued(fragments, u64::MAX);
    assert(a.queues.unrel.queue + entry =~= entry);
    assert(entry[0].fragment == fragment);
    assert(ready.wf());
    let datagram = ready.queues.next_datagram();
    assert(datagram.data == packet);
    let room = LinkState::data_room(false);
    let bytes = encode_datagram(datagram);
    assert(bytes.len() == DATAGRAM_HEADER_SIZE + packet.len());
    let rest = ready.queues.after_send();
    assert(!rest.has_data());
    reveal_with_fuel(filled_datagrams, 2);
    assert(filled_datagrams(rest, room - bytes.len()) =~= Seq::empty());
    assert(filled_datagrams(ready.queues, room) =~= seq![datagram]);
    law_frame_is_taken_in(ready, b);
    let taken = b.receiving().after_datagram(datagram);
    reveal_with_fuel(after_datagrams, 2);
    assert(seq![datagram].skip(1) =~= Seq::empty());
    assert(after_datagrams(b.receiving(), seq![datagram]) == taken);
    reveal_with_fuel(packets_of, 2);
    assert(taken.actions =~= seq![HostAction::Receive(packet)]);
    assert(taken.actions.drop_last() =~= Seq::empty());
    assert(packets_of(taken.actions) =~= seq![packet]);
    let next = ready.after_frame(false, true);
    assert(rest.filled(room - bytes.len()).queues == rest);
    assert(next.queues == rest);
    assert(!next.can_send_data());
    assert(next.flushed(false, false, false, true).actions =~= Seq::empty());
    let frame = ready.next_frame(false, true, false, false);
    assert(a.after_send(packet, mode).actions =~= seq![HostAction::SendFrame(frame)]);
}

/// Two new links expect what the other sends first, in both directions.
pub proof fn law_new_links_fit()
    ensures
        ({
            let link = initial_state();
            &&& is_idle(link)
            &&& link.rx_window.base_id == link.tx_window.next_id
            &&& link.rx_window.size > 0
            &&& link.rel_rx.next_id == link.queues.rel.next_send_id
            &&& link.rel_rx.build is None
            &&& link.rel_rx.fragment_size == FRAGMENT_SIZE
            &&& link.unrel_rx.fragment_size == FRAGMENT_SIZE
        }),
{
}

} // verus!
