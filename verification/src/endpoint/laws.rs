//! What holds between the two ends of a connection.

use vstd::prelude::*;

use super::fragment_tx::FragmentTxState;
use super::model::{EndpointState, HostAction, Received};
use super::segment_rx::{
    knows_nonces, lemma_expected, segment_bytes, RxState as SegmentRxState, Segment,
};
use super::segment_tx::{lemma_nonce_history_bit, merged_history, TxState as SegmentTxState};
use super::{DISCONNECT_TIMEOUT_MS, RTO_MIN_MS};
use crate::bits::{bit, lemma_bits_equal, odd, push_zeros};
use crate::buffer::reliable::RxState as ReliableRxState;
use crate::buffer::stream::{is_on_track, is_stream, lemma_run_split};
use crate::buffer::{fits, Fragment};
use crate::frame::serial::{
    decode_datagram, encode_datagram, frame_bytes, frame_payload, law_datagram_round_trip,
    law_simple_frame_round_trip, lemma_block_sizes, simple_frame, BlockSerial, SimplePayloadRead,
    DATAGRAM_HEADER_SIZE, STREAM_SEGMENT_HEADER_SIZE,
};
use crate::frame::{
    CloseAckFrame, CloseFrame, DatagramView, FrameType, StreamSegmentHeader, StreamSync,
};
use crate::id::{advance, delta, lemma_delta_advance, lemma_delta_shift};
use crate::SendMode;

verus! {

/// Whether a sender remembers the nonces which it has sent, if segments carry the nonces that
/// `nonce` gives.
pub open spec fn remembers_nonces(state: SegmentTxState, nonce: spec_fn(u32) -> bool) -> bool {
    &&& forall|i: int|
        0 <= i < state.transit.len() ==> #[trigger] state.nonce(advance(state.base_id, i))
            == nonce(advance(state.base_id, i))
    &&& forall|i: u32|
        i < 32 ==> #[trigger] bit(state.nonce_history, i) == nonce(advance(state.base_id, -1 - i))
}

/// A receiver which reports what it has received, with the parity of the nonces which came along,
/// is believed: what it reports counts as acknowledged.
pub proof fn law_honest_report(
    tx: SegmentTxState,
    rx: SegmentRxState,
    nonce: spec_fn(u32) -> bool,
)
    requires
        tx.wf(),
        tx.ack_is_valid(rx.base_id),
        remembers_nonces(tx, nonce),
        knows_nonces(rx, nonce),
    ensures
        ({
            let n = delta(rx.base_id, tx.base_id);
            let history = rx.rx_history & 0x1F;
            let checksum = odd(rx.rx_history & rx.nonce_history & 0x1F);
            merged_history(
                tx.ack_history,
                n,
                tx.nonce_history_after(n),
                history,
                checksum,
            ) == push_zeros(tx.ack_history, n) | history
        }),
{
    let n = delta(rx.base_id, tx.base_id);
    let expected = tx.nonce_history_after(n);
    let history = rx.rx_history & 0x1F;
    let reported = rx.rx_history & rx.nonce_history & 0x1F;
    assert forall|i: u32| i < 32 implies bit(expected & history, i) == bit(reported, i) by {
        let (e, r, k) = (expected, rx.rx_history, rx.nonce_history);
        assert(i < 32 ==> (((e & (r & 0x1F)) >> i) & 1 == 1) == ((e >> i) & 1 == 1 && (r >> i) & 1
            == 1 && i < 5)) by (bit_vector);
        assert(i < 32 ==> (((r & k & 0x1F) >> i) & 1 == 1) == ((k >> i) & 1 == 1 && (r >> i) & 1
            == 1 && i < 5)) by (bit_vector);
        if bit(rx.rx_history, i) {
            lemma_nonce_history_bit(tx, n, i);
            if i < n {
                let j = n - 1 - i;
                assert(tx.nonce(advance(tx.base_id, j)) == nonce(advance(tx.base_id, j)));
                assert(advance(tx.base_id, j) == advance(rx.base_id, -1 - i));
            } else {
                let j = (i - n) as u32;
                assert(bit(tx.nonce_history, j) == nonce(advance(tx.base_id, -1 - j)));
                assert(advance(tx.base_id, -1 - j) == advance(rx.base_id, -1 - i));
            }
        }
    }
    lemma_bits_equal(expected & history, reported);
}

/// A connection which one side closes is closed on both sides: the other side confirms, and both
/// announce it.
pub proof fn law_disconnect(
    a: EndpointState,
    b: EndpointState,
    asked_ms: u64,
    answered_ms: u64,
    done_ms: u64,
    rto_estimate_ms: u64,
)
    requires
        a.state_id is Active,
        b.state_id is Active || b.state_id is Closing,
        a.remote_nonce == b.local_nonce,
        b.remote_nonce == a.local_nonce,
    ensures
        ({
            let asked = a.on_disconnect(asked_ms).outcome;
            let answered = b.on_frame(
                FrameType::Close,
                frame_payload(a.close_frame()),
                answered_ms,
                rto_estimate_ms,
            ).outcome;
            let done = asked.state.on_frame(
                FrameType::CloseAck,
                frame_payload(b.close_ack_frame()),
                done_ms,
                rto_estimate_ms,
            ).outcome;
            &&& asked.actions.last() == HostAction::SendFrame(a.close_frame())
            &&& answered.state.state_id is Closed
            &&& answered.actions == seq![
                HostAction::SendFrame(b.close_ack_frame()),
                HostAction::Disconnect,
                HostAction::SetRtoTimer((answered_ms + DISCONNECT_TIMEOUT_MS) as u64),
            ]
            &&& done.state.state_id is Closed
            &&& done.actions == seq![
                HostAction::Disconnect,
                HostAction::SetRtoTimer((done_ms + DISCONNECT_TIMEOUT_MS) as u64),
            ]
        }),
{
    law_simple_frame_round_trip(CloseFrame { remote_nonce: a.remote_nonce });
    law_simple_frame_round_trip(CloseAckFrame { remote_nonce: b.remote_nonce });
    let answered = b.on_frame(
        FrameType::Close,
        frame_payload(a.close_frame()),
        answered_ms,
        rto_estimate_ms,
    ).outcome;
    assert(answered.actions =~= seq![
        HostAction::SendFrame(b.close_ack_frame()),
        HostAction::Disconnect,
        HostAction::SetRtoTimer((answered_ms + DISCONNECT_TIMEOUT_MS) as u64),
    ]);
}

/// No packet is taken in, sent or handed out unless the connection is up. In particular, none is
/// once the endpoint has been told to disconnect.
pub proof fn law_only_active_endpoints_exchange_packets(
    state: EndpointState,
    frame_type: FrameType,
    payload: Seq<u8>,
    packet: Seq<u8>,
    mode: SendMode,
    now_ms: u64,
    rto_estimate_ms: u64,
    i: int,
)
    requires
        !(state.state_id is Active),
    ensures
        !(state.on_disconnect(now_ms).outcome.state.state_id is Active),
        state.after_enqueue(packet, mode, now_ms) == state,
        state.on_flush().flush is None,
        ({
            let reaction = state.on_frame(frame_type, payload, now_ms, rto_estimate_ms);
            &&& !(reaction.outcome.state.state_id is Active)
            &&& reaction.flush is None
            &&& 0 <= i < reaction.outcome.actions.len() ==> !(reaction.outcome.actions[i] is Receive)
        }),
        state.on_timer(now_ms).flush is None,
{
}

/// A remote host which stays silent is given up: each time the timer fires, the silence either has
/// lasted too long, which ends the connection, or has grown by no less than the least timeout.
pub proof fn law_silence_ends_connection(state: EndpointState, now_ms: u64)
    requires
        state.state_id is Active || state.state_id is Closing,
        state.rto_timer is Some,
        state.silence_ms() <= u64::MAX,
    ensures
        ({
            let outcome = state.on_timer(now_ms).outcome;
            if state.silence_ms() >= state.timeout_time_ms {
                outcome.state.state_id is Zombie && outcome.actions == seq![HostAction::Timeout]
            } else {
                &&& outcome.state.state_id == state.state_id
                &&& outcome.state.rto_timer is Some
                &&& outcome.state.silence_ms() >= state.silence_ms() + RTO_MIN_MS
                &&& outcome.actions[0] is SetRtoTimer
            }
        }),
{
}

/// When no acknowledgement has come in for too long, the remote host is told which segment comes next,
/// and all reliable data which has not been acknowledged is sent again, from the start.
pub proof fn law_timeout_starts_again(state: EndpointState, now_ms: u64)
    requires
        state.wf(),
        state.state_id is Active,
        !state.ends_on_timer(),
    ensures
        ({
            let reaction = state.on_timer(now_ms);
            let before = state.fragment_tx.rel;
            let after = reaction.outcome.state.fragment_tx.rel;
            let sync = StreamSync { next_segment_id: state.segment_tx.next_id };
            &&& after.fragments == before.fragments
            &&& after.base_id == before.base_id
            &&& after.next_send_id == after.base_id
            &&& is_on_track(after)
            &&& before.fragments.len() > 0 ==> after.can_send()
            &&& reaction.outcome.actions.last() == HostAction::SendFrame(simple_frame(sync))
            &&& reaction.flush is Some
        }),
{
}

/// The datagrams which are written for as long as there is one, and room for it.
pub open spec fn flushed_datagrams(state: FragmentTxState, room: int, now_ms: u64) -> Seq<
    DatagramView,
>
    decreases room,
{
    let current = state.current(now_ms);
    let datagram = current.next_datagram();
    let size = encode_datagram(datagram).len();
    if current.has_data() && size <= room {
        seq![datagram] + flushed_datagrams(current.after_send(), room - size, now_ms)
    } else {
        Seq::empty()
    }
}

/// Takes in some datagrams, in order.
pub open spec fn after_datagrams(received: Received, datagrams: Seq<DatagramView>) -> Received
    decreases datagrams.len(),
{
    if datagrams.len() == 0 {
        received
    } else {
        after_datagrams(received.after_datagram(datagrams[0]), datagrams.skip(1))
    }
}

/// Whether no fragment is larger than a datagram can be.
spec fn has_proper_fragments(state: FragmentTxState) -> bool {
    &&& forall|i: int|
        0 <= i < state.unrel.queue.len() ==> (#[trigger] state.unrel.queue[i]).fragment.bytes().len()
            <= 65535
    &&& forall|i: int|
        0 <= i < state.rel.fragments.len() ==> (#[trigger] state.rel.fragments[i]).bytes().len()
            <= 65535
}

proof fn lemma_current_fragments(state: FragmentTxState, now_ms: u64)
    requires
        has_proper_fragments(state),
    ensures
        has_proper_fragments(state.current(now_ms)),
        state.current(now_ms).has_data() ==> state.current(now_ms).next_datagram().data.len()
            <= 65535 && has_proper_fragments(state.current(now_ms).after_send()),
{
    let current = state.current(now_ms);
    crate::buffer::unreliable::law_unexpired(state.unrel.queue, now_ms);
    let skipped = state.unrel.queue.len() - current.unrel.queue.len();
    assert forall|i: int| 0 <= i < current.unrel.queue.len() implies (
    #[trigger] current.unrel.queue[i]).fragment.bytes().len() <= 65535 by {
        assert(current.unrel.queue[i] == state.unrel.queue[i + skipped]);
    }
    if current.has_data() {
        let after = current.after_send();
        assert forall|i: int| 0 <= i < after.unrel.queue.len() implies (
        #[trigger] after.unrel.queue[i]).fragment.bytes().len() <= 65535 by {
            if current.next_channel() == super::fragment_tx::UNRELIABLE {
                assert(after.unrel.queue[i] == current.unrel.queue[i + 1]);
            }
        }
    }
}

proof fn lemma_segment_round_trip(
    state: FragmentTxState,
    received: Received,
    room: int,
    now_ms: u64,
)
    requires
        has_proper_fragments(state),
    ensures
        received.after_segment(state.flushed(room, now_ms).bytes) == after_datagrams(
            received,
            flushed_datagrams(state, room, now_ms),
        ),
    decreases room,
{
    let current = state.current(now_ms);
    let datagram = current.next_datagram();
    let bytes = encode_datagram(datagram);
    lemma_current_fragments(state, now_ms);
    if current.has_data() && bytes.len() <= room {
        let rest = current.after_send().flushed(room - bytes.len(), now_ms).bytes;
        lemma_segment_round_trip(
            current.after_send(),
            received.after_datagram(datagram),
            room - bytes.len(),
            now_ms,
        );
        law_datagram_round_trip(datagram, rest);
        assert(bytes.len() == DATAGRAM_HEADER_SIZE + datagram.data.len());
        assert((bytes + rest).skip(bytes.len() as int) =~= rest);
        let others = flushed_datagrams(current.after_send(), room - bytes.len(), now_ms);
        assert((seq![datagram] + others).skip(1) =~= others);
    } else {
        assert(decode_datagram(Seq::<u8>::empty()) is None);
    }
}

/// What is written to a segment is what is taken out of it: exactly the same datagrams, in the same
/// order.
pub proof fn law_segment_round_trip(
    state: FragmentTxState,
    received: Received,
    room: int,
    now_ms: u64,
)
    requires
        state.wf(),
    ensures
        received.after_segment(state.flushed(room, now_ms).bytes) == after_datagrams(
            received,
            flushed_datagrams(state, room, now_ms),
        ),
{
    lemma_segment_round_trip(state, received, room, now_ms);
}

/// Where the sender is in its stream of reliable fragments.
pub open spec fn unsent(state: FragmentTxState) -> Seq<Fragment> {
    state.rel.fragments.skip(delta(state.rel.next_send_id, state.rel.base_id))
}

/// Whatever else is in a segment, its reliable fragments take a receiver, which expects the fragment
/// that the sender sends next, exactly as far as the sender gets.
pub proof fn law_segment_advances_stream(
    state: FragmentTxState,
    received: Received,
    room: int,
    now_ms: u64,
)
    requires
        state.wf(),
        is_stream(state.rel.fragments, state.rel.fragment_size),
        received.reliable_rx.fragment_size == state.rel.fragment_size,
        received.reliable_rx.next_id == state.rel.next_send_id,
        is_on_track(state.rel),
    ensures
        ({
            let sent = state.flushed(room, now_ms);
            let taken = received.after_segment(sent.bytes);
            let count = delta(sent.state.rel.next_send_id, state.rel.next_send_id);
            &&& taken.reliable_rx.next_id == sent.state.rel.next_send_id
            &&& taken.reliable_rx == received.reliable_rx.after_run(
                state.rel.next_send_id,
                unsent(state),
                count as nat,
            )
        }),
{
    let base = state.rel.base_id;
    let start = delta(state.rel.next_send_id, base);
    lemma_segment_round_trip(state, received, room, now_ms);
    lemma_datagrams_advance(state, received, room, now_ms, start);
    let end = state.flushed(room, now_ms).state.rel.next_send_id;
    lemma_delta_advance(state.rel.next_send_id, base);
    lemma_delta_shift(end, base, start);
}

/// A receiver takes in a reliable fragment which it expects.
proof fn lemma_reliable_datagram(state: FragmentTxState, received: Received)
    requires
        is_stream(state.rel.fragments, state.rel.fragment_size),
        state.has_data(),
        state.next_channel() != super::fragment_tx::UNRELIABLE,
        received.reliable_rx.fragment_size == state.rel.fragment_size,
        received.reliable_rx.next_id == state.rel.next_send_id,
    ensures
        ({
            let taken = received.after_datagram(state.next_datagram());
            let first = seq![state.rel.next_fragment()];
            &&& taken.reliable_rx.fragment_size == state.rel.fragment_size
            &&& taken.reliable_rx.next_id == advance(state.rel.next_send_id, 1)
            &&& taken.reliable_rx == received.reliable_rx.after_run(
                state.rel.next_send_id,
                first,
                1,
            )
        }),
{
    let i = delta(state.rel.next_send_id, state.rel.base_id);
    let fragment = state.rel.fragments[i];
    assert(fits(fragment.last, fragment.bytes().len(), state.rel.fragment_size));
    reveal_with_fuel(ReliableRxState::after_run, 2);
}

proof fn lemma_datagrams_advance(
    state: FragmentTxState,
    received: Received,
    room: int,
    now_ms: u64,
    start: int,
)
    requires
        is_stream(state.rel.fragments, state.rel.fragment_size),
        received.reliable_rx.fragment_size == state.rel.fragment_size,
        received.reliable_rx.next_id == state.rel.next_send_id,
        start == delta(state.rel.next_send_id, state.rel.base_id),
        start <= state.rel.fragments.len(),
    ensures
        ({
            let sent = state.flushed(room, now_ms);
            let taken = after_datagrams(received, flushed_datagrams(state, room, now_ms));
            let end = delta(sent.state.rel.next_send_id, state.rel.base_id);
            &&& start <= end <= state.rel.fragments.len()
            &&& taken.reliable_rx.next_id == sent.state.rel.next_send_id
            &&& taken.reliable_rx == received.reliable_rx.after_run(
                state.rel.next_send_id,
                state.rel.fragments.skip(start),
                (end - start) as nat,
            )
        }),
    decreases room,
{
    let current = state.current(now_ms);
    let datagram = current.next_datagram();
    let bytes = encode_datagram(datagram);
    let others = flushed_datagrams(current.after_send(), room - bytes.len(), now_ms);
    assert((seq![datagram] + others).skip(1) =~= others);
    if current.has_data() && bytes.len() <= room {
        let next = current.after_send();
        let taken_one = received.after_datagram(datagram);
        let end = delta(state.flushed(room, now_ms).state.rel.next_send_id, state.rel.base_id);
        if current.next_channel() == super::fragment_tx::UNRELIABLE {
            assert(taken_one.reliable_rx == received.reliable_rx);
            assert(next.rel == state.rel);
            lemma_datagrams_advance(next, taken_one, room - bytes.len(), now_ms, start);
        } else {
            let id = state.rel.next_send_id;
            lemma_reliable_datagram(current, received);
            assert(next.rel.fragments == state.rel.fragments);
            assert(next.rel.base_id == state.rel.base_id);
            assert(next.rel.next_send_id == advance(id, 1));
            assert(delta(advance(id, 1), state.rel.base_id) == start + 1);
            lemma_datagrams_advance(next, taken_one, room - bytes.len(), now_ms, start + 1);
            let first = seq![state.rel.fragments[start]];
            let rest = state.rel.fragments.skip(start + 1);
            assert(state.rel.fragments.skip(start) =~= first + rest);
            lemma_run_split(received.reliable_rx, id, first, rest, (end - start - 1) as nat);
        }
    }
}

/// Whether the receiving end expects what the sending end sends next, and holds nothing back.
pub open spec fn is_in_step(a: EndpointState, b: EndpointState) -> bool {
    &&& a.state_id is Active
    &&& b.state_id is Active
    &&& b.segment_rx.base_id == a.segment_tx.next_id
    &&& b.segment_rx.pending.len() == 0
    &&& b.segment_rx.window_size > 0
}

/// A frame which is sent while it is expected is taken in as it was written: the receiving end deals
/// with exactly the datagrams which the sending end has picked, and acknowledges them.
pub proof fn law_frame_is_taken_in(
    a: EndpointState,
    b: EndpointState,
    nonce: bool,
    sent_ms: u64,
    received_ms: u64,
    rto_estimate_ms: u64,
)
    requires
        a.wf(),
        b.wf(),
        is_in_step(a, b),
        a.can_send_data(sent_ms),
    ensures
        ({
            let room = EndpointState::segment_room(false);
            let flushed = a.current(sent_ms).fragment_tx.flushed(room, sent_ms);
            let header = StreamSegmentHeader { id: a.segment_tx.next_id, nonce };
            let payload = header.encode() + flushed.bytes;
            let sent = a.after_stream_frame(false, false, nonce, sent_ms);
            let reaction = b.on_frame(
                FrameType::StreamSegment,
                payload,
                received_ms,
                rto_estimate_ms,
            );
            let taken = after_datagrams(
                b.receiving(),
                flushed_datagrams(a.current(sent_ms).fragment_tx, room, sent_ms),
            );
            &&& sent.actions.last() == HostAction::SendFrame(
                frame_bytes(FrameType::StreamSegment, payload),
            )
            &&& sent.state.fragment_tx == flushed.state
            &&& reaction.outcome.actions == taken.actions
            &&& reaction.outcome.state.reliable_rx == taken.reliable_rx
            &&& reaction.outcome.state.unreliable_rx == taken.unreliable_rx
            &&& reaction.flush == Some((true, taken.any_rel))
            &&& is_in_step(sent.state, reaction.outcome.state)
        }),
{
    reveal(EndpointState::after_stream_frame);
    lemma_block_sizes();
    let room = EndpointState::segment_room(false);
    let tx = a.current(sent_ms).fragment_tx;
    let flushed = tx.flushed(room, sent_ms);
    let header = StreamSegmentHeader { id: a.segment_tx.next_id, nonce };
    let payload = header.encode() + flushed.bytes;
    header.round_trip(flushed.bytes);
    assert(payload.skip(STREAM_SEGMENT_HEADER_SIZE as int) =~= flushed.bytes);
    let segment = Segment { id: header.id, nonce, data: flushed.bytes };
    lemma_expected(b.segment_rx, segment);
    assert(seq![segment] + b.segment_rx.pending =~= seq![segment]);
    assert(segment_bytes(seq![segment]) =~= seq![flushed.bytes]);
    let none = b.receiving();
    reveal_with_fuel(Received::after_segments, 2);
    assert(seq![flushed.bytes].drop_last() =~= Seq::empty());
    assert(none.after_segments(seq![flushed.bytes]) == none.after_segment(flushed.bytes));
    lemma_current_round_trip(a, b.receiving(), room, sent_ms);
    assert(Seq::<u8>::empty() + header.encode() + flushed.bytes =~= payload);
}

pub(crate) proof fn lemma_current_round_trip(
    a: EndpointState,
    received: Received,
    room: int,
    now_ms: u64,
)
    requires
        a.wf(),
    ensures
        ({
            let tx = a.current(now_ms).fragment_tx;
            received.after_segment(tx.flushed(room, now_ms).bytes) == after_datagrams(
                received,
                flushed_datagrams(tx, room, now_ms),
            )
        }),
{
    lemma_current_fragments(a.fragment_tx, now_ms);
    lemma_segment_round_trip(a.current(now_ms).fragment_tx, received, room, now_ms);
}

/// A frame which is sent while it is expected takes the reliable channel of the receiving end exactly
/// as far as that of the sending end gets.
pub proof fn law_frame_advances_stream(
    a: EndpointState,
    b: EndpointState,
    nonce: bool,
    sent_ms: u64,
    received_ms: u64,
    rto_estimate_ms: u64,
)
    requires
        a.wf(),
        b.wf(),
        is_in_step(a, b),
        a.can_send_data(sent_ms),
        is_stream(a.fragment_tx.rel.fragments, a.fragment_tx.rel.fragment_size),
        is_on_track(a.fragment_tx.rel),
        b.reliable_rx.fragment_size == a.fragment_tx.rel.fragment_size,
        b.reliable_rx.next_id == a.fragment_tx.rel.next_send_id,
    ensures
        ({
            let header = StreamSegmentHeader { id: a.segment_tx.next_id, nonce };
            let room = EndpointState::segment_room(false);
            let bytes = a.current(sent_ms).fragment_tx.flushed(room, sent_ms).bytes;
            let sent = a.after_stream_frame(false, false, nonce, sent_ms).state.fragment_tx.rel;
            let after = b.on_frame(
                FrameType::StreamSegment,
                header.encode() + bytes,
                received_ms,
                rto_estimate_ms,
            ).outcome.state.reliable_rx;
            let start = a.fragment_tx.rel.next_send_id;
            &&& after.next_id == sent.next_send_id
            &&& after == b.reliable_rx.after_run(
                start,
                unsent(a.fragment_tx),
                delta(sent.next_send_id, start) as nat,
            )
        }),
{
    let tx = a.current(sent_ms).fragment_tx;
    let room = EndpointState::segment_room(false);
    let start = delta(tx.rel.next_send_id, tx.rel.base_id);
    law_frame_is_taken_in(a, b, nonce, sent_ms, received_ms, rto_estimate_ms);
    lemma_datagrams_advance(tx, b.receiving(), room, sent_ms, start);
    lemma_delta_advance(tx.rel.next_send_id, tx.rel.base_id);
    lemma_delta_shift(
        tx.flushed(room, sent_ms).state.rel.next_send_id,
        tx.rel.base_id,
        start,
    );
}

} // verus!
