//! How an endpoint copes with silence, loss and reordering.

use vstd::prelude::*;

use super::laws::{is_in_step, remembers_nonces};
use super::lifecycle::stream_type;
use super::model::{EndpointState, HostAction, Received};
use super::segment_rx::{
    knows_nonces, lemma_expected, lemma_held_back, lemma_inserted, segment_bytes, Segment,
};
use super::segment_tx::{lemma_nonce_history_bit, lemma_slots};
use super::traffic::{is_carrying, last_frame, packets_of, reaction_to, send_position};
use super::{RTO_MAX_MS, RTO_MIN_MS};
use crate::bits::push_zeros;
use crate::buffer::reliable::RxState as ReliableRxState;
use crate::frame::serial::{
    decode_datagram, law_simple_frame_round_trip, lemma_block_sizes, lemma_frame_sizes,
    simple_frame, BlockSerial, SimplePayloadRead, DATAGRAM_HEADER_SIZE, STREAM_ACK_SIZE,
    STREAM_SEGMENT_HEADER_SIZE,
};
use crate::frame::{FrameType, StreamAck, StreamSegmentHeader, StreamSync};
use crate::id::{advance, delta, lemma_advance_sum};

verus! {

/// Whether the remote host, if the timer fires at `timer_ms`, will have been silent since
/// `since_ms` for as long as has been counted.
pub open spec fn counts_silence(state: EndpointState, timer_ms: u64, since_ms: int) -> bool {
    &&& state.rto_timer is Some
    &&& since_ms + state.silence_ms() <= timer_ms
}

/// The time for which a timer has been set.
pub open spec fn timer_time(action: HostAction) -> u64 {
    action->SetRtoTimer_0
}

/// The silence of the remote host is counted from the moment at which the first segment is sent.
pub proof fn law_silence_is_counted_from_first_segment(
    state: EndpointState,
    send_ack: bool,
    ack_rel: bool,
    nonce: bool,
    now_ms: u64,
)
    requires
        state.wf(),
        state.rto_timer is None,
        state.can_send_data(now_ms),
        now_ms + RTO_MAX_MS <= u64::MAX,
    ensures
        ({
            let sent = state.after_stream_frame(send_ack, ack_rel, nonce, now_ms);
            let set = sent.actions[0];
            &&& set is SetRtoTimer
            &&& counts_silence(sent.state, timer_time(set), now_ms as int)
            &&& timer_time(set) == now_ms + sent.state.silence_ms()
            &&& timer_time(set) == now_ms + state.rto_ms
        }),
{
    reveal(EndpointState::after_stream_frame);
}

/// It is counted anew with each acknowledgement, as long as there is anything left to acknowledge.
/// Once there is not, the timer is stopped.
pub proof fn law_silence_is_counted_from_ack(
    state: EndpointState,
    kind: FrameType,
    payload: Seq<u8>,
    now_ms: u64,
    rto_estimate_ms: u64,
)
    requires
        state.wf(),
        state.state_id is Active,
        kind is StreamAck || kind is StreamSegmentAck,
        payload.len() >= STREAM_ACK_SIZE,
        state.rto_timer is Some,
        now_ms + RTO_MAX_MS <= u64::MAX,
    ensures
        ({
            let outcome = state.on_frame(kind, payload, now_ms, rto_estimate_ms).outcome;
            let is_all = StreamAck::decode(payload).segment_id == state.segment_tx.next_id;
            let set = outcome.actions[0];
            &&& is_all ==> set is UnsetRtoTimer && outcome.state.rto_timer is None
            &&& !is_all ==> {
                &&& set is SetRtoTimer
                &&& counts_silence(outcome.state, timer_time(set), now_ms as int)
                &&& timer_time(set) == now_ms + outcome.state.silence_ms()
                &&& timer_time(set) == now_ms + outcome.state.rto_ms
            }
        }),
{
}

/// A remote host is given up only once it has been silent for as long as the endpoint has been told
/// to wait, and is then given up at once. Until then the timer is set again and again, with a
/// timeout which is doubled each time, up to a limit.
pub proof fn law_patience(state: EndpointState, timer_ms: u64, since_ms: int, now_ms: u64)
    requires
        state.wf(),
        state.state_id is Active || state.state_id is Closing,
        counts_silence(state, timer_ms, since_ms),
        timer_ms <= now_ms,
        now_ms + RTO_MAX_MS <= u64::MAX,
    ensures
        ({
            let reaction = state.on_timer(now_ms);
            let after = reaction.outcome.state;
            let set = reaction.outcome.actions[0];
            if after.state_id is Zombie {
                &&& now_ms - since_ms >= state.timeout_time_ms
                &&& reaction.outcome.actions == seq![HostAction::Timeout]
                &&& reaction.flush is None
            } else {
                &&& after.state_id == state.state_id
                &&& after.timeout_time_ms == state.timeout_time_ms
                &&& state.silence_ms() < state.timeout_time_ms
                &&& set is SetRtoTimer
                &&& counts_silence(after, timer_time(set), since_ms)
                &&& timer_time(set) == now_ms + after.rto_ms
                &&& after.rto_ms == if 2 * state.rto_ms > RTO_MAX_MS {
                    RTO_MAX_MS as int
                } else {
                    2 * state.rto_ms
                }
                &&& after.silence_ms() == state.silence_ms() + after.rto_ms
            }
        }),
{
}

/// If the timer fires on time, time after time, the silence which has been counted is exactly the
/// time for which the remote host has been silent, and the remote host is given up as soon as this
/// is no less than the time for which the endpoint has been told to wait.
pub proof fn law_patience_is_exact(state: EndpointState, since_ms: int, now_ms: u64)
    requires
        state.wf(),
        state.state_id is Active || state.state_id is Closing,
        state.rto_timer is Some,
        since_ms + state.silence_ms() == now_ms,
        now_ms + RTO_MAX_MS <= u64::MAX,
    ensures
        ({
            let outcome = state.on_timer(now_ms).outcome;
            let is_over = now_ms - since_ms >= state.timeout_time_ms;
            &&& is_over ==> outcome.state.state_id is Zombie
            &&& is_over ==> outcome.actions == seq![HostAction::Timeout]
            &&& !is_over ==> {
                &&& outcome.state.state_id == state.state_id
                &&& outcome.state.rto_timer is Some
                &&& outcome.actions[0] is SetRtoTimer
                &&& since_ms + outcome.state.silence_ms() == timer_time(outcome.actions[0])
            }
        }),
{
}

/// How long an endpoint waits for the remote host, and how its channels share the connection, never
/// changes.
pub proof fn law_settings_stay(
    state: EndpointState,
    kind: FrameType,
    payload: Seq<u8>,
    packet: Seq<u8>,
    mode: crate::SendMode,
    now_ms: u64,
    rto_estimate_ms: u64,
)
    ensures
        has_settings(state, state.on_frame(kind, payload, now_ms, rto_estimate_ms).outcome.state),
        has_settings(state, state.on_timer(now_ms).outcome.state),
        has_settings(state, state.on_disconnect(now_ms).outcome.state),
        has_settings(state, state.on_flush().outcome.state),
        has_settings(state, state.after_enqueue(packet, mode, now_ms)),
{
}

/// Whether one state has the settings of another.
pub open spec fn has_settings(a: EndpointState, b: EndpointState) -> bool {
    &&& b.timeout_time_ms == a.timeout_time_ms
    &&& b.fragment_tx.prio.config == a.fragment_tx.prio.config
    &&& b.local_nonce == a.local_nonce
    &&& b.remote_nonce == a.remote_nonce
}

/// Whether something is in transit only while the timer is running.
pub open spec fn is_watched(state: EndpointState) -> bool {
    state.state_id is Active && state.segment_tx.transit.len() > 0 ==> state.rto_timer is Some
}

/// Whatever happens, the timer runs for as long as segments are in transit.
pub proof fn law_transit_is_watched(
    state: EndpointState,
    kind: FrameType,
    payload: Seq<u8>,
    send_ack: bool,
    ack_rel: bool,
    nonce: bool,
    now_ms: u64,
    rto_estimate_ms: u64,
)
    requires
        state.wf(),
        is_watched(state),
    ensures
        is_watched(state.on_frame(kind, payload, now_ms, rto_estimate_ms).outcome.state),
        is_watched(state.on_timer(now_ms).outcome.state),
        is_watched(state.after_stream_frame(send_ack, ack_rel, nonce, now_ms).state),
        is_watched(state.on_disconnect(now_ms).outcome.state),
{
    reveal(EndpointState::after_stream_frame);
}

/// The time between a segment and the acknowledgement of all segments up to it is the round trip
/// time, which is measured for one segment at a time. The estimate which follows from it becomes
/// the timeout, within limits.
pub proof fn law_round_trip_is_measured(
    state: EndpointState,
    send_ack: bool,
    ack_rel: bool,
    nonce: bool,
    sent_ms: u64,
    kind: FrameType,
    payload: Seq<u8>,
    now_ms: u64,
    rto_estimate_ms: u64,
)
    requires
        state.wf(),
        state.state_id is Active,
        state.rtt_timer is None,
        state.can_send_data(sent_ms),
        sent_ms + RTO_MAX_MS <= u64::MAX,
        sent_ms <= now_ms,
        kind is StreamAck || kind is StreamSegmentAck,
        payload.len() >= STREAM_ACK_SIZE,
    ensures
        ({
            let sent = state.after_stream_frame(send_ack, ack_rel, nonce, sent_ms).state;
            let is_answer = StreamAck::decode(payload).segment_id == advance(
                state.segment_tx.next_id,
                1,
            );
            let after = sent.on_frame(kind, payload, now_ms, rto_estimate_ms).outcome.state;
            &&& sent.can_sample_rtt(now_ms)
            &&& is_answer ==> {
                &&& sent.rtt_sample(kind, payload, now_ms) == Some((now_ms - sent_ms) as u64)
                &&& after.rtt_timer is None
                &&& RTO_MIN_MS <= rto_estimate_ms <= RTO_MAX_MS ==> after.rto_ms == rto_estimate_ms
                &&& rto_estimate_ms < RTO_MIN_MS ==> after.rto_ms == RTO_MIN_MS
                &&& rto_estimate_ms > RTO_MAX_MS ==> after.rto_ms == RTO_MAX_MS
            }
            &&& !is_answer ==> {
                &&& sent.rtt_sample(kind, payload, now_ms) is None
                &&& after.rto_ms == state.rto_ms
                &&& (after.rtt_timer is None) == (now_ms >= sent_ms + state.rto_ms)
                &&& after.rtt_timer is Some ==> after.rtt_timer == sent.rtt_timer
            }
        }),
{
    reveal(EndpointState::after_stream_frame);
}

/// No other frame reveals a round trip time, and none is measured while another is.
pub proof fn law_one_round_trip_at_a_time(
    state: EndpointState,
    kind: FrameType,
    payload: Seq<u8>,
    send_ack: bool,
    ack_rel: bool,
    nonce: bool,
    now_ms: u64,
)
    ensures
        !(kind is StreamAck || kind is StreamSegmentAck) ==> state.rtt_sample(
            kind,
            payload,
            now_ms,
        ) is None,
        state.rtt_timer is None ==> state.rtt_sample(kind, payload, now_ms) is None,
        !(state.state_id is Active) ==> state.rtt_sample(kind, payload, now_ms) is None,
        state.rtt_timer is Some ==> state.after_stream_frame(
            send_ack,
            ack_rel,
            nonce,
            now_ms,
        ).state.rtt_timer == state.rtt_timer,
{
    reveal(EndpointState::after_stream_frame);
}

/// What is reported goes into the frame: with the next acknowledgement, a sender which remembers
/// its nonces believes a receiver which knows them.
pub proof fn law_honest_acks_are_believed(
    a: EndpointState,
    b: EndpointState,
    ack_rel: bool,
    nonce: spec_fn(u32) -> bool,
    now_ms: u64,
    rto_estimate_ms: u64,
)
    requires
        a.wf(),
        a.state_id is Active,
        a.segment_tx.ack_is_valid(b.segment_rx.base_id),
        remembers_nonces(a.segment_tx, nonce),
        knows_nonces(b.segment_rx, nonce),
    ensures
        ({
            let ack = b.next_ack(ack_rel);
            let n = delta(b.segment_rx.base_id, a.segment_tx.base_id);
            let history = b.segment_rx.rx_history & 0x1F;
            let after = a.on_frame(
                FrameType::StreamAck,
                ack.encode(),
                now_ms,
                rto_estimate_ms,
            ).outcome.state;
            &&& ack.segment_id == b.segment_rx.base_id
            &&& ack.rel_fragment_id == if ack_rel {
                Some(b.reliable_rx.next_id)
            } else {
                None
            }
            &&& after.segment_tx.base_id == b.segment_rx.base_id
            &&& after.segment_tx.ack_history == u32::MAX || after.segment_tx.ack_history
                == push_zeros(a.segment_tx.ack_history, n) | history
            &&& remembers_nonces(after.segment_tx, nonce)
        }),
{
    let ack = b.next_ack(ack_rel);
    let x = b.segment_rx.rx_history;
    lemma_low_bits(x);
    lemma_block_sizes();
    ack.round_trip(Seq::empty());
    assert(ack.encode() + Seq::empty() =~= ack.encode());
    super::laws::law_honest_report(a.segment_tx, b.segment_rx, nonce);
    let tx = a.segment_tx;
    let n = delta(b.segment_rx.base_id, tx.base_id);
    let after = a.on_frame(
        FrameType::StreamAck,
        ack.encode(),
        now_ms,
        rto_estimate_ms,
    ).outcome.state.segment_tx;
    assert forall|i: int| 0 <= i < after.transit.len() implies #[trigger] after.nonce(
        advance(after.base_id, i),
    ) == nonce(advance(after.base_id, i)) by {
        lemma_advance_sum(tx.base_id, n, i);
        assert(tx.nonce(advance(tx.base_id, n + i)) == nonce(advance(tx.base_id, n + i)));
    }
    assert forall|i: u32| i < 32 implies #[trigger] crate::bits::bit(after.nonce_history, i)
        == nonce(advance(after.base_id, -1 - i)) by {
        lemma_nonce_history_bit(tx, n, i);
        if i < n {
            lemma_advance_sum(tx.base_id, n, -1 - i);
            let j = n - 1 - i;
            assert(tx.nonce(advance(tx.base_id, j)) == nonce(advance(tx.base_id, j)));
        } else {
            lemma_advance_sum(tx.base_id, n, -1 - i);
            let j = (i - n) as u32;
            assert(crate::bits::bit(tx.nonce_history, j) == nonce(advance(tx.base_id, -1 - j)));
        }
    }
}

proof fn lemma_low_bits(x: u32)
    by (bit_vector)
    ensures
        (x & 0x1F) as u8 <= 0x1F,
        (x & 0x1F) as u8 as u32 == x & 0x1F,
{
}

/// A sender remembers the nonce of each segment which it sends, as long as the segment is in
/// transit.
pub proof fn law_sent_nonces_are_remembered(
    state: EndpointState,
    send_ack: bool,
    ack_rel: bool,
    sent_nonce: bool,
    now_ms: u64,
    nonce: spec_fn(u32) -> bool,
)
    requires
        state.wf(),
        state.can_send_data(now_ms),
        remembers_nonces(state.segment_tx, nonce),
        sent_nonce == nonce(state.segment_tx.next_id),
    ensures
        remembers_nonces(
            state.after_stream_frame(send_ack, ack_rel, sent_nonce, now_ms).state.segment_tx,
            nonce,
        ),
{
    reveal(EndpointState::after_stream_frame);
    let tx = state.segment_tx;
    let sent = state.after_stream_frame(send_ack, ack_rel, sent_nonce, now_ms).state.segment_tx;
    let len = tx.transit.len() as int;
    assert(advance(tx.base_id, len) == tx.next_id);
    assert forall|i: int| 0 <= i < sent.transit.len() implies #[trigger] sent.nonce(
        advance(sent.base_id, i),
    ) == nonce(advance(sent.base_id, i)) by {
        if i < len {
            lemma_slots(tx.base_id, i, len, tx.size);
            assert(tx.nonce(advance(tx.base_id, i)) == nonce(advance(tx.base_id, i)));
        }
    }
}

/// An acknowledgement of what has been received takes exactly that off the reliable queue, and the
/// channel goes on carrying its packets. (One which overtakes the fragment that is to be sent next
/// makes the sender wait for a restart.)
pub proof fn law_ack_carries_on(
    a: EndpointState,
    b: EndpointState,
    payload: Seq<u8>,
    kind: FrameType,
    now_ms: u64,
    rto_estimate_ms: u64,
    origin: ReliableRxState,
    packets: Seq<Seq<u8>>,
    base: int,
    n: int,
)
    requires
        a.wf(),
        a.state_id is Active,
        is_carrying(a.fragment_tx.rel, b.reliable_rx, origin, packets, base, n),
        base < n <= send_position(a.fragment_tx.rel, base),
        kind is StreamAck || kind is StreamSegmentAck,
        payload.len() >= STREAM_ACK_SIZE,
        StreamAck::decode(payload).rel_fragment_id == b.next_ack(true).rel_fragment_id,
    ensures
        ({
            let after = a.on_frame(kind, payload, now_ms, rto_estimate_ms).outcome.state;
            &&& is_carrying(after.fragment_tx.rel, b.reliable_rx, origin, packets, n, n)
            &&& send_position(after.fragment_tx.rel, n) == send_position(a.fragment_tx.rel, base)
        }),
{
    let rel = a.fragment_tx.rel;
    let stream = crate::buffer::stream::stream_of(packets, super::FRAGMENT_SIZE as nat);
    crate::buffer::stream::law_stream_fits(packets, super::FRAGMENT_SIZE as nat);
    crate::buffer::stream::lemma_next_id(origin, stream, n as nat);
    let id = b.reliable_rx.next_id;
    lemma_advance_sum(origin.next_id, base, n - base);
    assert(id == advance(rel.base_id, n - base));
    assert(delta(id, rel.base_id) == n - base);
    assert(stream.skip(base).skip(n - base) =~= stream.skip(n));
    let after = a.on_frame(kind, payload, now_ms, rto_estimate_ms).outcome.state.fragment_tx.rel;
    assert(after == rel.after_ack(id));
    assert forall|i: int| 0 <= i < after.fragments.len() implies (#[trigger] after.fragments[i]).wf()
        && after.fragments[i].bytes().len() <= after.fragment_size by {
        assert(after.fragments[i] == rel.fragments[i + (n - base)]);
    }
}

/// Whether an end which holds nothing back can catch up with the other.
pub open spec fn can_catch_up(a: EndpointState, b: EndpointState) -> bool {
    &&& b.segment_rx.pending.len() == 0
    &&& b.segment_rx.window_size > 0
    &&& delta(a.segment_tx.next_id, b.segment_rx.base_id) <= b.segment_rx.window_size
}

/// After a timeout the two ends are in step again, however many segments have been lost: the other
/// end catches up, and answers. The reliable channel starts again from the first fragment which has
/// not been acknowledged, and goes on carrying its packets. The congestion window starts again,
/// too.
pub proof fn law_timeout_recovers(
    a: EndpointState,
    b: EndpointState,
    now_ms: u64,
    received_ms: u64,
    rto_estimate_ms: u64,
    origin: ReliableRxState,
    packets: Seq<Seq<u8>>,
    base: int,
    n: int,
)
    requires
        a.wf(),
        b.wf(),
        a.state_id is Active,
        b.state_id is Active,
        can_catch_up(a, b),
        a.rto_timer is Some,
        a.silence_ms() < a.timeout_time_ms,
        is_carrying(a.fragment_tx.rel, b.reliable_rx, origin, packets, base, n),
    ensures
        ({
            let outcome = a.on_timer(now_ms).outcome;
            let reaction = reaction_to(b, outcome.actions, received_ms, rto_estimate_ms);
            let after = reaction.outcome.state;
            &&& outcome.actions.last() is SendFrame
            &&& is_in_step(outcome.state, after)
            &&& is_carrying(
                outcome.state.fragment_tx.rel,
                after.reliable_rx,
                origin,
                packets,
                base,
                n,
            )
            &&& send_position(outcome.state.fragment_tx.rel, base) == base
            &&& packets_of(reaction.outcome.actions).len() == 0
            &&& reaction.flush == Some((true, true))
            &&& a.on_timer(now_ms).flush is Some
            &&& outcome.state.cc.cwnd == 10 * a.cc.mss
            &&& outcome.state.segment_tx == a.segment_tx
            &&& outcome.state.fragment_tx.unrel == a.fragment_tx.unrel
        }),
{
    let sync = StreamSync { next_segment_id: a.segment_tx.next_id };
    law_simple_frame_round_trip(sync);
    assert(segment_bytes(Seq::<Segment>::empty()) =~= Seq::empty());
    assert(segment_bytes(b.segment_rx.pending) =~= Seq::empty());
    assert(b.receiving().after_segments(Seq::empty()) == b.receiving());
    lemma_frame_sizes();
    let outcome = a.on_timer(now_ms).outcome;
    let reaction = reaction_to(b, outcome.actions, received_ms, rto_estimate_ms);
    assert(last_frame(outcome.actions) == simple_frame(sync));
    assert(reaction == b.on_sync(sync.encode()));
    assert(b.segment_rx.after_deliveries(0) == b.segment_rx);
    assert(is_in_step(outcome.state, reaction.outcome.state));
}

/// An end which is told how far the other has got hands out what it has held back, gives up what is
/// missing, and answers. A packet of which unreliable fragments are missing is given up.
pub proof fn law_sync_hands_out_what_is_held_back(
    b: EndpointState,
    next_segment_id: u32,
    now_ms: u64,
    rto_estimate_ms: u64,
)
    requires
        b.wf(),
        b.state_id is Active,
        b.segment_rx.pending.len() > 0,
        delta(b.segment_rx.pending.last().id, b.segment_rx.base_id) < delta(
            next_segment_id,
            b.segment_rx.base_id,
        ) <= b.segment_rx.window_size,
    ensures
        ({
            let sync = StreamSync { next_segment_id };
            let reaction = b.on_frame(
                FrameType::StreamSync,
                sync.encode(),
                now_ms,
                rto_estimate_ms,
            );
            let after = reaction.outcome.state;
            let taken = b.receiving().after_segments(segment_bytes(b.segment_rx.pending));
            &&& after.segment_rx.base_id == next_segment_id
            &&& after.segment_rx.pending.len() == 0
            &&& packets_of(reaction.outcome.actions) == packets_of(taken.actions)
            &&& after.reliable_rx == taken.reliable_rx
            &&& after.unreliable_rx.build is None
            &&& after.unreliable_rx.fragment_size == taken.unreliable_rx.fragment_size
            &&& reaction.flush == Some((true, true))
        }),
{
    let sync = StreamSync { next_segment_id };
    lemma_block_sizes();
    sync.round_trip(Seq::empty());
    assert(sync.encode() + Seq::empty() =~= sync.encode());
    super::segment_rx::law_sync_catches_up(b.segment_rx, next_segment_id);
}

/// What comes of a segment does not depend on what has been handed out before.
proof fn lemma_segment_actions(a: Received, b: Received, bytes: Seq<u8>)
    requires
        a.unreliable_rx == b.unreliable_rx,
        a.reliable_rx == b.reliable_rx,
    ensures
        ({
            let x = a.after_segment(bytes);
            let y = b.after_segment(bytes);
            &&& x.unreliable_rx == y.unreliable_rx
            &&& x.reliable_rx == y.reliable_rx
            &&& a.actions.is_prefix_of(x.actions)
            &&& b.actions.is_prefix_of(y.actions)
            &&& x.actions == a.actions + y.actions.skip(b.actions.len() as int)
            &&& !b.any_rel ==> x.any_rel == (a.any_rel || y.any_rel)
            &&& b.any_rel ==> y.any_rel
            &&& a.any_rel ==> x.any_rel
            &&& a.any_rel == b.any_rel ==> x.any_rel == y.any_rel
        }),
    decreases bytes.len(),
{
    match decode_datagram(bytes) {
        Some(datagram) => {
            let p = a.after_datagram(datagram);
            let q = b.after_datagram(datagram);
            let rest = bytes.skip(DATAGRAM_HEADER_SIZE + datagram.data.len() as int);
            lemma_segment_actions(p, q, rest);
            let x = p.after_segment(rest);
            let y = q.after_segment(rest);
            let more = y.actions.skip(q.actions.len() as int);
            assert(y.actions.skip(b.actions.len() as int) =~= q.actions.skip(b.actions.len() as int)
                + more);
            assert(p.actions =~= a.actions + q.actions.skip(b.actions.len() as int));
            assert(x.actions =~= a.actions + y.actions.skip(b.actions.len() as int));
        },
        None => {
            assert(a.actions + b.actions.skip(b.actions.len() as int) =~= a.actions);
        },
    }
}

/// The payload of a frame which only holds a segment.
pub open spec fn segment_payload(id: u32, nonce: bool, bytes: Seq<u8>) -> Seq<u8> {
    StreamSegmentHeader { id, nonce }.encode() + bytes
}

/// Two segments which arrive in the wrong order come to the same as in the right order: nothing is
/// handed out until the first has come in, and then the packets of both are, in the right order.
pub proof fn law_reordered_frames_come_to_the_same(
    b: EndpointState,
    first_nonce: bool,
    first: Seq<u8>,
    second_nonce: bool,
    second: Seq<u8>,
    now_ms: u64,
    rto_estimate_ms: u64,
)
    requires
        b.wf(),
        b.state_id is Active,
        b.segment_rx.pending.len() == 0,
        b.segment_rx.window_size >= 2,
    ensures
        ({
            let kind = stream_type(false, true);
            let id = b.segment_rx.base_id;
            let p = segment_payload(id, first_nonce, first);
            let q = segment_payload(advance(id, 1), second_nonce, second);
            let right_one = b.on_frame(kind, p, now_ms, rto_estimate_ms).outcome;
            let right = right_one.state.on_frame(kind, q, now_ms, rto_estimate_ms).outcome;
            let wrong_one = b.on_frame(kind, q, now_ms, rto_estimate_ms).outcome;
            let wrong = wrong_one.state.on_frame(kind, p, now_ms, rto_estimate_ms).outcome;
            &&& wrong_one.actions.len() == 0
            &&& wrong.actions == right_one.actions + right.actions
            &&& wrong.state.reliable_rx == right.state.reliable_rx
            &&& wrong.state.unreliable_rx == right.state.unreliable_rx
            &&& wrong.state.segment_rx.base_id == right.state.segment_rx.base_id == advance(id, 2)
            &&& wrong.state.segment_rx.pending.len() == 0
            &&& right.state.segment_rx.pending.len() == 0
        }),
{
    let id = b.segment_rx.base_id;
    let x = Segment { id, nonce: first_nonce, data: first };
    let y = Segment { id: advance(id, 1), nonce: second_nonce, data: second };
    lemma_plain_segment(b, x, now_ms, rto_estimate_ms);
    lemma_plain_segment(b, y, now_ms, rto_estimate_ms);
    lemma_plain_segment(b.after_segment(x).state, y, now_ms, rto_estimate_ms);
    lemma_plain_segment(b.after_segment(y).state, x, now_ms, rto_estimate_ms);
    lemma_two_segments(b, x, y);
}

/// What comes of a frame which only holds a segment.
proof fn lemma_plain_segment(
    b: EndpointState,
    segment: Segment,
    now_ms: u64,
    rto_estimate_ms: u64,
)
    requires
        b.state_id is Active,
    ensures
        b.on_frame(
            stream_type(false, true),
            segment_payload(segment.id, segment.nonce, segment.data),
            now_ms,
            rto_estimate_ms,
        ).outcome == b.after_segment(segment),
        b.after_segment(segment).state.state_id is Active,
{
    let payload = segment_payload(segment.id, segment.nonce, segment.data);
    lemma_block_sizes();
    StreamSegmentHeader { id: segment.id, nonce: segment.nonce }.round_trip(segment.data);
    assert(payload.skip(STREAM_SEGMENT_HEADER_SIZE as int) =~= segment.data);
    let outcome = b.on_segment(payload).outcome;
    assert(Seq::<HostAction>::empty() + outcome.actions =~= outcome.actions);
}

proof fn lemma_two_segments(b: EndpointState, x: Segment, y: Segment)
    requires
        b.segment_rx.wf(),
        b.segment_rx.pending.len() == 0,
        b.segment_rx.window_size >= 2,
        x.id == b.segment_rx.base_id,
        y.id == advance(x.id, 1),
    ensures
        ({
            let right_one = b.after_segment(x);
            let right = right_one.state.after_segment(y);
            let wrong_one = b.after_segment(y);
            let wrong = wrong_one.state.after_segment(x);
            &&& wrong_one.actions.len() == 0
            &&& wrong.actions == right_one.actions + right.actions
            &&& wrong.state.reliable_rx == right.state.reliable_rx
            &&& wrong.state.unreliable_rx == right.state.unreliable_rx
            &&& wrong.state.segment_rx.base_id == right.state.segment_rx.base_id == advance(x.id, 2)
            &&& wrong.state.segment_rx.pending.len() == 0
            &&& right.state.segment_rx.pending.len() == 0
        }),
{
    let rx = b.segment_rx;
    lemma_expected(rx, x);
    lemma_expected(rx.after(x), y);
    lemma_held_back(rx, y);
    lemma_inserted(rx, y);
    lemma_expected(rx.after(y), x);
    lemma_advance_sum(x.id, 1, 1);
    assert(seq![x] + rx.pending =~= seq![x]);
    assert(seq![y] + rx.after(x).pending =~= seq![y]);
    assert(rx.after(y).pending =~= seq![y]);
    assert(seq![x] + rx.after(y).pending =~= seq![x, y]);
    assert(segment_bytes(seq![x]) =~= seq![x.data]);
    assert(segment_bytes(seq![y]) =~= seq![y.data]);
    assert(segment_bytes(seq![x, y]) =~= seq![x.data, y.data]);
    assert(segment_bytes(Seq::<Segment>::empty()) =~= Seq::empty());
    reveal_with_fuel(Received::after_segments, 3);
    assert(seq![x.data].drop_last() =~= Seq::empty());
    assert(seq![y.data].drop_last() =~= Seq::empty());
    assert(seq![x.data, y.data].drop_last() =~= seq![x.data]);
    let one = b.receiving().after_segment(x.data);
    let again = Received { actions: Seq::empty(), any_rel: false, ..one };
    lemma_segment_actions(one, again, y.data);
    let more = again.after_segment(y.data).actions;
    assert(more.skip(0) =~= more);
}

} // verus!
