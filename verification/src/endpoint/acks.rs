//! What acknowledgements do to an endpoint: they free its windows, and tell it how fast to send.

use vstd::prelude::*;

use super::cc::{CcState, Mode, INITIAL_CWND_MSS};
use super::model::EndpointState;
use super::segment_tx::{
    drops_when_shifted, is_oldest_missing, lemma_nothing_missing, merged_history, shows_drop, total,
    TxState,
};
use crate::bits::{bit, lemma_push_zeros, odd, ones, push_zeros};
use crate::frame::serial::{BlockSerial, STREAM_ACK_SIZE};
use crate::frame::{FrameType, StreamAck};
use crate::id::delta;

verus! {

/// Whether a frame begins with an acknowledgement.
pub open spec fn holds_ack(kind: FrameType, payload: Seq<u8>, ack: StreamAck) -> bool {
    &&& kind is StreamAck || kind is StreamSegmentAck
    &&& payload.len() >= STREAM_ACK_SIZE
    &&& ack == StreamAck::decode(payload)
}

/// Whether an acknowledgement shows an endpoint that a segment was dropped.
pub open spec fn tells_of_drop(state: EndpointState, ack: StreamAck) -> bool {
    state.segment_tx.ack_shows_drop(
        ack.segment_id,
        ack.segment_history as u32,
        ack.segment_checksum,
    )
}

/// The congestion window is halved when an acknowledgement tells of a drop, and is then not halved
/// again until as much data has been acknowledged as the window holds. Any other acknowledgement
/// lets the window grow, by a whole segment unless congestion has been met with. In no case does
/// the window shrink below ten segments.
pub proof fn law_ack_moves_window(
    state: EndpointState,
    kind: FrameType,
    payload: Seq<u8>,
    ack: StreamAck,
    now_ms: u64,
    rto_estimate_ms: u64,
)
    requires
        state.wf(),
        state.state_id is Active,
        holds_ack(kind, payload, ack),
    ensures
        ({
            let before = state.cc;
            let after = state.on_frame(kind, payload, now_ms, rto_estimate_ms).outcome.state.cc;
            let is_recovering = before.dropcnt > before.mss;
            &&& after.cwnd >= 10 * before.mss
            &&& tells_of_drop(state, ack) && !is_recovering ==> {
                &&& after.mode is CongestionAvoidance
                &&& 2 * after.cwnd <= before.cwnd + before.mss || after.cwnd == 10 * before.mss
                &&& 2 * after.cwnd >= before.cwnd - 1
                &&& after.dropcnt == after.cwnd
            }
            &&& !tells_of_drop(state, ack) || is_recovering ==> {
                &&& before.cwnd <= after.cwnd <= before.cwnd + before.mss
                &&& after.dropcnt == if is_recovering {
                    before.dropcnt - before.mss
                } else {
                    0
                }
                &&& before.mode is UnboundedSlowStart && before.cwnd + before.mss <= u64::MAX
                    ==> after.cwnd == before.cwnd + before.mss && after.mode is UnboundedSlowStart
                &&& before.mode matches Mode::ThresholdSlowStart(threshold) ==> if before.cwnd
                    + before.mss < threshold {
                    after.cwnd == before.cwnd + before.mss && after.mode == before.mode
                } else {
                    after.cwnd == threshold && after.mode is CongestionAvoidance
                }
                &&& before.mode is CongestionAvoidance && before.cwnd + before.mss <= u64::MAX ==> {
                    let growth = after.cwnd - before.cwnd;
                    &&& after.mode is CongestionAvoidance
                    &&& 2 * (growth * before.cwnd) <= 2 * (before.mss * before.mss) + before.cwnd
                    &&& 2 * (before.mss * before.mss) <= 2 * (growth * before.cwnd) + before.cwnd + 2
                }
            }
        }),
{
    super::cc::lemma_avoidance_growth(state.cc);
    if state.cc.mode is CongestionAvoidance && state.cc.cwnd + state.cc.mss <= u64::MAX {
        law_avoidance_is_linear(state.cc);
    }
}

/// The window grows by about one segment per window of acknowledgements once congestion has been
/// met with: by the square of the size of a segment over the size of the window, rounded.
pub proof fn law_avoidance_is_linear(state: CcState)
    requires
        state.wf(),
        state.mss > 0,
        state.mode is CongestionAvoidance,
        state.cwnd + state.mss <= u64::MAX,
    ensures
        ({
            let after = state.after_ack();
            let growth = after.cwnd - state.cwnd;
            &&& after.mode is CongestionAvoidance
            &&& 2 * (growth * state.cwnd) <= 2 * (state.mss * state.mss) + state.cwnd
            &&& 2 * (state.mss * state.mss) <= 2 * (growth * state.cwnd) + state.cwnd + 2
        }),
{
    super::cc::lemma_avoidance_growth(state);
    let (mss, cwnd) = (state.mss, state.cwnd);
    let growth = (mss * mss + cwnd / 2) / cwnd;
    assert(growth * cwnd <= mss * mss + cwnd / 2 < growth * cwnd + cwnd) by (nonlinear_arith)
        requires
            growth == (mss * mss + cwnd / 2) / cwnd,
            cwnd > 0,
            mss > 0,
    ;
}

/// After a timeout the window starts again from ten segments. It grows by a segment per
/// acknowledgement up to half of what it was, and linearly from there on.
pub proof fn law_timeout_restarts_window(state: CcState)
    requires
        state.wf(),
        state.mss > 0,
    ensures
        ({
            let restarted = state.after_timeout();
            let next = restarted.after_ack();
            let half = state.cwnd / 2;
            &&& restarted.cwnd == INITIAL_CWND_MSS * state.mss
            &&& restarted.dropcnt == 0
            &&& half > 11 * state.mss ==> next.cwnd == 11 * state.mss
                && next.mode is ThresholdSlowStart
            &&& half <= 11 * state.mss ==> next.mode is CongestionAvoidance
            &&& restarted.mode matches Mode::ThresholdSlowStart(threshold) && (threshold == half || (
            half < 10 * state.mss && threshold == 10 * state.mss))
        }),
{
}

/// More of the least significant bits hold no fewer ones.
proof fn lemma_ones(x: u32, y: u32, m: u32, n: u32)
    requires
        m <= n <= 32,
        forall|i: u32| i < 32 && bit(x, i) ==> bit(y, i),
    ensures
        ones(x, m) <= ones(y, n),
    decreases n,
{
    if n > 0 {
        if m < n {
            lemma_ones(x, y, m, (n - 1) as u32);
        } else {
            lemma_ones(x, y, (m - 1) as u32, (n - 1) as u32);
        }
    }
}

/// A history in which a segment is missing has an oldest one which is.
proof fn lemma_oldest_missing(history: u32, z: u32) -> (oldest: u32)
    requires
        z < 32,
        !bit(history, z),
    ensures
        z <= oldest,
        is_oldest_missing(history, oldest),
    decreases 32 - z,
{
    if exists|i: u32| z < i < 32 && !bit(history, i) {
        let i = choose|i: u32| z < i < 32 && !bit(history, i);
        lemma_oldest_missing(history, i)
    } else {
        z
    }
}

/// A segment which was lost on the way is noticed as soon as the receiver reports three segments
/// which were sent after it: `z` is how many of those which were sent after it have been dealt
/// with.
pub proof fn law_lost_segment_is_noticed(state: TxState, rx_base_id: u32, report: u32, z: u32)
    requires
        state.wf(),
        state.ack_is_valid(rx_base_id),
        z < 32,
        z < delta(rx_base_id, state.base_id),
        !bit(report, z),
        ones(report, z) >= 3,
    ensures
        ({
            let n = delta(rx_base_id, state.base_id);
            state.ack_shows_drop(
                rx_base_id,
                report,
                odd(state.nonce_history_after(n) & report),
            )
        }),
{
    let n = delta(rx_base_id, state.base_id);
    let earlier = push_zeros(state.ack_history, n);
    let merged = earlier | report;
    assert forall|i: u32| i < 32 implies bit(merged, i) == (bit(earlier, i) || bit(report, i)) by {
        lemma_or(earlier, report, i);
    }
    lemma_push_zeros(state.ack_history, n, z);
    let oldest = lemma_oldest_missing(merged, z);
    lemma_ones(report, merged, z, oldest);
    assert(is_oldest_missing(merged, oldest));
    assert(shows_drop(merged));
}

proof fn lemma_or(a: u32, b: u32, i: u32)
    by (bit_vector)
    requires
        i < 32,
    ensures
        bit(a | b, i) == (bit(a, i) || bit(b, i)),
{
}

/// Nothing is taken for lost while every segment which is not reported is followed by at most two
/// which are, and is not too old.
pub proof fn law_reordering_is_tolerated(
    state: TxState,
    rx_base_id: u32,
    report: u32,
    checksum: bool,
)
    requires
        state.wf(),
        !drops_when_shifted(state.ack_history, delta(rx_base_id, state.base_id)),
        ({
            let n = delta(rx_base_id, state.base_id);
            let earlier = push_zeros(state.ack_history, n);
            forall|z: u32|
                z < 32 && !bit(earlier, z) && !(#[trigger] bit(report, z)) ==> z < 31 && ones(
                    earlier | report,
                    z,
                ) < 3
        }),
        checksum == odd(
            state.nonce_history_after(delta(rx_base_id, state.base_id)) & report,
        ),
    ensures
        !state.ack_shows_drop(rx_base_id, report, checksum),
{
    let n = delta(rx_base_id, state.base_id);
    let earlier = push_zeros(state.ack_history, n);
    let merged = merged_history(
        state.ack_history,
        n,
        state.nonce_history_after(n),
        report,
        checksum,
    );
    assert(merged == earlier | report);
    assert forall|z: u32| #[trigger] is_oldest_missing(merged, z) implies !(z == 31 || ones(
        merged,
        z,
    ) >= 3) by {
        lemma_or(earlier, report, z);
    }
}

/// A drop is noticed once: the same acknowledgement, should it come in again, tells of none, and
/// neither does any other which covers nothing new.
pub proof fn law_drop_is_noticed_once(
    state: TxState,
    rx_base_id: u32,
    report: u32,
    checksum: bool,
    other_report: u32,
    other_checksum: bool,
)
    requires
        state.wf(),
        state.ack_shows_drop(rx_base_id, report, checksum),
    ensures
        ({
            let after = state.after_ack(rx_base_id, report, checksum);
            &&& after.base_id == rx_base_id
            &&& !after.ack_shows_drop(rx_base_id, report, checksum)
            &&& !after.ack_shows_drop(rx_base_id, other_report, other_checksum)
        }),
{
    let after = state.after_ack(rx_base_id, report, checksum);
    lemma_nothing_missing();
    assert forall|other: u32, sum: bool| !#[trigger] after.ack_shows_drop(rx_base_id, other, sum) by {
        let earlier = push_zeros(after.ack_history, 0);
        let merged = merged_history(after.ack_history, 0, after.nonce_history, other, sum);
        assert forall|z: u32| z < 32 implies bit(merged, z) by {
            lemma_push_zeros(u32::MAX, 0, z);
            lemma_or(earlier, other, z);
            assert(bit(u32::MAX, z));
        }
        assert(!shows_drop(merged));
    }
}

/// An acknowledgement of segments which have been sent takes them out of transit, together with all
/// that were sent before them. It makes room in the windows, and more is sent at once. One of
/// fragments takes them off the reliable queue. Nothing else is taken off, and any other
/// acknowledgement leaves both as they are.
pub proof fn law_ack_frees_windows(
    state: EndpointState,
    kind: FrameType,
    payload: Seq<u8>,
    ack: StreamAck,
    now_ms: u64,
    rto_estimate_ms: u64,
)
    requires
        state.wf(),
        state.state_id is Active,
        holds_ack(kind, payload, ack),
    ensures
        ({
            let reaction = state.on_frame(kind, payload, now_ms, rto_estimate_ms);
            let after = reaction.outcome.state;
            let tx = state.segment_tx;
            let rel = state.fragment_tx.rel;
            let n = delta(ack.segment_id, tx.base_id);
            &&& after.state_id is Active
            &&& after.segment_tx.next_id == tx.next_id
            &&& after.segment_tx.nonces == tx.nonces
            &&& n <= tx.transit.len() ==> after.segment_tx.base_id == ack.segment_id
                && after.segment_tx.transit == tx.transit.skip(n)
            &&& n > tx.transit.len() ==> after.segment_tx == tx
            &&& after.fragment_tx.unrel == state.fragment_tx.unrel
            &&& after.fragment_tx.prio == state.fragment_tx.prio
            &&& ack.rel_fragment_id is None ==> after.fragment_tx.rel == rel
            &&& ack.rel_fragment_id matches Some(id) ==> {
                let m = delta(id, rel.base_id);
                if m <= delta(rel.min_ack_id, rel.base_id) {
                    &&& after.fragment_tx.rel.base_id == id
                    &&& after.fragment_tx.rel.fragments == rel.fragments.skip(m)
                    &&& m == 0 && rel.duplicate_acks == 1 ==> after.fragment_tx.rel.next_send_id
                        == rel.base_id
                    &&& m > 0 || rel.duplicate_acks == 0 ==> after.fragment_tx.rel.next_send_id
                        == rel.next_send_id
                } else {
                    after.fragment_tx.rel == rel
                }
            }
            &&& reaction.flush is Some
            &&& kind is StreamAck ==> {
                &&& reaction.flush == Some((false, false))
                &&& after.segment_rx == state.segment_rx
                &&& after.reliable_rx == state.reliable_rx
                &&& after.unreliable_rx == state.unreliable_rx
            }
        }),
{
    assert(state.fragment_tx.rel.fragments.skip(0) =~= state.fragment_tx.rel.fragments);
}

/// Once everything which is in transit has been acknowledged, the congestion window is empty.
pub proof fn law_full_ack_empties_window(
    state: EndpointState,
    kind: FrameType,
    payload: Seq<u8>,
    ack: StreamAck,
    now_ms: u64,
    rto_estimate_ms: u64,
)
    requires
        state.wf(),
        state.state_id is Active,
        holds_ack(kind, payload, ack),
        ack.segment_id == state.segment_tx.next_id,
    ensures
        ({
            let after = state.on_frame(kind, payload, now_ms, rto_estimate_ms).outcome.state;
            &&& total(after.segment_tx.transit) == 0
            &&& after.segment_tx.can_send()
            &&& after.rto_timer is None
        }),
{
    let n = state.segment_tx.transit.len() as int;
    assert(state.segment_tx.transit.skip(n) =~= Seq::empty());
}

} // verus!
