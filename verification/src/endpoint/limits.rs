//! How much an endpoint sends, and when it does nothing.

use vstd::prelude::*;

use super::cc::max;
use super::fragment_tx::FragmentTxState;
use super::lifecycle::lemma_current_twice;
use super::model::{EndpointState, HostAction, Reaction};
use super::recovery::{counts_silence, timer_time};
use super::segment_tx::total;
use super::traffic::{last_frame, lemma_data_size, lemma_flushed_len};
use super::{FRAME_SIZE_MAX, RTO_MAX_MS};
use crate::frame::serial::{
    encode_datagram, frame_payload, frame_type, law_frame_round_trip, law_simple_frame_round_trip,
    lemma_block_sizes, lemma_frame_sizes, BlockSerial, SimplePayloadRead, STREAM_ACK_SIZE,
    STREAM_SEGMENT_HEADER_SIZE,
};
use crate::frame::{CloseAckFrame, CloseFrame, FrameType, StreamSegmentHeader};

verus! {

proof fn lemma_total_push(sizes: Seq<usize>, size: usize)
    ensures
        total(sizes.push(size)) == total(sizes) + size,
{
    assert(sizes.push(size).drop_last() =~= sizes);
}

/// A segment is sent only while the segment window has room, while less data is in transit than the
/// congestion window allows, and while there is something to send.
pub proof fn law_segment_is_sent_within_windows(
    state: EndpointState,
    send_ack: bool,
    ack_rel: bool,
    nonce: bool,
    now_ms: u64,
)
    requires
        state.wf(),
    ensures
        ({
            let sent = state.after_stream_frame(send_ack, ack_rel, nonce, now_ms).state;
            let before = state.segment_tx;
            let after = sent.segment_tx;
            &&& after.base_id == before.base_id
            &&& after.size == before.size
            &&& sent.cc == state.cc
            &&& after != before ==> {
                &&& before.transit.len() < before.size
                &&& total(before.transit) < state.cc.window()
                &&& state.fragment_tx.current(now_ms).has_data()
                &&& before.transit.is_prefix_of(after.transit)
                &&& after.transit.len() == before.transit.len() + 1
                &&& total(after.transit) <= total(before.transit) + FRAME_SIZE_MAX
            }
        }),
{
    reveal(EndpointState::after_stream_frame);
    let room = EndpointState::segment_room(send_ack);
    let flushed = state.current(now_ms).fragment_tx.flushed(room, now_ms);
    lemma_data_size(state.current(now_ms).fragment_tx, room, now_ms);
    lemma_total_push(state.segment_tx.transit, flushed.size as usize);
}

/// However many frames are sent at a time, no more data is in transit afterwards than the
/// congestion window allows, and one frame, unless there was more before.
pub proof fn law_windows_are_respected(
    state: EndpointState,
    send_ack: bool,
    ack_rel: bool,
    nonces: Seq<bool>,
    now_ms: u64,
)
    requires
        state.wf(),
    ensures
        ({
            let after = state.after_stream_frames(send_ack, ack_rel, nonces, now_ms).state;
            &&& total(after.segment_tx.transit) <= max(
                total(state.segment_tx.transit) as int,
                state.cc.window() + FRAME_SIZE_MAX,
            )
            &&& after.segment_tx.transit.len() <= state.segment_tx.size
            &&& after.segment_tx.size == state.segment_tx.size
            &&& after.cc == state.cc
        }),
    decreases nonces.len(),
{
    if nonces.len() > 0 {
        let shorter = nonces.drop_last();
        law_windows_are_respected(state, send_ack, ack_rel, shorter, now_ms);
        let before = state.after_stream_frames(send_ack, ack_rel, shorter, now_ms).state;
        let only_ack = send_ack && nonces.len() == 1;
        reveal(EndpointState::after_stream_frame);
        let room = EndpointState::segment_room(only_ack);
        let flushed = before.current(now_ms).fragment_tx.flushed(room, now_ms);
        lemma_data_size(before.current(now_ms).fragment_tx, room, now_ms);
        lemma_total_push(before.segment_tx.transit, flushed.size as usize);
    }
}

proof fn lemma_filled(state: FragmentTxState, room: int, now_ms: u64)
    ensures
        ({
            let flushed = state.flushed(room, now_ms);
            let rest = flushed.state;
            &&& rest.current(now_ms).has_data() ==> encode_datagram(
                rest.current(now_ms).next_datagram(),
            ).len() > room - flushed.bytes.len()
        }),
    decreases room,
{
    let current = state.current(now_ms);
    let bytes = encode_datagram(current.next_datagram());
    crate::buffer::unreliable::law_unexpired(state.unrel.queue, now_ms);
    assert(current.current(now_ms) == current);
    if current.has_data() && bytes.len() <= room {
        lemma_filled(current.after_send(), room - bytes.len(), now_ms);
    }
}

/// Every frame with a segment is filled for as long as the next datagram fits.
pub proof fn law_frames_are_filled(
    state: EndpointState,
    send_ack: bool,
    ack_rel: bool,
    nonce: bool,
    now_ms: u64,
)
    requires
        state.can_send_data(now_ms),
    ensures
        ({
            let sent = state.after_stream_frame(send_ack, ack_rel, nonce, now_ms);
            let rest = sent.state.fragment_tx.current(now_ms);
            let frame = last_frame(sent.actions);
            &&& sent.actions.last() is SendFrame
            &&& rest.has_data() ==> frame.len() + encode_datagram(rest.next_datagram()).len()
                > FRAME_SIZE_MAX
            &&& frame.len() <= FRAME_SIZE_MAX
        }),
{
    reveal(EndpointState::after_stream_frame);
    lemma_block_sizes();
    let room = EndpointState::segment_room(send_ack);
    let queues = state.current(now_ms).fragment_tx;
    lemma_filled(queues, room, now_ms);
    lemma_flushed_len(queues, room, now_ms);
    let flushed = queues.flushed(room, now_ms);
    let header = StreamSegmentHeader { id: state.segment_tx.next_id, nonce };
    let ack = state.next_ack(ack_rel);
    ack.round_trip(Seq::empty());
    header.round_trip(Seq::empty());
    let ack_bytes = if send_ack {
        ack.encode()
    } else {
        Seq::empty()
    };
    let kind = if send_ack {
        FrameType::StreamSegmentAck
    } else {
        FrameType::StreamSegment
    };
    law_frame_round_trip(kind, ack_bytes + header.encode() + flushed.bytes);
}

/// An endpoint which is up sends all that it can whenever it is asked to, and whenever a stream
/// frame, a sync or its timer gives it an occasion: afterwards nothing is left which could be sent.
pub proof fn law_nothing_sendable_is_left(
    state: EndpointState,
    kind: FrameType,
    payload: Seq<u8>,
    now_ms: u64,
    rto_estimate_ms: u64,
    after: EndpointState,
    before_actions: Seq<HostAction>,
    actions: Seq<HostAction>,
)
    requires
        state.state_id is Active,
    ensures
        state.on_flush().ends_in(now_ms, after, before_actions, actions)
            ==> !after.can_send_data(now_ms),
        state.on_timer(now_ms).ends_in(now_ms, after, before_actions, actions)
            && after.state_id is Active ==> !after.can_send_data(now_ms),
        kind is StreamAck && payload.len() >= STREAM_ACK_SIZE && state.on_frame(
            kind,
            payload,
            now_ms,
            rto_estimate_ms,
        ).ends_in(now_ms, after, before_actions, actions) ==> !after.can_send_data(now_ms),
        kind is StreamSegment && state.on_frame(kind, payload, now_ms, rto_estimate_ms).ends_in(
            now_ms,
            after,
            before_actions,
            actions,
        ) ==> !after.can_send_data(now_ms),
        kind is StreamSegmentAck && payload.len() >= STREAM_ACK_SIZE && state.on_frame(
            kind,
            payload,
            now_ms,
            rto_estimate_ms,
        ).ends_in(now_ms, after, before_actions, actions) ==> !after.can_send_data(now_ms),
        kind is StreamSync && payload.len() >= 4 && state.on_frame(
            kind,
            payload,
            now_ms,
            rto_estimate_ms,
        ).ends_in(now_ms, after, before_actions, actions) ==> !after.can_send_data(now_ms),
{
    lemma_block_sizes();
    if state.on_flush().ends_in(now_ms, after, before_actions, actions) {
        lemma_flushes(state.on_flush(), now_ms, after, before_actions, actions);
    }
    if state.on_timer(now_ms).ends_in(now_ms, after, before_actions, actions)
        && after.state_id is Active {
        lemma_flushes(state.on_timer(now_ms), now_ms, after, before_actions, actions);
    }
    let reaction = state.on_frame(kind, payload, now_ms, rto_estimate_ms);
    if reaction.ends_in(now_ms, after, before_actions, actions) && reaction.flush is Some {
        lemma_flushes(reaction, now_ms, after, before_actions, actions);
    }
}

proof fn lemma_flushes(
    reaction: Reaction,
    now_ms: u64,
    after: EndpointState,
    before_actions: Seq<HostAction>,
    actions: Seq<HostAction>,
)
    requires
        reaction.flush is Some,
        reaction.ends_in(now_ms, after, before_actions, actions),
    ensures
        !after.can_send_data(now_ms),
{
    let reached = reaction.outcome.state;
    let (send_ack, ack_rel) = reaction.flush->0;
    let nonces = choose|nonces: Seq<bool>|
        {
            let flushed = reached.after_flush(send_ack, ack_rel, nonces, now_ms);
            &&& #[trigger] reached.is_flush(send_ack, ack_rel, nonces, now_ms)
            &&& after == flushed.state
            &&& actions == before_actions + reaction.outcome.actions + flushed.actions
        };
    lemma_current_twice(
        reached.after_stream_frames(send_ack, ack_rel, nonces, now_ms).state,
        now_ms,
    );
}

/// A request to close the connection, or the confirmation of one, has no effect in any state unless
/// it carries the nonce of the endpoint which gets it. Confirmations only count while one is
/// awaited.
pub proof fn law_strangers_close_nothing(
    state: EndpointState,
    nonce: u32,
    now_ms: u64,
    rto_estimate_ms: u64,
)
    ensures
        ({
            let close = CloseFrame { remote_nonce: nonce };
            let close_ack = CloseAckFrame { remote_nonce: nonce };
            let closing = state.on_frame(
                FrameType::Close,
                close.encode(),
                now_ms,
                rto_estimate_ms,
            );
            let closed = state.on_frame(
                FrameType::CloseAck,
                close_ack.encode(),
                now_ms,
                rto_estimate_ms,
            );
            let is_own = nonce == state.local_nonce;
            &&& closing.flush is None && closed.flush is None
            &&& !is_own ==> {
                &&& closing.outcome.state == state && closing.outcome.actions.len() == 0
                &&& closed.outcome.state == state && closed.outcome.actions.len() == 0
            }
            &&& is_own && (state.state_id is Active || state.state_id is Closing) ==> {
                &&& closing.outcome.state.state_id is Closed
                &&& closing.outcome.actions.len() == 3
                &&& closing.outcome.actions[1] is Disconnect
            }
            &&& !(state.state_id is Closing) ==> closed.outcome.state == state
                && closed.outcome.actions.len() == 0
            &&& is_own && state.state_id is Closing ==> closed.outcome.state.state_id is Closed
        }),
{
    let close = CloseFrame { remote_nonce: nonce };
    let close_ack = CloseAckFrame { remote_nonce: nonce };
    lemma_block_sizes();
    lemma_frame_sizes();
    close.round_trip(Seq::empty());
    close_ack.round_trip(Seq::empty());
    assert(close.encode() + Seq::empty() =~= close.encode());
    assert(close_ack.encode() + Seq::empty() =~= close_ack.encode());
}

/// What asks for a connection to be closed, and what confirms it, carries the nonce of the other
/// end.
pub proof fn law_close_frames_carry_remote_nonce(state: EndpointState)
    ensures
        frame_type(state.close_frame()) == Some(FrameType::Close),
        CloseFrame::in_payload(frame_payload(state.close_frame())) == Some(
            CloseFrame { remote_nonce: state.remote_nonce },
        ),
        frame_type(state.close_ack_frame()) == Some(FrameType::CloseAck),
        CloseAckFrame::in_payload(frame_payload(state.close_ack_frame())) == Some(
            CloseAckFrame { remote_nonce: state.remote_nonce },
        ),
{
    lemma_frame_sizes();
    law_simple_frame_round_trip(CloseFrame { remote_nonce: state.remote_nonce });
    law_simple_frame_round_trip(CloseAckFrame { remote_nonce: state.remote_nonce });
}

/// An endpoint which has been told to disconnect asks the other end to close the connection, at
/// once and again whenever its timer fires, until this is confirmed, or the other end has been
/// silent for too long.
pub proof fn law_closing_is_asked_for(state: EndpointState, now_ms: u64)
    requires
        state.wf(),
        now_ms + RTO_MAX_MS <= u64::MAX,
    ensures
        state.state_id is Active ==> {
            let outcome = state.on_disconnect(now_ms).outcome;
            &&& outcome.state.state_id is Closing
            &&& outcome.actions.len() == 2
            &&& outcome.actions[0] is SetRtoTimer
            &&& outcome.actions[1] == HostAction::SendFrame(state.close_frame())
            &&& counts_silence(outcome.state, timer_time(outcome.actions[0]), now_ms as int)
            &&& timer_time(outcome.actions[0]) == now_ms + state.rto_ms
            &&& outcome.state.timeout_time_ms == state.timeout_time_ms
        },
        state.state_id is Closing && state.silence_ms() < state.timeout_time_ms ==> {
            let outcome = state.on_timer(now_ms).outcome;
            &&& outcome.state.state_id is Closing
            &&& outcome.actions.last() == HostAction::SendFrame(state.close_frame())
        },
{
}

/// An endpoint which is closed is forgotten once its timer fires, without a word. One which has not
/// been connected yet, or is forgotten, does nothing at all.
pub proof fn law_forgotten_endpoints_are_quiet(
    state: EndpointState,
    kind: FrameType,
    payload: Seq<u8>,
    now_ms: u64,
    rto_estimate_ms: u64,
)
    ensures
        state.state_id is Closed ==> {
            let reaction = state.on_timer(now_ms);
            &&& state.ends_on_timer()
            &&& reaction.outcome.state.state_id is Zombie
            &&& reaction.outcome.actions.len() == 0
            &&& reaction.flush is None
        },
        state.state_id is PreInit || state.state_id is Zombie ==> {
            let on_frame = state.on_frame(kind, payload, now_ms, rto_estimate_ms);
            let on_timer = state.on_timer(now_ms);
            let on_disconnect = state.on_disconnect(now_ms);
            &&& on_frame.outcome.state == state && on_frame.outcome.actions.len() == 0
            &&& on_timer.outcome.state == state && on_timer.outcome.actions.len() == 0
            &&& on_disconnect.outcome.state == state && on_disconnect.outcome.actions.len() == 0
            &&& !state.ends_on_timer()
        },
{
}

/// A stream frame which is too short for what it should hold does not change anything, and frames
/// of a handshake never do.
pub proof fn law_malformed_frames_change_nothing(
    state: EndpointState,
    kind: FrameType,
    payload: Seq<u8>,
    now_ms: u64,
    rto_estimate_ms: u64,
)
    requires
        match kind {
            FrameType::StreamSegment => payload.len() < STREAM_SEGMENT_HEADER_SIZE,
            FrameType::StreamAck => payload.len() < STREAM_ACK_SIZE,
            FrameType::StreamSegmentAck => payload.len() < STREAM_ACK_SIZE,
            FrameType::StreamSync => payload.len() < 4,
            FrameType::Close => payload.len() < 4,
            FrameType::CloseAck => payload.len() < 4,
            _ => true,
        },
    ensures
        ({
            let reaction = state.on_frame(kind, payload, now_ms, rto_estimate_ms);
            &&& reaction.outcome.state == state
            &&& reaction.outcome.actions.len() == 0
            &&& reaction.flush matches Some((send_ack, ack_rel)) ==> !send_ack
        }),
{
    lemma_block_sizes();
    lemma_frame_sizes();
}

} // verus!
