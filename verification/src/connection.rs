//! An endpoint together with its host.

use vstd::prelude::*;

use crate::endpoint::model::{EndpointState, HostAction, Outcome, Reaction, Received};
use crate::endpoint::{is_time, Endpoint, HostContext, StateId, TimeoutAction, FRAME_SIZE_MAX};
use crate::frame::serial::decode_datagram;
use crate::frame::FrameType;
use crate::host::{ActionQueue, EventView, Host, HostState};

verus! {

/// Whether an endpoint which is up waits for its timer, if the timer is set.
pub open spec fn awaits_timer(endpoint: EndpointState, timer: Option<u64>) -> bool {
    timer is Some && endpoint.state_id is Active ==> endpoint.rto_timer is Some
}

/// Whether an endpoint can end in a state, and its host in another, after a reaction.
pub open spec fn is_reaction(
    reaction: Reaction,
    now_ms: u64,
    host: HostState,
    endpoint_after: EndpointState,
    host_after: HostState,
) -> bool {
    exists|actions: Seq<HostAction>|
        {
            &&& #[trigger] reaction.ends_in(now_ms, endpoint_after, Seq::empty(), actions)
            &&& host_after == host.after_actions(actions)
        }
}

/// Doing some things and then some more is the same as doing them all.
pub proof fn lemma_after_actions(host: HostState, a: Seq<HostAction>, b: Seq<HostAction>)
    ensures
        host.after_actions(a + b) == host.after_actions(a).after_actions(b),
    decreases a.len(),
{
    if a.len() == 0 {
        assert(a + b =~= b);
    } else {
        assert((a + b).skip(1) =~= a.skip(1) + b);
        lemma_after_actions(host.after_action(a[0]), a.skip(1), b);
    }
}

/// What an outcome of a step, taken together with the host, keeps.
spec fn keeps_timer(before: EndpointState, host: HostState, outcome: Outcome) -> bool {
    awaits_timer(before, host.rto_timer) ==> awaits_timer(
        outcome.state,
        host.after_actions(outcome.actions).rto_timer,
    )
}

proof fn lemma_stream_frame_keeps_timer(
    state: EndpointState,
    host: HostState,
    send_ack: bool,
    ack_rel: bool,
    nonce: bool,
    now_ms: u64,
)
    ensures
        keeps_timer(state, host, state.after_stream_frame(send_ack, ack_rel, nonce, now_ms)),
{
    reveal(EndpointState::after_stream_frame);
    reveal_with_fuel(HostState::after_actions, 3);
}

proof fn lemma_stream_frames_keep_timer(
    state: EndpointState,
    host: HostState,
    send_ack: bool,
    ack_rel: bool,
    nonces: Seq<bool>,
    now_ms: u64,
)
    ensures
        keeps_timer(state, host, state.after_stream_frames(send_ack, ack_rel, nonces, now_ms)),
    decreases nonces.len(),
{
    if nonces.len() > 0 {
        let shorter = nonces.drop_last();
        lemma_stream_frames_keep_timer(state, host, send_ack, ack_rel, shorter, now_ms);
        let before = state.after_stream_frames(send_ack, ack_rel, shorter, now_ms);
        let only_ack = send_ack && nonces.len() == 1;
        let last = before.state.after_stream_frame(only_ack, ack_rel, nonces.last(), now_ms);
        lemma_stream_frame_keeps_timer(
            before.state,
            host.after_actions(before.actions),
            only_ack,
            ack_rel,
            nonces.last(),
            now_ms,
        );
        lemma_after_actions(host, before.actions, last.actions);
    }
}

/// An outcome which keeps the timer expected still does so once all has been sent that can be.
proof fn lemma_reaction_keeps_timer(
    before: EndpointState,
    host: HostState,
    reaction: Reaction,
    now_ms: u64,
    after: EndpointState,
    actions: Seq<HostAction>,
)
    requires
        keeps_timer(before, host, reaction.outcome),
        awaits_timer(before, host.rto_timer),
        reaction.ends_in(now_ms, after, Seq::empty(), actions),
    ensures
        awaits_timer(after, host.after_actions(actions).rto_timer),
{
    let reached = reaction.outcome.state;
    match reaction.flush {
        None => {
            assert(actions =~= reaction.outcome.actions);
        },
        Some((send_ack, ack_rel)) => {
            let nonces = choose|nonces: Seq<bool>|
                {
                    let flushed = reached.after_flush(send_ack, ack_rel, nonces, now_ms);
                    &&& #[trigger] reached.is_flush(send_ack, ack_rel, nonces, now_ms)
                    &&& after == flushed.state
                    &&& actions == Seq::empty() + reaction.outcome.actions + flushed.actions
                };
            let flushed = reached.after_flush(send_ack, ack_rel, nonces, now_ms);
            assert(actions =~= reaction.outcome.actions + flushed.actions);
            lemma_after_actions(host, reaction.outcome.actions, flushed.actions);
            lemma_stream_frames_keep_timer(
                reached,
                host.after_actions(reaction.outcome.actions),
                send_ack,
                ack_rel,
                nonces,
                now_ms,
            );
        },
    }
}

/// Handing out packets and the like leaves the timer alone.
proof fn lemma_receive_keeps_timer(host: HostState, actions: Seq<HostAction>)
    requires
        forall|i: int| 0 <= i < actions.len() ==> (#[trigger] actions[i]) is Receive,
    ensures
        host.after_actions(actions).rto_timer == host.rto_timer,
    decreases actions.len(),
{
    if actions.len() > 0 {
        assert(actions[0] is Receive);
        lemma_receive_keeps_timer(host.after_action(actions[0]), actions.skip(1));
    }
}

spec fn only_receives(actions: Seq<HostAction>) -> bool {
    forall|i: int| 0 <= i < actions.len() ==> (#[trigger] actions[i]) is Receive
}

proof fn lemma_segment_only_receives(received: Received, bytes: Seq<u8>)
    requires
        only_receives(received.actions),
    ensures
        only_receives(received.after_segment(bytes).actions),
    decreases bytes.len(),
{
    match decode_datagram(bytes) {
        Some(datagram) => {
            lemma_segment_only_receives(
                received.after_datagram(datagram),
                bytes.skip(
                    crate::frame::serial::DATAGRAM_HEADER_SIZE + datagram.data.len() as int,
                ),
            );
        },
        None => {},
    }
}

proof fn lemma_segments_only_receive(received: Received, segments: Seq<Seq<u8>>)
    requires
        only_receives(received.actions),
    ensures
        only_receives(received.after_segments(segments).actions),
    decreases segments.len(),
{
    if segments.len() > 0 {
        lemma_segments_only_receive(received, segments.drop_last());
        lemma_segment_only_receives(
            received.after_segments(segments.drop_last()),
            segments.last(),
        );
    }
}

/// A frame never leaves the timer running while nobody waits for it.
proof fn lemma_frame_keeps_timer(
    state: EndpointState,
    host: HostState,
    frame_type: FrameType,
    payload: Seq<u8>,
    now_ms: u64,
    rto_estimate_ms: u64,
)
    ensures
        keeps_timer(
            state,
            host,
            state.on_frame(frame_type, payload, now_ms, rto_estimate_ms).outcome,
        ),
{
    reveal_with_fuel(HostState::after_actions, 4);
    if state.state_id is Active {
        match frame_type {
            FrameType::StreamSegment => lemma_stream_keeps_timer(
                state,
                host,
                false,
                true,
                payload,
                now_ms,
                rto_estimate_ms,
            ),
            FrameType::StreamAck => lemma_stream_keeps_timer(
                state,
                host,
                true,
                false,
                payload,
                now_ms,
                rto_estimate_ms,
            ),
            FrameType::StreamSegmentAck => lemma_stream_keeps_timer(
                state,
                host,
                true,
                true,
                payload,
                now_ms,
                rto_estimate_ms,
            ),
            FrameType::StreamSync => {
                match <crate::frame::StreamSync as crate::frame::serial::SimplePayloadRead>::in_payload(
                    payload,
                ) {
                    Some(sync) => {
                        let delivered = crate::endpoint::segment_rx::segment_bytes(
                            state.segment_rx.sync_delivery(sync.next_segment_id),
                        );
                        lemma_segments_only_receive(state.receiving(), delivered);
                        lemma_receive_keeps_timer(
                            host,
                            state.receiving().after_segments(delivered).actions,
                        );
                    },
                    None => {},
                }
            },
            _ => {},
        }
    }
}

proof fn lemma_stream_keeps_timer(
    state: EndpointState,
    host: HostState,
    has_ack: bool,
    has_segment: bool,
    payload: Seq<u8>,
    now_ms: u64,
    rto_estimate_ms: u64,
)
    ensures
        keeps_timer(
            state,
            host,
            state.on_stream_frame(has_ack, has_segment, payload, now_ms, rto_estimate_ms).outcome,
        ),
{
    reveal_with_fuel(HostState::after_actions, 2);
    if !has_ack || payload.len() >= crate::frame::serial::STREAM_ACK_SIZE {
        let acked = if has_ack {
            state.after_ack(
                <crate::frame::StreamAck as crate::frame::serial::BlockSerial>::decode(payload),
                now_ms,
                rto_estimate_ms,
            )
        } else {
            Outcome { state, actions: Seq::empty() }
        };
        let rest = if has_ack {
            payload.skip(crate::frame::serial::STREAM_ACK_SIZE as int)
        } else {
            payload
        };
        if has_segment {
            let reaction = acked.state.on_segment(rest);
            let between = host.after_actions(acked.actions);
            if rest.len() >= crate::frame::serial::STREAM_SEGMENT_HEADER_SIZE {
                let header =
                    <crate::frame::StreamSegmentHeader as crate::frame::serial::BlockSerial>::decode(
                    rest,
                );
                let segment = crate::endpoint::segment_rx::Segment {
                    id: header.id,
                    nonce: header.nonce,
                    data: rest.skip(crate::frame::serial::STREAM_SEGMENT_HEADER_SIZE as int),
                };
                lemma_segments_only_receive(
                    acked.state.receiving(),
                    crate::endpoint::segment_rx::segment_bytes(
                        acked.state.segment_rx.delivery(segment),
                    ),
                );
            }
            lemma_receive_keeps_timer(between, reaction.outcome.actions);
            lemma_after_actions(host, acked.actions, reaction.outcome.actions);
        }
    }
}

/// The connection is up.
pub fn init(endpoint: &mut Endpoint, host: &mut Host, now_ms: u64)
    requires
        old(endpoint).wf(),
        old(endpoint)@.state_id is PreInit,
    ensures
        final(endpoint).wf(),
        final(endpoint)@ == (EndpointState { state_id: StateId::Active, ..old(endpoint)@ }),
        final(host)@ == old(host)@.after_event(EventView::Connect),
{
    let mut queue = ActionQueue::new();
    endpoint.init(now_ms, &mut queue);
    proof {
        reveal_with_fuel(HostState::after_actions, 2);
    }
    host.perform(queue);
}

/// Sends what can be sent.
pub fn flush(endpoint: &mut Endpoint, host: &mut Host, now_ms: u64)
    requires
        old(endpoint).wf(),
        is_time(now_ms),
    ensures
        final(endpoint).wf(),
        is_reaction(
            old(endpoint)@.on_flush(),
            now_ms,
            old(host)@,
            final(endpoint)@,
            final(host)@,
        ),
        awaits_timer(old(endpoint)@, old(host)@.rto_timer) ==> awaits_timer(
            final(endpoint)@,
            final(host)@.rto_timer,
        ),
{
    let mut queue = ActionQueue::new();
    endpoint.flush(now_ms, &mut queue);
    proof {
        let reaction = old(endpoint)@.on_flush();
        assert(old(host)@.after_actions(reaction.outcome.actions) == old(host)@);
        if awaits_timer(old(endpoint)@, old(host)@.rto_timer) {
            lemma_reaction_keeps_timer(
                old(endpoint)@,
                old(host)@,
                reaction,
                now_ms,
                endpoint@,
                queue.actions(),
            );
        }
    }
    host.perform(queue);
}

/// Begins to close the connection.
pub fn disconnect(endpoint: &mut Endpoint, host: &mut Host, now_ms: u64)
    requires
        old(endpoint).wf(),
        is_time(now_ms),
    ensures
        final(endpoint).wf(),
        final(endpoint)@ == old(endpoint)@.on_disconnect(now_ms).outcome.state,
        final(host)@ == old(host)@.after_actions(
            old(endpoint)@.on_disconnect(now_ms).outcome.actions,
        ),
        awaits_timer(old(endpoint)@, old(host)@.rto_timer) ==> awaits_timer(
            final(endpoint)@,
            final(host)@.rto_timer,
        ),
{
    let mut queue = ActionQueue::new();
    endpoint.disconnect(now_ms, &mut queue);
    assert(queue.actions() =~= old(endpoint)@.on_disconnect(now_ms).outcome.actions);
    host.perform(queue);
}

/// Takes in a frame.
pub fn handle_frame(
    endpoint: &mut Endpoint,
    host: &mut Host,
    frame_type: FrameType,
    payload_bytes: &[u8],
    now_ms: u64,
    rto_estimate_ms: u64,
)
    requires
        old(endpoint).wf(),
        is_time(now_ms),
        payload_bytes@.len() <= FRAME_SIZE_MAX,
    ensures
        final(endpoint).wf(),
        is_reaction(
            old(endpoint)@.on_frame(frame_type, payload_bytes@, now_ms, rto_estimate_ms),
            now_ms,
            old(host)@,
            final(endpoint)@,
            final(host)@,
        ),
        awaits_timer(old(endpoint)@, old(host)@.rto_timer) ==> awaits_timer(
            final(endpoint)@,
            final(host)@.rto_timer,
        ),
{
    let mut queue = ActionQueue::new();
    endpoint.handle_frame(frame_type, payload_bytes, now_ms, rto_estimate_ms, &mut queue);
    proof {
        let reaction = old(endpoint)@.on_frame(
            frame_type,
            payload_bytes@,
            now_ms,
            rto_estimate_ms,
        );
        lemma_frame_keeps_timer(
            old(endpoint)@,
            old(host)@,
            frame_type,
            payload_bytes@,
            now_ms,
            rto_estimate_ms,
        );
        if awaits_timer(old(endpoint)@, old(host)@.rto_timer) {
            lemma_reaction_keeps_timer(
                old(endpoint)@,
                old(host)@,
                reaction,
                now_ms,
                endpoint@,
                queue.actions(),
            );
        }
    }
    host.perform(queue);
}

/// Takes in that the timer has fired, and is no longer set.
pub fn handle_rto_timer(endpoint: &mut Endpoint, host: &mut Host, now_ms: u64) -> (action:
    TimeoutAction)
    requires
        old(endpoint).wf(),
        is_time(now_ms),
        old(endpoint)@.state_id is Active ==> old(endpoint)@.rto_timer is Some,
    ensures
        final(endpoint).wf(),
        (action is Terminate) == old(endpoint)@.ends_on_timer(),
        is_reaction(
            old(endpoint)@.on_timer(now_ms),
            now_ms,
            old(host)@,
            final(endpoint)@,
            final(host)@,
        ),
        awaits_timer(final(endpoint)@, final(host)@.rto_timer),
{
    let mut queue = ActionQueue::new();
    let action = endpoint.handle_rto_timer(now_ms, &mut queue);
    proof {
        let reaction = old(endpoint)@.on_timer(now_ms);
        reveal_with_fuel(HostState::after_actions, 3);
        lemma_reaction_keeps_timer(
            old(endpoint)@,
            old(host)@,
            reaction,
            now_ms,
            endpoint@,
            queue.actions(),
        );
    }
    host.perform(queue);
    action
}

} // verus!
