//! Which frames a client and a server act upon, and how.

use vstd::prelude::*;

use crate::client::{connecting, ClientState, Config as ClientConfig, ConnectionView, HandshakeView};
use crate::connection::{is_reaction, lemma_after_actions};
use crate::endpoint::lifecycle::frames_of;
use crate::endpoint::model::{EndpointState, HostAction};
use crate::endpoint::FRAME_SIZE_MAX;
use crate::frame::serial::{
    frame_bytes, frame_payload, frame_type, is_intact, law_frame_round_trip,
    law_simple_frame_round_trip, lemma_block_sizes, lemma_frame_sizes, simple_frame, BlockSerial,
    SimplePayloadRead, FRAME_OVERHEAD_SIZE, PROTOCOL_ID,
};
use crate::frame::{
    FrameType, HandshakeAlphaAckFrame, HandshakeAlphaFrame, HandshakeBetaAckFrame,
    HandshakeBetaFrame, HandshakeErrorKind,
};
use crate::handshake::unlimited;
use crate::host::{EventView, HostState};
use crate::server::handshake_mac::{mac_message, siphash13, AddressView};
use crate::server::peer::PeerState;
use crate::server::{FrameActionView, ServerState};
use crate::{ErrorKind, SendMode};

verus! {

/// Whether frames of this type belong to a connection, rather than to a handshake with a server.
pub open spec fn is_for_peers(kind: FrameType) -> bool {
    !(kind is HandshakeAlpha) && !(kind is HandshakeBeta)
}

/// A server hands each frame of a connection to the peer at the address from which it came, as it
/// was written. It ignores frames from addresses at which there is no peer.
pub proof fn law_frames_are_routed<P>(
    server: ServerState<P>,
    kind: FrameType,
    payload: Seq<u8>,
    sender_addr: AddressView,
    now_ms: u64,
    server_nonce: u32,
)
    requires
        is_for_peers(kind),
    ensures
        server.on_frame(frame_bytes(kind, payload), sender_addr, now_ms, server_nonce) == if
        server.peers.contains_key(sender_addr) {
            FrameActionView::<P>::Deliver(server.peers[sender_addr], kind, payload)
        } else {
            FrameActionView::<P>::Ignore
        },
{
    law_frame_round_trip(kind, payload);
}

/// A server never acts upon a frame which has been damaged, or is too short.
pub proof fn law_damaged_frames_are_ignored<P>(
    server: ServerState<P>,
    frame: Seq<u8>,
    sender_addr: AddressView,
    now_ms: u64,
    server_nonce: u32,
)
    requires
        frame.len() < FRAME_OVERHEAD_SIZE || !is_intact(frame) && frame_type(frame) != Some(
            FrameType::HandshakeAlpha,
        ),
    ensures
        server.on_frame(frame, sender_addr, now_ms, server_nonce) is Ignore,
{
}

/// A server answers a request to connect only if it is as large as the largest frame, and asks for
/// the same protocol. The answer repeats the client's nonce, and holds the server's own, the time,
/// and a code for all of these and the client's address.
pub proof fn law_request_is_answered_with_code<P>(
    server: ServerState<P>,
    frame: Seq<u8>,
    sender_addr: AddressView,
    now_ms: u64,
    server_nonce: u32,
)
    requires
        frame.len() >= FRAME_OVERHEAD_SIZE,
        frame_type(frame) == Some(FrameType::HandshakeAlpha),
        !(server.on_frame(frame, sender_addr, now_ms, server_nonce) is Ignore),
    ensures
        frame.len() == FRAME_SIZE_MAX,
        ({
            let reply = server.on_frame(frame, sender_addr, now_ms, server_nonce);
            &&& HandshakeAlphaFrame::in_payload(frame_payload(frame)) matches Some(alpha)
                && alpha.protocol_id == PROTOCOL_ID && reply == FrameActionView::<P>::Reply(
                simple_frame(
                    HandshakeAlphaAckFrame {
                        server_params: unlimited(),
                        client_nonce: alpha.client_nonce,
                        server_nonce,
                        server_timestamp: now_ms as u32,
                        server_mac: siphash13(
                            server.key,
                            mac_message(
                                sender_addr,
                                alpha.client_nonce,
                                server_nonce,
                                now_ms as u32,
                            ),
                        ),
                    },
                ),
            )
        }),
{
}

/// Whether the second frame of a handshake returns a code which the server has given to this
/// address, for the same nonces and time, less than ten seconds ago.
pub open spec fn returns_code<P>(
    server: ServerState<P>,
    beta: HandshakeBetaFrame,
    sender_addr: AddressView,
    now_ms: u64,
) -> bool {
    &&& beta.server_mac == siphash13(
        server.key,
        mac_message(
            sender_addr,
            beta.client_nonce,
            beta.server_nonce,
            beta.server_timestamp,
        ),
    )
    &&& (now_ms as u32).wrapping_sub(beta.server_timestamp) < 10_000
}

/// Each client which returns the server's code is told what comes of it: one which is connected
/// already is told so again; any other is refused if the server is full, or else if the two do not
/// agree on the size of packets, and is otherwise connected. Whoever does not return the code is
/// ignored.
pub proof fn law_code_decides<P>(
    server: ServerState<P>,
    beta: HandshakeBetaFrame,
    sender_addr: AddressView,
    now_ms: u64,
    server_nonce: u32,
)
    ensures
        ({
            let action = server.on_frame(simple_frame(beta), sender_addr, now_ms, server_nonce);
            let is_known = server.peers.contains_key(sender_addr);
            let is_full = server.peers.dom().len() >= server.config.peer_count_max;
            let answer = |error: Option<HandshakeErrorKind>| simple_frame(
                HandshakeBetaAckFrame { client_nonce: beta.client_nonce, error },
            );
            if !returns_code(server, beta, sender_addr, now_ms) {
                action is Ignore
            } else if is_known {
                action == FrameActionView::<P>::Reply(answer(None))
            } else if is_full {
                action == FrameActionView::<P>::Reply(answer(Some(HandshakeErrorKind::Capacity)))
            } else if beta.client_params.packet_size_in_max < u32::MAX {
                action == FrameActionView::<P>::Reply(answer(Some(HandshakeErrorKind::Parameter)))
            } else {
                action matches FrameActionView::Accept(_, frame) && frame == answer(None)
            }
        }),
{
    lemma_block_sizes();
    lemma_frame_sizes();
    law_simple_frame_round_trip(beta);
    law_frame_round_trip(FrameType::HandshakeBeta, beta.encode());
    beta.round_trip(Seq::empty());
}

/// A server connects no one who does not return its code.
pub proof fn law_only_codes_connect<P>(
    server: ServerState<P>,
    frame: Seq<u8>,
    sender_addr: AddressView,
    now_ms: u64,
    server_nonce: u32,
)
    requires
        server.on_frame(frame, sender_addr, now_ms, server_nonce) is Accept,
    ensures
        is_intact(frame),
        frame_type(frame) == Some(FrameType::HandshakeBeta),
        HandshakeBetaFrame::in_payload(frame_payload(frame)) matches Some(beta) && returns_code(
            server,
            beta,
            sender_addr,
            now_ms,
        ) && beta.client_params.packet_size_in_max == u32::MAX,
        !server.peers.contains_key(sender_addr),
        server.peers.dom().len() < server.config.peer_count_max,
{
}

/// A client which is not connected yet acts upon the server's answer to the frame which it has sent
/// last, if the answer repeats its nonce, and upon no other frame. It does so once: the same answer
/// does not count in the next phase.
pub proof fn law_connecting_client_awaits_answer(
    client: ClientState,
    state: HandshakeView,
    frame: Seq<u8>,
    now_ms: u64,
    rto_estimate_ms: u64,
    after: ClientState,
)
    requires
        client.connection == ConnectionView::Handshake(state),
        client.frame_leads_to(frame, now_ms, rto_estimate_ms, after),
        after != client,
    ensures
        is_intact(frame),
        state.phase is Alpha ==> {
            &&& frame_type(frame) == Some(FrameType::HandshakeAlphaAck)
            &&& HandshakeAlphaAckFrame::in_payload(frame_payload(frame)) matches Some(ack)
                && ack.client_nonce == state.local_nonce
            &&& after.connection matches ConnectionView::Handshake(later) && later.phase is Beta
        },
        state.phase is Beta ==> {
            &&& frame_type(frame) == Some(FrameType::HandshakeBetaAck)
            &&& HandshakeBetaAckFrame::in_payload(frame_payload(frame)) matches Some(ack)
                && ack.client_nonce == state.local_nonce && (ack.error is None
                <==> after.connection is Active) && (ack.error is Some
                <==> after.connection is Quiescent)
        },
{
}

/// A client which has asked to connect returns what the server has sent to it, provided that the
/// two agree on the size of packets.
pub proof fn law_answer_must_be_agreeable(
    client: ClientState,
    state: HandshakeView,
    ack: HandshakeAlphaAckFrame,
    now_ms: u64,
    rto_estimate_ms: u64,
    after: ClientState,
)
    requires
        client.connection == ConnectionView::Handshake(state),
        state.phase is Alpha,
        client.frame_leads_to(simple_frame(ack), now_ms, rto_estimate_ms, after),
    ensures
        ({
            let is_agreed = ack.client_nonce == state.local_nonce
                && ack.server_params.packet_size_in_max == u32::MAX;
            &&& !is_agreed ==> after == client
            &&& is_agreed ==> {
                &&& after.connection matches ConnectionView::Handshake(later) && later.phase is Beta
                &&& after.host.outbox.len() == client.host.outbox.len() + 1
                &&& frame_type(after.host.outbox.last()) == Some(FrameType::HandshakeBeta)
                &&& HandshakeBetaFrame::in_payload(frame_payload(after.host.outbox.last()))
                    matches Some(beta) && beta.client_nonce == state.local_nonce
                    && beta.server_nonce == ack.server_nonce && beta.server_timestamp
                    == ack.server_timestamp && beta.server_mac == ack.server_mac
                    && beta.client_params == unlimited()
            }
        }),
{
    lemma_block_sizes();
    lemma_frame_sizes();
    law_simple_frame_round_trip(ack);
    law_simple_frame_round_trip(
        HandshakeBetaFrame {
            client_params: unlimited(),
            client_nonce: ack.client_nonce,
            server_nonce: ack.server_nonce,
            server_timestamp: ack.server_timestamp,
            server_mac: ack.server_mac,
        },
    );
}

/// The error which a client reports is the one for which it has been refused.
pub proof fn law_refusal_is_reported(
    client: ClientState,
    state: HandshakeView,
    kind: HandshakeErrorKind,
    now_ms: u64,
    rto_estimate_ms: u64,
    after: ClientState,
)
    requires
        client.connection == ConnectionView::Handshake(state),
        state.phase is Beta,
        ({
            let ack = HandshakeBetaAckFrame { client_nonce: state.local_nonce, error: Some(kind) };
            client.frame_leads_to(simple_frame(ack), now_ms, rto_estimate_ms, after)
        }),
    ensures
        after.connection is Quiescent,
        after.host.outbox == client.host.outbox,
        after.host.events.len() == client.host.events.len() + 1,
        after.host.events.drop_last() == client.host.events,
        kind is Capacity ==> after.host.events.last() == EventView::Error(ErrorKind::Capacity),
        kind is Parameter ==> after.host.events.last() == EventView::Error(ErrorKind::Parameter),
{
    let ack = HandshakeBetaAckFrame { client_nonce: state.local_nonce, error: Some(kind) };
    lemma_block_sizes();
    lemma_frame_sizes();
    law_simple_frame_round_trip(ack);
    assert(after.host.events.drop_last() =~= client.host.events);
}

/// A client which asks to connect sends its request at once, and again every two seconds, until it
/// is answered, or until the time is up which it has been told to wait. It then gives up, and
/// reports so. An answer gives it as much time again for the second frame.
pub proof fn law_handshake_takes_its_time(
    client: ClientState,
    state: HandshakeView,
    now_ms: u64,
    after: ClientState,
)
    requires
        client.wf(),
        client.is_time(now_ms),
        client.connection == ConnectionView::Handshake(state),
        client.passes_to(now_ms, after),
    ensures
        ({
            let is_due = client.host.rto_timer matches Some(time_ms) && time_ms <= now_ms;
            &&& !is_due ==> after == client
            &&& is_due && now_ms >= state.timeout_time_ms ==> {
                &&& after.connection is Quiescent
                &&& after.host.rto_timer is None
                &&& after.host.outbox == client.host.outbox
                &&& after.host.events == client.host.events.push(
                    EventView::Error(ErrorKind::Timeout),
                )
            }
            &&& is_due && now_ms < state.timeout_time_ms ==> {
                &&& after.connection == client.connection
                &&& after.host.rto_timer == Some((now_ms + 2_000) as u64)
                &&& after.host.outbox == client.host.outbox.push(state.frame)
                &&& after.host.events == client.host.events
            }
        }),
{
}

/// The time which a client waits for either answer is the one which it has been told to wait.
pub proof fn law_handshake_timeout_is_configured(
    config: ClientConfig,
    local_nonce: u32,
    client: ClientState,
    state: HandshakeView,
    frame: Seq<u8>,
    now_ms: u64,
    rto_estimate_ms: u64,
    after: ClientState,
)
    requires
        client.wf(),
        client.is_time(now_ms),
        client.connection == ConnectionView::Handshake(state),
        client.frame_leads_to(frame, now_ms, rto_estimate_ms, after),
    ensures
        connecting(config, local_nonce).connection matches ConnectionView::Handshake(first)
            && first.timeout_time_ms == config.handshake_timeout_ms && first.phase is Alpha
            && connecting(config, local_nonce).host.outbox == seq![first.frame] && connecting(
            config,
            local_nonce,
        ).host.rto_timer == Some(2_000u64),
        after.connection matches ConnectionView::Handshake(later) ==> {
            if after == client {
                later == state
            } else {
                &&& later.phase is Beta
                &&& later.timeout_time_ms == now_ms + client.config.handshake_timeout_ms
                &&& after.host.rto_timer == Some((now_ms + 2_000) as u64)
                &&& after.host.outbox == client.host.outbox.push(later.frame)
                &&& after.host.events == client.host.events
            }
        },
{
}

/// A client which is no longer connected does nothing any more.
pub proof fn law_finished_client_is_quiet(
    client: ClientState,
    frame: Seq<u8>,
    packet: Seq<u8>,
    mode: SendMode,
    now_ms: u64,
    rto_estimate_ms: u64,
    after: ClientState,
)
    requires
        client.connection is Quiescent,
    ensures
        client.frame_leads_to(frame, now_ms, rto_estimate_ms, after) ==> after == client,
        client.flushes_to(now_ms, after) ==> after == client,
        client.after_enqueue(packet, mode, now_ms) == client,
        client.after_disconnect(now_ms) == client,
        client.passes_to(now_ms, after) ==> {
            &&& after.connection is Quiescent
            &&& after.host.outbox == client.host.outbox
            &&& after.host.events == client.host.events
        },
        client.rtt_sample(frame, now_ms) is None,
{
}

/// A client which is connected leaves each frame of the connection to its endpoint, as it was
/// written. It ignores the frames of handshakes.
#[verifier::rlimit(60)]
pub proof fn law_connected_client_takes_frames(
    client: ClientState,
    endpoint: EndpointState,
    kind: FrameType,
    payload: Seq<u8>,
    now_ms: u64,
    rto_estimate_ms: u64,
    after: ClientState,
)
    requires
        client.connection == ConnectionView::Active(endpoint),
        client.frame_leads_to(frame_bytes(kind, payload), now_ms, rto_estimate_ms, after),
    ensures
        kind is HandshakeAlphaAck || kind is HandshakeBetaAck ==> after == client,
        !(kind is HandshakeAlphaAck) && !(kind is HandshakeBetaAck) ==> {
            &&& after.config == client.config
            &&& after.connection matches ConnectionView::Active(later) && is_reaction(
                endpoint.on_frame(kind, payload, now_ms, rto_estimate_ms),
                now_ms,
                client.host,
                later,
                after.host,
            )
        },
{
    law_frame_round_trip(kind, payload);
    if !(kind is HandshakeAlphaAck) && !(kind is HandshakeBetaAck) {
        assert(client.other_leads_to(kind, payload, now_ms, rto_estimate_ms, after));
    }
}

/// A client learns the round trip time which a frame reveals to its endpoint.
pub proof fn law_client_measures_round_trips(
    client: ClientState,
    endpoint: EndpointState,
    kind: FrameType,
    payload: Seq<u8>,
    now_ms: u64,
)
    requires
        client.connection == ConnectionView::Active(endpoint),
    ensures
        client.rtt_sample(frame_bytes(kind, payload), now_ms) == endpoint.rtt_sample(
            kind,
            payload,
            now_ms,
        ),
{
    law_frame_round_trip(kind, payload);
}

/// A client never acts upon a frame which has been damaged, or is too short.
pub proof fn law_client_ignores_damaged_frames(
    client: ClientState,
    frame: Seq<u8>,
    now_ms: u64,
    rto_estimate_ms: u64,
    after: ClientState,
)
    requires
        frame.len() < FRAME_OVERHEAD_SIZE || !is_intact(frame),
        client.frame_leads_to(frame, now_ms, rto_estimate_ms, after),
    ensures
        after == client,
        client.rtt_sample(frame, now_ms) is None,
{
}

/// A client which is connected passes on what it is told to its endpoint: packets are enqueued, and
/// a wish to disconnect makes the endpoint ask the server to close the connection.
pub proof fn law_connected_client_passes_on(
    client: ClientState,
    endpoint: EndpointState,
    packet: Seq<u8>,
    mode: SendMode,
    now_ms: u64,
    after: ClientState,
)
    requires
        client.connection == ConnectionView::Active(endpoint),
        endpoint.state_id is Active,
    ensures
        client.after_enqueue(packet, mode, now_ms) == (ClientState {
            connection: ConnectionView::Active(endpoint.after_enqueue(packet, mode, now_ms)),
            ..client
        }),
        ({
            let closing = client.after_disconnect(now_ms);
            &&& closing.connection matches ConnectionView::Active(later) && later.state_id
                is Closing
            &&& closing.host.outbox == client.host.outbox.push(endpoint.close_frame())
            &&& closing.host.events == client.host.events
            &&& closing.host.rto_timer is Some
        }),
        client.flushes_to(now_ms, after) ==> (after.connection matches ConnectionView::Active(later)
            && is_reaction(endpoint.on_flush(), now_ms, client.host, later, after.host)),
{
    reveal_with_fuel(HostState::after_actions, 3);
    let outcome = endpoint.on_disconnect(now_ms).outcome;
    assert(outcome.actions.skip(1).skip(1) =~= Seq::empty());
}

/// When the timer of a client fires, its endpoint is told. If that ends the connection, the client
/// is done for: a server which has been silent for too long is reported, one which has closed the
/// connection has been reported already.
pub proof fn law_client_timer_reaches_endpoint(
    client: ClientState,
    endpoint: EndpointState,
    now_ms: u64,
    after: ClientState,
)
    requires
        client.connection == ConnectionView::Active(endpoint),
        client.passes_to(now_ms, after),
    ensures
        ({
            let is_due = client.host.rto_timer matches Some(time_ms) && time_ms <= now_ms;
            let unset = HostState { rto_timer: None, ..client.host };
            let is_silent = endpoint.state_id is Active || endpoint.state_id is Closing;
            &&& !is_due ==> after == client
            &&& is_due && !endpoint.ends_on_timer() ==> after.config == client.config && (
            after.connection matches ConnectionView::Active(later) && is_reaction(
                endpoint.on_timer(now_ms),
                now_ms,
                unset,
                later,
                after.host,
            ))
            &&& is_due && endpoint.ends_on_timer() ==> {
                &&& after.connection is Quiescent
                &&& after.host.rto_timer is None
                &&& after.host.outbox == client.host.outbox
                &&& after.host.events == if is_silent {
                    client.host.events.push(EventView::Error(ErrorKind::Timeout))
                } else {
                    client.host.events
                }
            }
        }),
{
    reveal_with_fuel(HostState::after_actions, 2);
}

/// A peer hands the packets which it is to send to its endpoint, whatever their mode. Its timer
/// counts as expired once the time for which it has been set has passed, and may fire only while
/// its endpoint waits for it.
pub proof fn law_peer_passes_on(peer: PeerState, packet: Seq<u8>, mode: SendMode, now_ms: u64)
    ensures
        peer.after_enqueue(packet, mode, now_ms) == (PeerState {
            endpoint: peer.endpoint.after_enqueue(packet, mode, now_ms),
            host: peer.host,
        }),
        peer.is_due(now_ms) <==> exists|time_ms: u64|
            time_ms < now_ms && #[trigger] is_set_for(peer.host, time_ms),
        peer.endpoint.state_id is Active && peer.endpoint.rto_timer is None ==> !peer.expects_timer(),
        !(peer.endpoint.state_id is Active) ==> peer.expects_timer(),
        peer.endpoint.rto_timer is Some ==> peer.expects_timer(),
{
    if peer.is_due(now_ms) {
        assert(is_set_for(peer.host, peer.host.rto_timer->0));
    }
}

/// Whether the timer of a host is set for some time.
pub open spec fn is_set_for(host: HostState, time_ms: u64) -> bool {
    host.rto_timer == Some(time_ms)
}

/// The events which some actions come to, in order.
pub open spec fn events_of(actions: Seq<HostAction>) -> Seq<EventView>
    decreases actions.len(),
{
    if actions.len() == 0 {
        Seq::empty()
    } else {
        let before = events_of(actions.drop_last());
        match actions.last() {
            HostAction::Connect => before.push(EventView::Connect),
            HostAction::Disconnect => before.push(EventView::Disconnect),
            HostAction::Receive(packet) => before.push(EventView::Receive(packet)),
            HostAction::Timeout => before.push(EventView::Error(ErrorKind::Timeout)),
            _ => before,
        }
    }
}

/// The time for which the timer is set after some actions.
pub open spec fn timer_after(timer: Option<u64>, actions: Seq<HostAction>) -> Option<u64>
    decreases actions.len(),
{
    if actions.len() == 0 {
        timer
    } else {
        match actions.last() {
            HostAction::SetRtoTimer(time_ms) => Some(time_ms),
            HostAction::UnsetRtoTimer => None,
            _ => timer_after(timer, actions.drop_last()),
        }
    }
}

/// A host does all that its endpoint asks for, in order: it sends every frame, reports every event,
/// and sets its timer as it has been asked last.
pub proof fn law_host_does_as_it_is_asked(host: HostState, actions: Seq<HostAction>)
    ensures
        host.after_actions(actions).outbox == host.outbox
            + frames_of(actions),
        host.after_actions(actions).events == host.events + events_of(actions),
        host.after_actions(actions).rto_timer == timer_after(host.rto_timer, actions),
    decreases actions.len(),
{
    let after = host.after_actions(actions);
    if actions.len() == 0 {
        assert(after.outbox =~= host.outbox + frames_of(actions));
        assert(after.events =~= host.events + events_of(actions));
    } else {
        let shorter = actions.drop_last();
        law_host_does_as_it_is_asked(host, shorter);
        let last = seq![actions.last()];
        assert(actions =~= shorter + last);
        lemma_after_actions(host, shorter, last);
        reveal_with_fuel(HostState::after_actions, 2);
        assert(last.skip(1) =~= Seq::empty());
        assert(after == host.after_actions(shorter).after_action(actions.last()));
        assert(after.outbox =~= host.outbox + frames_of(actions));
        assert(after.events =~= host.events + events_of(actions));
    }
}

} // verus!
