//! What holds between a client and a server.

use vstd::prelude::*;

use crate::client::{
    alpha_frame, connecting, refusal_error, ClientState, Config, ConnectionView,
    HandshakePhase,
};
use crate::connection::is_reaction;
use crate::endpoint::model::HostAction;
use crate::endpoint::FRAME_SIZE_MAX;
use crate::frame::serial::{
    frame_payload, frame_type, law_handshake_alpha_round_trip, law_simple_frame_round_trip,
    lemma_block_sizes, lemma_frame_sizes, simple_frame, SimplePayloadRead, PROTOCOL_ID,
};
use crate::frame::{
    FrameType, HandshakeAlphaAckFrame, HandshakeAlphaFrame, HandshakeBetaAckFrame,
    HandshakeBetaFrame, HandshakeErrorKind,
};
use crate::handshake::unlimited;
use crate::host::{EventView, HostState};
use crate::server::handshake_mac::AddressView;
use crate::server::{FrameActionView, ServerState, HANDSHAKE_TIMEOUT_MS};
use crate::SendMode;

verus! {

/// The second frame of a handshake, as a client sends it in answer to a server.
pub open spec fn beta_of(ack: HandshakeAlphaAckFrame) -> HandshakeBetaFrame {
    HandshakeBetaFrame {
        client_params: unlimited(),
        client_nonce: ack.client_nonce,
        server_nonce: ack.server_nonce,
        server_timestamp: ack.server_timestamp,
        server_mac: ack.server_mac,
    }
}

/// Whether a client is in some phase of a handshake, in which it uses a nonce.
pub open spec fn is_connecting(client: ClientState, phase: HandshakePhase, nonce: u32) -> bool {
    client.connection matches ConnectionView::Handshake(state) && state.phase == phase
        && state.local_nonce == nonce
}

/// A server answers whoever asks to connect.
pub proof fn law_alpha_is_answered<P>(
    server: ServerState<P>,
    sender_addr: AddressView,
    client_nonce: u32,
    now_ms: u64,
    server_nonce: u32,
)
    ensures
        server.on_frame(alpha_frame(client_nonce), sender_addr, now_ms, server_nonce)
            == FrameActionView::<P>::Reply(
            simple_frame(server.alpha_ack(client_nonce, sender_addr, now_ms, server_nonce)),
        ),
{
    let alpha = HandshakeAlphaFrame { protocol_id: PROTOCOL_ID, client_nonce };
    lemma_block_sizes();
    lemma_frame_sizes();
    law_handshake_alpha_round_trip(alpha, FRAME_SIZE_MAX as int, alpha_frame(client_nonce));
}

/// A client which gets the server's answer goes on to the second phase of the handshake, and returns
/// what the server has sent.
pub proof fn law_answer_is_returned<P>(
    server: ServerState<P>,
    sender_addr: AddressView,
    server_now_ms: u64,
    server_nonce: u32,
    client: ClientState,
    client_nonce: u32,
    now_ms: u64,
    rto_estimate_ms: u64,
    after: ClientState,
)
    requires
        is_connecting(client, HandshakePhase::Alpha, client_nonce),
        ({
            let ack = server.alpha_ack(client_nonce, sender_addr, server_now_ms, server_nonce);
            client.frame_leads_to(simple_frame(ack), now_ms, rto_estimate_ms, after)
        }),
    ensures
        ({
            let ack = server.alpha_ack(client_nonce, sender_addr, server_now_ms, server_nonce);
            &&& is_connecting(after, HandshakePhase::Beta, client_nonce)
            &&& after.host.outbox == client.host.outbox.push(simple_frame(beta_of(ack)))
            &&& after.host.events == client.host.events
        }),
{
    let ack = server.alpha_ack(client_nonce, sender_addr, server_now_ms, server_nonce);
    lemma_block_sizes();
    lemma_frame_sizes();
    law_simple_frame_round_trip(ack);
}

/// The time between two points on a clock is known from their lower halves, if it is short.
proof fn lemma_elapsed(start_ms: u64, end_ms: u64)
    requires
        start_ms <= end_ms < start_ms + 0x1_0000_0000,
    ensures
        (end_ms as u32).wrapping_sub(start_ms as u32) == end_ms - start_ms,
{
    assert(start_ms as u32 == start_ms % 0x1_0000_0000 && end_ms as u32 == end_ms % 0x1_0000_0000)
        by (bit_vector);
}

/// A server which gets back its answer in time connects the client, or says why it does not. It
/// says again that the client is connected, if it is, without connecting it twice.
pub proof fn law_returned_answer_is_settled<P>(
    server: ServerState<P>,
    then: ServerState<P>,
    sender_addr: AddressView,
    client_nonce: u32,
    server_nonce: u32,
    start_ms: u64,
    now_ms: u64,
    next_nonce: u32,
)
    requires
        then.key == server.key,
        start_ms <= now_ms < start_ms + HANDSHAKE_TIMEOUT_MS,
    ensures
        ({
            let ack = server.alpha_ack(client_nonce, sender_addr, start_ms, server_nonce);
            let frame = simple_frame(beta_of(ack));
            let is_known = then.peers.contains_key(sender_addr);
            let is_full = then.peers.dom().len() >= then.config.peer_count_max;
            then.on_frame(frame, sender_addr, now_ms, next_nonce) == if is_known {
                FrameActionView::<P>::Reply(
                    simple_frame(HandshakeBetaAckFrame { client_nonce, error: None }),
                )
            } else if is_full {
                FrameActionView::<P>::Reply(
                    simple_frame(
                        HandshakeBetaAckFrame {
                            client_nonce,
                            error: Some(HandshakeErrorKind::Capacity),
                        },
                    ),
                )
            } else {
                FrameActionView::<P>::Accept(
                    then.new_peer(),
                    simple_frame(HandshakeBetaAckFrame { client_nonce, error: None }),
                )
            }
        }),
{
    let ack = server.alpha_ack(client_nonce, sender_addr, start_ms, server_nonce);
    lemma_block_sizes();
    lemma_frame_sizes();
    law_simple_frame_round_trip(beta_of(ack));
    lemma_elapsed(start_ms, now_ms);
}

/// No event gets lost while a host does what an endpoint asks for.
proof fn lemma_events_stay(host: HostState, actions: Seq<HostAction>)
    ensures
        host.events.is_prefix_of(host.after_actions(actions).events),
    decreases actions.len(),
{
    if actions.len() > 0 {
        lemma_events_stay(host.after_action(actions[0]), actions.skip(1));
    }
}

/// A client which is told that it is connected is, and reports so before anything else.
pub proof fn law_client_connects(
    client: ClientState,
    client_nonce: u32,
    now_ms: u64,
    rto_estimate_ms: u64,
    after: ClientState,
)
    requires
        is_connecting(client, HandshakePhase::Beta, client_nonce),
        ({
            let ack = HandshakeBetaAckFrame { client_nonce, error: None };
            client.frame_leads_to(simple_frame(ack), now_ms, rto_estimate_ms, after)
        }),
    ensures
        after.connection is Active,
        client.host.events.push(EventView::Connect).is_prefix_of(after.host.events),
{
    let ack = HandshakeBetaAckFrame { client_nonce, error: None };
    lemma_block_sizes();
    lemma_frame_sizes();
    law_simple_frame_round_trip(ack);
    if let ConnectionView::Handshake(state) = client.connection {
        let host = client.with_timer(None).host.after_event(EventView::Connect);
        let reaction = client.connected(state.packets, now_ms).on_flush();
        let endpoint = after.connection->Active_0;
        assert(is_reaction(reaction, now_ms, host, endpoint, after.host));
        let actions = choose|actions: Seq<HostAction>|
            {
                &&& #[trigger] reaction.ends_in(now_ms, endpoint, Seq::empty(), actions)
                &&& after.host == host.after_actions(actions)
            };
        lemma_events_stay(host, actions);
    }
}

/// A client which is turned down gives up, and reports why.
pub proof fn law_refused_client_gives_up(
    client: ClientState,
    client_nonce: u32,
    kind: HandshakeErrorKind,
    now_ms: u64,
    rto_estimate_ms: u64,
    after: ClientState,
)
    requires
        is_connecting(client, HandshakePhase::Beta, client_nonce),
        ({
            let ack = HandshakeBetaAckFrame { client_nonce, error: Some(kind) };
            client.frame_leads_to(simple_frame(ack), now_ms, rto_estimate_ms, after)
        }),
    ensures
        after.connection is Quiescent,
        after.host.events == client.host.events.push(EventView::Error(refusal_error(kind))),
{
    let ack = HandshakeBetaAckFrame { client_nonce, error: Some(kind) };
    lemma_block_sizes();
    lemma_frame_sizes();
    law_simple_frame_round_trip(ack);
}

/// A server connects a client only if there is room, if the client is not connected already, and if
/// it has returned what the server sends to its address, and to no other, not too long ago. Asking
/// to connect is not enough.
pub proof fn law_only_genuine_clients_are_connected<P>(
    server: ServerState<P>,
    frame: Seq<u8>,
    sender_addr: AddressView,
    now_ms: u64,
    server_nonce: u32,
)
    requires
        server.on_frame(frame, sender_addr, now_ms, server_nonce) is Accept,
    ensures
        frame_type(frame) == Some(FrameType::HandshakeBeta),
        !server.peers.contains_key(sender_addr),
        server.peers.dom().len() < server.config.peer_count_max,
        HandshakeBetaFrame::in_payload(frame_payload(frame)) matches Some(beta)
            && server.is_genuine(beta, sender_addr, now_ms),
{
}

/// A client and a server which exchange the frames of a handshake in time, while the server has room
/// for the client, get connected.
#[verifier::rlimit(40)]
pub proof fn law_handshake_connects<P>(
    config: Config,
    client_nonce: u32,
    server: ServerState<P>,
    sender_addr: AddressView,
    server_nonce: u32,
    next_nonce: u32,
    start_ms: u64,
    end_ms: u64,
    client_start_ms: u64,
    client_end_ms: u64,
    middle: ClientState,
    after: ClientState,
)
    requires
        !server.peers.contains_key(sender_addr),
        server.peers.dom().len() < server.config.peer_count_max,
        start_ms <= end_ms < start_ms + HANDSHAKE_TIMEOUT_MS,
        ({
            let ack = server.alpha_ack(client_nonce, sender_addr, start_ms, server_nonce);
            let last = HandshakeBetaAckFrame { client_nonce, error: None };
            &&& connecting(config, client_nonce).frame_leads_to(
                simple_frame(ack),
                client_start_ms,
                0,
                middle,
            )
            &&& middle.frame_leads_to(simple_frame(last), client_end_ms, 0, after)
        }),
    ensures
        ({
            let asking = connecting(config, client_nonce);
            let ack = server.alpha_ack(client_nonce, sender_addr, start_ms, server_nonce);
            let last = HandshakeBetaAckFrame { client_nonce, error: None };
            &&& server.on_frame(asking.host.outbox.last(), sender_addr, start_ms, server_nonce)
                == FrameActionView::<P>::Reply(simple_frame(ack))
            &&& server.on_frame(middle.host.outbox.last(), sender_addr, end_ms, next_nonce)
                == FrameActionView::<P>::Accept(server.new_peer(), simple_frame(last))
            &&& server.new_peer().host.events == seq![EventView::Connect]
            &&& after.connection is Active
            &&& after.host.events.len() > 0
            &&& after.host.events.first() == EventView::Connect
        }),
{
    let asking = connecting(config, client_nonce);
    let ack = server.alpha_ack(client_nonce, sender_addr, start_ms, server_nonce);
    let frames = asking.host.outbox;
    assert(frames.last() == alpha_frame(client_nonce) && asking.host.events.len() == 0);
    assert(is_connecting(asking, HandshakePhase::Alpha, client_nonce));
    law_alpha_is_answered(server, sender_addr, client_nonce, start_ms, server_nonce);
    law_answer_is_returned(
        server,
        sender_addr,
        start_ms,
        server_nonce,
        asking,
        client_nonce,
        client_start_ms,
        0,
        middle,
    );
    law_returned_answer_is_settled(
        server,
        server,
        sender_addr,
        client_nonce,
        server_nonce,
        start_ms,
        end_ms,
        next_nonce,
    );
    law_client_connects(middle, client_nonce, client_end_ms, 0, after);
    assert(middle.host.outbox.last() == simple_frame(beta_of(ack)));
    assert(after.host.events.first() == middle.host.events.push(EventView::Connect)[0]);
    assert(server.new_peer().host.events =~= seq![EventView::Connect]);
}

/// A client which disconnects before it is connected never gets connected, whatever the server sends
/// later: the packets which it has kept are not sent, and no event follows.
pub proof fn law_given_up_handshake_stays_so(
    client: ClientState,
    now_ms: u64,
    frame: Seq<u8>,
    packet: Seq<u8>,
    mode: SendMode,
    later_ms: u64,
    rto_estimate_ms: u64,
    after: ClientState,
)
    requires
        client.connection is Handshake,
    ensures
        ({
            let done = client.after_disconnect(now_ms);
            &&& done.connection is Quiescent
            &&& done.host.events == client.host.events
            &&& done.host.outbox == client.host.outbox
            &&& done.host.rto_timer is None
            &&& done.frame_leads_to(frame, later_ms, rto_estimate_ms, after) ==> after == done
            &&& done.passes_to(later_ms, after) ==> after == done
            &&& done.flushes_to(later_ms, after) ==> after == done
            &&& done.after_enqueue(packet, mode, later_ms) == done
            &&& done.after_disconnect(later_ms) == done
        }),
{
}

/// A server which connects a client, and puts its peer into the table, has one more peer, which is
/// the sender of the frame. The same frame, if it comes again in time, is answered, and nothing more.
pub proof fn law_accepted_client_joins<P>(
    server: ServerState<P>,
    frame: Seq<u8>,
    sender_addr: AddressView,
    now_ms: u64,
    server_nonce: u32,
    peer: P,
    later_ms: u64,
    later_nonce: u32,
)
    requires
        server.wf(),
        server.on_frame(frame, sender_addr, now_ms, server_nonce) is Accept,
    ensures
        ({
            let joined = ServerState { peers: server.peers.insert(sender_addr, peer), ..server };
            let ack = server.on_frame(frame, sender_addr, now_ms, server_nonce)->Accept_1;
            let again = joined.on_frame(frame, sender_addr, later_ms, later_nonce);
            &&& joined.peers.dom() == server.peers.dom().insert(sender_addr)
            &&& joined.peers.dom().len() == server.peers.dom().len() + 1
            &&& joined.peers.dom().len() <= server.config.peer_count_max
            &&& again == FrameActionView::<P>::Reply(ack) || again is Ignore
            &&& HandshakeBetaFrame::in_payload(frame_payload(frame)) matches Some(beta) && (
            server.is_genuine(beta, sender_addr, later_ms) ==> again
                == FrameActionView::<P>::Reply(ack))
        }),
{
    assert(server.peers.insert(sender_addr, peer).dom() =~= server.peers.dom().insert(sender_addr));
}

} // verus!
