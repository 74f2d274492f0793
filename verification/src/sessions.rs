//! What a client and a server make of their configuration, and of what they are told.

use vstd::prelude::*;

use crate::buffer::fragments_of;
use crate::buffer::reliable::TxState as ReliableTxState;
use crate::buffer::stream::stream_of;
use crate::buffer::unreliable::{queued, Queued, TxState as UnreliableTxState};
use crate::client::{
    after_enqueues, connecting, ClientState, Config as ClientConfig, ConnectionView, HandshakeView,
};
use crate::connection::is_reaction;
use crate::endpoint::balance::{follows_weights, law_weights_are_followed};
use crate::endpoint::fragment_tx::FragmentTxState;
use crate::endpoint::laws::is_in_step;
use crate::endpoint::model::{EndpointState, HostAction};
use crate::endpoint::traffic::{is_carrying, is_flowing};
use crate::endpoint::{
    initial_state, is_time, StateId, FRAGMENT_SIZE, FRAME_SIZE_MAX, RTO_INITIAL_MS,
};
use crate::frame::serial::{
    encode_datagram, frame_payload, frame_type, is_intact, SimplePayloadRead,
};
use crate::frame::{FrameType, HandshakeBetaAckFrame};
use crate::host::{EventView, HostState};
use crate::server::handshake_mac::AddressView;
use crate::server::ServerState;
use crate::SendMode;

verus! {

/// Whether nothing has been sent or received yet over a connection which is up.
pub open spec fn is_untouched(endpoint: EndpointState) -> bool {
    &&& endpoint.state_id is Active
    &&& endpoint.segment_tx.transit.len() == 0
    &&& endpoint.segment_tx.ack_history == u32::MAX
    &&& endpoint.segment_rx.pending.len() == 0
    &&& endpoint.segment_rx.rx_history == 0
    &&& endpoint.fragment_tx.rel.next_send_id == endpoint.fragment_tx.rel.base_id
    &&& endpoint.fragment_tx.rel.min_ack_id == endpoint.fragment_tx.rel.base_id
    &&& endpoint.fragment_tx.prio.counters == seq![0u32, 0, 0, 0]
    &&& endpoint.reliable_rx.build is None
    &&& endpoint.unreliable_rx.build is None
    &&& endpoint.cc.mode is UnboundedSlowStart
    &&& endpoint.cc.cwnd == 10 * endpoint.cc.mss
    &&& endpoint.cc.dropcnt == 0
    &&& endpoint.rto_ms == RTO_INITIAL_MS
    &&& endpoint.rto_timer is None
    &&& endpoint.rtt_timer is None
}

/// Whether nothing waits to be sent.
pub open spec fn is_idle(endpoint: EndpointState) -> bool {
    endpoint.fragment_tx.rel.fragments.len() == 0 && endpoint.fragment_tx.unrel.queue.len() == 0
}

/// A peer which a server accepts waits for its client for as long as the server has been told to,
/// and shares the connection between its channels as the server has been told to. Nothing has been
/// sent or received yet, and the server is told of the connection.
pub proof fn law_accepted_peer_is_configured<P>(
    server: ServerState<P>,
    frame: Seq<u8>,
    sender_addr: AddressView,
    now_ms: u64,
    server_nonce: u32,
)
    requires
        server.wf(),
        server.on_frame(frame, sender_addr, now_ms, server_nonce) is Accept,
    ensures
        ({
            let peer = server.on_frame(frame, sender_addr, now_ms, server_nonce)->Accept_0;
            &&& peer.endpoint.timeout_time_ms == server.config.connection_timeout_ms
            &&& follows_weights(
                peer.endpoint.fragment_tx.prio.config,
                server.config.channel_balance,
            )
            &&& is_untouched(peer.endpoint)
            &&& is_idle(peer.endpoint)
            &&& peer.host == (HostState {
                rto_timer: None,
                outbox: Seq::empty(),
                events: seq![EventView::Connect],
            })
        }),
{
    law_weights_are_followed(server.config.channel_balance);
    let peer = server.on_frame(frame, sender_addr, now_ms, server_nonce)->Accept_0;
    assert(peer.host.events =~= seq![EventView::Connect]);
}

/// The packets of one mode, in order.
pub open spec fn packets_in_mode(packets: Seq<(Seq<u8>, SendMode)>, reliable: bool) -> Seq<Seq<u8>>
    decreases packets.len(),
{
    if packets.len() == 0 {
        Seq::empty()
    } else {
        let before = packets_in_mode(packets.drop_last(), reliable);
        if (packets.last().1 is Reliable) == reliable {
            before.push(packets.last().0)
        } else {
            before
        }
    }
}

/// The queue of unreliable fragments, if packets are enqueued one after another.
pub open spec fn queue_of(packets: Seq<(Seq<u8>, SendMode)>, now_ms: u64) -> Seq<Queued>
    decreases packets.len(),
{
    if packets.len() == 0 {
        Seq::empty()
    } else {
        let before = queue_of(packets.drop_last(), now_ms);
        match packets.last().1 {
            SendMode::Reliable => before,
            SendMode::Unreliable(timeout_ms) => before + queued(
                fragments_of(packets.last().0, FRAGMENT_SIZE as nat),
                (now_ms + timeout_ms + 1) as u64,
            ),
        }
    }
}

/// Whether all of some packets wait to be sent, in order, and nothing else does.
pub open spec fn holds_packets(
    endpoint: EndpointState,
    packets: Seq<(Seq<u8>, SendMode)>,
    now_ms: u64,
) -> bool {
    &&& endpoint.fragment_tx.rel.fragments == stream_of(
        packets_in_mode(packets, true),
        FRAGMENT_SIZE as nat,
    )
    &&& endpoint.fragment_tx.unrel.queue == queue_of(packets, now_ms)
}

/// A queue which is built up of packets holds the fragments of the unreliable ones, in order.
pub proof fn law_queue_holds_packets(packets: Seq<(Seq<u8>, SendMode)>, now_ms: u64)
    requires
        is_time(now_ms),
    ensures
        ({
            let queue = queue_of(packets, now_ms);
            let stream = stream_of(packets_in_mode(packets, false), FRAGMENT_SIZE as nat);
            &&& queue.len() == stream.len()
            &&& forall|i: int|
                0 <= i < queue.len() ==> (#[trigger] queue[i]).fragment == stream[i]
                    && queue[i].expire_time_ms > now_ms
        }),
    decreases packets.len(),
{
    if packets.len() > 0 {
        let shorter = packets.drop_last();
        law_queue_holds_packets(shorter, now_ms);
        if packets.last().1 is Unreliable {
            let before = packets_in_mode(shorter, false);
            let all = packets_in_mode(packets, false);
            assert(all.drop_last() =~= before);
        }
    }
}

proof fn lemma_enqueues(
    endpoint: EndpointState,
    packets: Seq<(Seq<u8>, SendMode)>,
    now_ms: u64,
)
    requires
        endpoint.state_id is Active,
        is_idle(endpoint),
        endpoint.fragment_tx.rel.fragment_size == FRAGMENT_SIZE,
        endpoint.fragment_tx.unrel.fragment_size == FRAGMENT_SIZE,
    ensures
        ({
            let after = after_enqueues(endpoint, packets, now_ms);
            &&& holds_packets(after, packets, now_ms)
            &&& after == (EndpointState {
                fragment_tx: FragmentTxState {
                    rel: ReliableTxState {
                        fragments: after.fragment_tx.rel.fragments,
                        ..endpoint.fragment_tx.rel
                    },
                    unrel: UnreliableTxState {
                        queue: after.fragment_tx.unrel.queue,
                        ..endpoint.fragment_tx.unrel
                    },
                    ..endpoint.fragment_tx
                },
                ..endpoint
            })
        }),
    decreases packets.len(),
{
    let size = FRAGMENT_SIZE as nat;
    if packets.len() == 0 {
        assert(endpoint.fragment_tx.rel.fragments =~= Seq::empty());
        assert(endpoint.fragment_tx.unrel.queue =~= Seq::empty());
    } else {
        let shorter = packets.drop_last();
        lemma_enqueues(endpoint, shorter, now_ms);
        if packets.last().1 is Reliable {
            let all = packets_in_mode(packets, true);
            assert(all.drop_last() =~= packets_in_mode(shorter, true));
        }
    }
}

/// What sending does not change.
spec fn keeps_settings(a: EndpointState, b: EndpointState) -> bool {
    &&& b.state_id == a.state_id
    &&& b.timeout_time_ms == a.timeout_time_ms
    &&& b.fragment_tx.prio.config == a.fragment_tx.prio.config
    &&& b.fragment_tx.rel.fragments == a.fragment_tx.rel.fragments
    &&& b.fragment_tx.rel.base_id == a.fragment_tx.rel.base_id
}

proof fn lemma_flushed_keeps_settings(
    state: FragmentTxState,
    room: int,
    now_ms: u64,
)
    ensures
        ({
            let after = state.flushed(room, now_ms).state;
            &&& after.prio.config == state.prio.config
            &&& after.rel.fragments == state.rel.fragments
            &&& after.rel.base_id == state.rel.base_id
        }),
    decreases room,
{
    let current = state.current(now_ms);
    let bytes = encode_datagram(current.next_datagram());
    if current.has_data() && bytes.len() <= room {
        lemma_flushed_keeps_settings(current.after_send(), room - bytes.len(), now_ms);
    }
}

proof fn lemma_frames_keep_settings(
    state: EndpointState,
    send_ack: bool,
    ack_rel: bool,
    nonces: Seq<bool>,
    now_ms: u64,
)
    ensures
        keeps_settings(
            state,
            state.after_stream_frames(send_ack, ack_rel, nonces, now_ms).state,
        ),
    decreases nonces.len(),
{
    if nonces.len() > 0 {
        let shorter = nonces.drop_last();
        lemma_frames_keep_settings(state, send_ack, ack_rel, shorter, now_ms);
        let before = state.after_stream_frames(send_ack, ack_rel, shorter, now_ms).state;
        reveal(EndpointState::after_stream_frame);
        lemma_flushed_keeps_settings(
            before.current(now_ms).fragment_tx,
            EndpointState::segment_room(send_ack && nonces.len() == 1),
            now_ms,
        );
    }
}

/// Sending what can be sent changes neither the patience of an endpoint, nor how its channels share
/// the connection, nor what has yet to be acknowledged of the reliable packets.
pub proof fn law_flush_keeps_settings(
    state: EndpointState,
    now_ms: u64,
    after: EndpointState,
    before_actions: Seq<HostAction>,
    after_actions: Seq<HostAction>,
)
    requires
        state.on_flush().ends_in(now_ms, after, before_actions, after_actions),
    ensures
        after.state_id == state.state_id,
        after.timeout_time_ms == state.timeout_time_ms,
        after.fragment_tx.prio.config == state.fragment_tx.prio.config,
        after.fragment_tx.rel.fragments == state.fragment_tx.rel.fragments,
        after.fragment_tx.rel.base_id == state.fragment_tx.rel.base_id,
        before_actions.is_prefix_of(after_actions),
{
    if state.state_id is Active {
        let nonces = choose|nonces: Seq<bool>|
            {
                let flushed = state.after_flush(false, false, nonces, now_ms);
                &&& #[trigger] state.is_flush(false, false, nonces, now_ms)
                &&& after == flushed.state
                &&& after_actions == before_actions + state.on_flush().outcome.actions
                    + flushed.actions
            };
        lemma_frames_keep_settings(state, false, false, nonces, now_ms);
    }
}

/// A client gets connected only by the server's confirmation of its own nonce, once it has shown
/// that it receives what is sent to its address. It then waits for the server for as long as it has
/// been told to, shares the connection between its channels as it has been told to, and sends all
/// packets which it has kept, of either mode, in the order in which they came.
pub proof fn law_connected_client_sends_what_it_kept(
    client: ClientState,
    state: HandshakeView,
    frame: Seq<u8>,
    now_ms: u64,
    rto_estimate_ms: u64,
    after: ClientState,
)
    requires
        client.wf(),
        client.connection == ConnectionView::Handshake(state),
        client.frame_leads_to(frame, now_ms, rto_estimate_ms, after),
        after.connection is Active,
    ensures
        is_intact(frame),
        frame_type(frame) == Some(FrameType::HandshakeBetaAck),
        state.phase is Beta,
        HandshakeBetaAckFrame::in_payload(frame_payload(frame)) == Some(
            HandshakeBetaAckFrame { client_nonce: state.local_nonce, error: None },
        ),
        after.config == client.config,
        ({
            let endpoint = after.connection->Active_0;
            &&& endpoint.state_id is Active
            &&& endpoint.timeout_time_ms == client.config.connection_timeout_ms
            &&& follows_weights(endpoint.fragment_tx.prio.config, client.config.channel_balance)
            &&& endpoint.fragment_tx.rel.fragments == stream_of(
                packets_in_mode(state.packets, true),
                FRAGMENT_SIZE as nat,
            )
        }),
        exists|start: EndpointState|
            {
                &&& #[trigger] holds_packets(start, state.packets, now_ms)
                &&& is_untouched(start)
                &&& start.timeout_time_ms == client.config.connection_timeout_ms
                &&& follows_weights(start.fragment_tx.prio.config, client.config.channel_balance)
                &&& is_reaction(
                    start.on_flush(),
                    now_ms,
                    HostState {
                        rto_timer: None,
                        outbox: client.host.outbox,
                        events: client.host.events.push(EventView::Connect),
                    },
                    after.connection->Active_0,
                    after.host,
                )
            },
{
    let start = client.connected(state.packets, now_ms);
    let fresh = EndpointState {
        state_id: StateId::Active,
        ..initial_state(
            client.config.connection_timeout_ms,
            client.config.channel_balance.prio(),
        )
    };
    law_weights_are_followed(client.config.channel_balance);
    lemma_enqueues(fresh, state.packets, now_ms);
    assert(holds_packets(start, state.packets, now_ms));
    let host = client.with_timer(None).host.after_event(EventView::Connect);
    let endpoint = after.connection->Active_0;
    assert(is_reaction(start.on_flush(), now_ms, host, endpoint, after.host));
    let actions = choose|actions: Seq<HostAction>|
        {
            &&& #[trigger] start.on_flush().ends_in(now_ms, endpoint, Seq::empty(), actions)
            &&& after.host == host.after_actions(actions)
        };
    law_flush_keeps_settings(start, now_ms, endpoint, Seq::empty(), actions);
    assert(host == HostState {
        rto_timer: None,
        outbox: client.host.outbox,
        events: client.host.events.push(EventView::Connect),
    });
}

/// While a handshake is under way, every packet is kept, whatever its mode, behind those which are
/// kept already. Whatever else happens, they stay as they are until the client is connected, or
/// gives up.
pub proof fn law_handshake_keeps_packets(
    client: ClientState,
    state: HandshakeView,
    packet: Seq<u8>,
    mode: SendMode,
    frame: Seq<u8>,
    now_ms: u64,
    rto_estimate_ms: u64,
    after: ClientState,
)
    requires
        client.connection == ConnectionView::Handshake(state),
    ensures
        client.after_enqueue(packet, mode, now_ms) == (ClientState {
            connection: ConnectionView::Handshake(
                HandshakeView { packets: state.packets + seq![(packet, mode)], ..state },
            ),
            ..client
        }),
        client.flushes_to(now_ms, after) ==> after == client,
        client.frame_leads_to(frame, now_ms, rto_estimate_ms, after) || client.passes_to(
            now_ms,
            after,
        ) ==> (after.connection matches ConnectionView::Handshake(later) ==> later.packets
            == state.packets && later.local_nonce == state.local_nonce && after.config
            == client.config),
        client.passes_to(now_ms, after) ==> !(after.connection is Active),
{
    assert(state.packets.push((packet, mode)) =~= state.packets + seq![(packet, mode)]);
}

/// What a client does once it has been told to send some packets, one after another.
pub open spec fn after_client_enqueues(
    client: ClientState,
    packets: Seq<(Seq<u8>, SendMode)>,
    times: Seq<u64>,
) -> ClientState
    decreases packets.len(),
{
    if packets.len() == 0 {
        client
    } else {
        after_client_enqueues(client, packets.drop_last(), times).after_enqueue(
            packets.last().0,
            packets.last().1,
            times[packets.len() - 1],
        )
    }
}

/// A client which has just asked to connect, and has then been told to send some packets, keeps all
/// of them.
pub proof fn law_connecting_client_keeps_packets(
    config: ClientConfig,
    local_nonce: u32,
    packets: Seq<(Seq<u8>, SendMode)>,
    times: Seq<u64>,
)
    ensures
        ({
            let client = after_client_enqueues(connecting(config, local_nonce), packets, times);
            &&& client.connection matches ConnectionView::Handshake(state) && state.packets
                == packets
            &&& client.config == config
            &&& client.host == connecting(config, local_nonce).host
        }),
    decreases packets.len(),
{
    if packets.len() == 0 {
        assert(packets =~= Seq::empty());
    } else {
        law_connecting_client_keeps_packets(config, local_nonce, packets.drop_last(), times);
        assert(packets.drop_last().push(packets.last()) =~= packets);
    }
}

/// Whatever packets a client is told to send while its handshake is under way, of either mode, all of
/// them wait to be sent once it is connected, in the order in which they came: whichever two frames
/// bring it there, the endpoint with which it gets connected holds exactly these packets before it
/// begins to send.
pub proof fn law_kept_packets_reach_the_endpoint(
    config: ClientConfig,
    local_nonce: u32,
    packets: Seq<(Seq<u8>, SendMode)>,
    times: Seq<u64>,
    first_frame: Seq<u8>,
    first_ms: u64,
    middle: ClientState,
    second_frame: Seq<u8>,
    second_ms: u64,
    after: ClientState,
)
    requires
        config.is_valid(),
        config.is_countable(),
        after_client_enqueues(connecting(config, local_nonce), packets, times).frame_leads_to(
            first_frame,
            first_ms,
            0,
            middle,
        ),
        middle.frame_leads_to(second_frame, second_ms, 0, after),
        after.connection is Active,
    ensures
        ({
            let endpoint = after.connection->Active_0;
            &&& endpoint.timeout_time_ms == config.connection_timeout_ms
            &&& follows_weights(endpoint.fragment_tx.prio.config, config.channel_balance)
        }),
        exists|start: EndpointState, host: HostState|
            {
                &&& #[trigger] holds_packets(start, packets, second_ms)
                &&& is_untouched(start)
                &&& #[trigger] is_reaction(
                    start.on_flush(),
                    second_ms,
                    host,
                    after.connection->Active_0,
                    after.host,
                )
                &&& host.events.last() == EventView::Connect
            },
{
    let client = after_client_enqueues(connecting(config, local_nonce), packets, times);
    law_connecting_client_keeps_packets(config, local_nonce, packets, times);
    lemma_enqueues_keep_phase(connecting(config, local_nonce), packets, times);
    assert(client.connection is Handshake);
    assert(client.connection->Handshake_0.phase is Alpha);
    assert(!(middle.connection is Active));
    assert(middle.connection is Handshake);
    let state = middle.connection->Handshake_0;
    assert(state.packets == packets);
    assert(middle.config == config);
    assert(middle.wf());
    law_connected_client_sends_what_it_kept(middle, state, second_frame, second_ms, 0, after);
    let start = choose|start: EndpointState|
        {
            &&& #[trigger] holds_packets(start, state.packets, second_ms)
            &&& is_untouched(start)
            &&& start.timeout_time_ms == middle.config.connection_timeout_ms
            &&& follows_weights(start.fragment_tx.prio.config, middle.config.channel_balance)
            &&& is_reaction(
                start.on_flush(),
                second_ms,
                HostState {
                    rto_timer: None,
                    outbox: middle.host.outbox,
                    events: middle.host.events.push(EventView::Connect),
                },
                after.connection->Active_0,
                after.host,
            )
        };
    let host = HostState {
        rto_timer: None,
        outbox: middle.host.outbox,
        events: middle.host.events.push(EventView::Connect),
    };
    assert(holds_packets(start, packets, second_ms));
    assert(is_reaction(
        start.on_flush(),
        second_ms,
        host,
        after.connection->Active_0,
        after.host,
    ));
    assert(host.events.last() == EventView::Connect);
}

proof fn lemma_enqueues_keep_phase(
    client: ClientState,
    packets: Seq<(Seq<u8>, SendMode)>,
    times: Seq<u64>,
)
    requires
        client.connection is Handshake,
    ensures
        ({
            let after = after_client_enqueues(client, packets, times);
            &&& after.connection is Handshake
            &&& after.connection->Handshake_0.phase == client.connection->Handshake_0.phase
            &&& after.connection->Handshake_0.timeout_ms
                == client.connection->Handshake_0.timeout_ms
        }),
    decreases packets.len(),
{
    if packets.len() > 0 {
        lemma_enqueues_keep_phase(client, packets.drop_last(), times);
    }
}

/// Two ends which have just been connected fit together in both directions: each expects what the
/// other sends first, and either channel is ready to carry whatever packets wait to be sent.
pub proof fn law_new_ends_fit<P>(
    server: ServerState<P>,
    frame: Seq<u8>,
    sender_addr: AddressView,
    accepted_ms: u64,
    server_nonce: u32,
    client: ClientState,
    packets: Seq<(Seq<u8>, SendMode)>,
    now_ms: u64,
)
    requires
        server.wf(),
        client.wf(),
        is_time(now_ms),
        server.on_frame(frame, sender_addr, accepted_ms, server_nonce) is Accept,
    ensures
        ({
            let a = client.connected(packets, now_ms);
            let b = server.on_frame(frame, sender_addr, accepted_ms, server_nonce)->Accept_0.endpoint;
            &&& is_in_step(a, b)
            &&& is_in_step(b, a)
            &&& a.remote_nonce == b.local_nonce
            &&& b.remote_nonce == a.local_nonce
            &&& a.segment_tx.size <= b.segment_rx.window_size
            &&& b.segment_tx.size <= a.segment_rx.window_size
            &&& a.segment_rx.segment_size_max >= FRAME_SIZE_MAX
            &&& b.segment_rx.segment_size_max >= FRAME_SIZE_MAX
            &&& is_carrying(
                a.fragment_tx.rel,
                b.reliable_rx,
                b.reliable_rx,
                packets_in_mode(packets, true),
                0,
                0,
            )
            &&& is_flowing(
                a.fragment_tx.unrel,
                b.unreliable_rx,
                b.unreliable_rx,
                a.fragment_tx.unrel.next_id,
                packets_in_mode(packets, false),
                0,
            )
            &&& is_carrying(
                b.fragment_tx.rel,
                a.reliable_rx,
                a.reliable_rx,
                Seq::empty(),
                0,
                0,
            )
            &&& is_flowing(
                b.fragment_tx.unrel,
                a.unreliable_rx,
                a.unreliable_rx,
                b.fragment_tx.unrel.next_id,
                Seq::empty(),
                0,
            )
        }),
{
    let a = client.connected(packets, now_ms);
    let b = server.on_frame(frame, sender_addr, accepted_ms, server_nonce)->Accept_0.endpoint;
    let fresh = EndpointState {
        state_id: StateId::Active,
        ..initial_state(
            client.config.connection_timeout_ms,
            client.config.channel_balance.prio(),
        )
    };
    let size = FRAGMENT_SIZE as nat;
    lemma_enqueues(fresh, packets, now_ms);
    law_queue_holds_packets(packets, now_ms);
    let reliable = packets_in_mode(packets, true);
    let stream = stream_of(reliable, size);
    assert(stream.skip(0) =~= stream);
    lemma_stream_wf(reliable);
    let none: Seq<Seq<u8>> = Seq::empty();
    assert(stream_of(none, size).skip(0) =~= stream_of(none, size));
    assert(b.fragment_tx.rel.fragments =~= stream_of(none, size));
}

proof fn lemma_stream_wf(packets: Seq<Seq<u8>>)
    ensures
        forall|i: int|
            0 <= i < stream_of(packets, FRAGMENT_SIZE as nat).len() ==> (#[trigger] stream_of(
                packets,
                FRAGMENT_SIZE as nat,
            )[i]).wf() && stream_of(packets, FRAGMENT_SIZE as nat)[i].bytes().len() <= FRAGMENT_SIZE,
    decreases packets.len(),
{
    let size = FRAGMENT_SIZE as nat;
    if packets.len() > 0 {
        lemma_stream_wf(packets.drop_last());
        let last = fragments_of(packets.last(), size);
        let before = stream_of(packets.drop_last(), size);
        assert forall|i: int| 0 <= i < stream_of(packets, size).len() implies (
        #[trigger] stream_of(packets, size)[i]).wf() && stream_of(packets, size)[i].bytes().len()
            <= size by {
            if i < before.len() {
                assert(stream_of(packets, size)[i] == before[i]);
            } else {
                crate::buffer::lemma_fragment_wf(packets.last(), size, i - before.len());
                assert(stream_of(packets, size)[i] == last[i - before.len()]);
            }
        }
    }
}

} // verus!
