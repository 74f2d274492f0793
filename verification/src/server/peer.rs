//! A client as the server sees it.

use vstd::prelude::*;

use crate::connection::{self, awaits_timer, is_reaction};
use crate::endpoint::model::EndpointState;
use crate::endpoint::{
    initial_state, is_time, Config, Endpoint, StateId, TimeoutAction, FRAME_SIZE_MAX,
};
use crate::frame::FrameType;
use crate::host::{Event, EventView, Host, HostState};
use crate::SendMode;

verus! {

/// The server's end of a connection, and what has been asked for on its behalf.
pub struct Peer {
    endpoint: Endpoint,
    host: Host,
}

/// What a [`Peer`] holds.
pub struct PeerState {
    pub endpoint: EndpointState,
    pub host: HostState,
}

impl PeerState {
    pub open spec fn wf(self) -> bool {
        awaits_timer(self.endpoint, self.host.rto_timer)
    }

    /// Whether the timer may fire.
    pub open spec fn expects_timer(self) -> bool {
        self.endpoint.state_id is Active ==> self.endpoint.rto_timer is Some
    }

    /// Whether the timer has been set for a time before now.
    pub open spec fn is_due(self, now_ms: u64) -> bool {
        self.host.rto_timer matches Some(time_ms) && time_ms < now_ms
    }

    /// The state once a packet has been enqueued.
    pub open spec fn after_enqueue(self, packet: Seq<u8>, mode: SendMode, now_ms: u64) -> PeerState {
        PeerState { endpoint: self.endpoint.after_enqueue(packet, mode, now_ms), ..self }
    }
}

impl View for Peer {
    type V = PeerState;

    closed spec fn view(&self) -> PeerState {
        PeerState { endpoint: self.endpoint@, host: self.host@ }
    }
}

impl Peer {
    pub closed spec fn inv(&self) -> bool {
        self.endpoint.wf()
    }

    pub open spec fn wf(&self) -> bool {
        self.inv() && self@.wf()
    }

    pub fn new(endpoint_config: Config) -> (peer: Self)
        requires
            endpoint_config.is_valid(),
        ensures
            peer.wf(),
            peer@ == (PeerState {
                endpoint: initial_state(
                    endpoint_config.timeout_time_ms,
                    endpoint_config.prio_config@,
                ),
                host: HostState::empty(),
            }),
    {
        Self { endpoint: Endpoint::new(endpoint_config), host: Host::new() }
    }

    /// The connection is up.
    pub fn init(&mut self, now_ms: u64)
        requires
            old(self).wf(),
            old(self)@.endpoint.state_id is PreInit,
            old(self)@.host.rto_timer is None,
        ensures
            final(self).wf(),
            final(self)@ == (PeerState {
                endpoint: EndpointState { state_id: StateId::Active, ..old(self)@.endpoint },
                host: old(self)@.host.after_event(EventView::Connect),
            }),
    {
        connection::init(&mut self.endpoint, &mut self.host, now_ms);
    }

    /// Enqueues a packet to be sent to this peer.
    pub fn enqueue(&mut self, packet_bytes: Box<[u8]>, mode: SendMode, now_ms: u64)
        requires
            old(self).wf(),
            is_time(now_ms),
        ensures
            final(self).wf(),
            final(self)@ == old(self)@.after_enqueue(packet_bytes@, mode, now_ms),
    {
        self.endpoint.enqueue(packet_bytes, mode, now_ms);
    }

    /// Sends as much data as possible for this peer.
    pub fn flush(&mut self, now_ms: u64)
        requires
            old(self).wf(),
            is_time(now_ms),
        ensures
            final(self).wf(),
            is_reaction(
                old(self)@.endpoint.on_flush(),
                now_ms,
                old(self)@.host,
                final(self)@.endpoint,
                final(self)@.host,
            ),
    {
        connection::flush(&mut self.endpoint, &mut self.host, now_ms);
    }

    /// Equivalent to calling [`Peer::enqueue`] followed by [`Peer::flush`].
    pub fn send(&mut self, packet_bytes: Box<[u8]>, mode: SendMode, now_ms: u64)
        requires
            old(self).wf(),
            is_time(now_ms),
        ensures
            final(self).wf(),
            is_reaction(
                old(self)@.endpoint.after_enqueue(packet_bytes@, mode, now_ms).on_flush(),
                now_ms,
                old(self)@.host,
                final(self)@.endpoint,
                final(self)@.host,
            ),
    {
        self.enqueue(packet_bytes, mode, now_ms);
        self.flush(now_ms);
    }

    /// Disconnects this peer gracefully. No more packets will be sent or received once this
    /// function has been called.
    pub fn disconnect(&mut self, now_ms: u64)
        requires
            old(self).wf(),
            is_time(now_ms),
        ensures
            final(self).wf(),
            final(self)@.endpoint == old(self)@.endpoint.on_disconnect(now_ms).outcome.state,
            final(self)@.host == old(self)@.host.after_actions(
                old(self)@.endpoint.on_disconnect(now_ms).outcome.actions,
            ),
    {
        connection::disconnect(&mut self.endpoint, &mut self.host, now_ms);
    }

    /// Whether the clock has not gone back since the segment was sent of which the round trip time is
    /// being measured.
    pub fn can_sample_rtt(&self, now_ms: u64) -> (result: bool)
        ensures
            result == self@.endpoint.can_sample_rtt(now_ms),
    {
        self.endpoint.can_sample_rtt(now_ms)
    }

    /// The round trip time which a frame reveals, if it does.
    pub fn rtt_sample(&self, frame_type: FrameType, payload_bytes: &[u8], now_ms: u64) -> (sample:
        Option<u64>)
        requires
            self@.endpoint.can_sample_rtt(now_ms),
        ensures
            sample == self@.endpoint.rtt_sample(frame_type, payload_bytes@, now_ms),
    {
        self.endpoint.rtt_sample(frame_type, payload_bytes, now_ms)
    }

    /// Takes in a frame.
    pub fn handle_frame(
        &mut self,
        frame_type: FrameType,
        payload_bytes: &[u8],
        now_ms: u64,
        rto_estimate_ms: u64,
    )
        requires
            old(self).wf(),
            is_time(now_ms),
            payload_bytes@.len() <= FRAME_SIZE_MAX,
        ensures
            final(self).wf(),
            is_reaction(
                old(self)@.endpoint.on_frame(frame_type, payload_bytes@, now_ms, rto_estimate_ms),
                now_ms,
                old(self)@.host,
                final(self)@.endpoint,
                final(self)@.host,
            ),
    {
        connection::handle_frame(
            &mut self.endpoint,
            &mut self.host,
            frame_type,
            payload_bytes,
            now_ms,
            rto_estimate_ms,
        );
    }

    /// Whether the timer has expired. If so, it is no longer set.
    pub fn test(&mut self, now_ms: u64) -> (fired: bool)
        requires
            old(self).wf(),
        ensures
            final(self).wf(),
            fired == old(self)@.is_due(now_ms),
            final(self)@ == if fired {
                PeerState {
                    host: HostState { rto_timer: None, ..old(self)@.host },
                    ..old(self)@
                }
            } else {
                old(self)@
            },
            fired ==> final(self)@.expects_timer(),
    {
        if let Some(time_ms) = self.host.rto_timer() {
            if time_ms < now_ms {
                self.host.set_rto_timer(None);
                return true;
            }
        }
        false
    }

    /// Whether the timer may fire.
    pub fn expects_rto_timer(&self) -> (expected: bool)
        ensures
            expected == self@.expects_timer(),
    {
        self.endpoint.expects_rto_timer()
    }

    /// Takes in that the timer has fired.
    pub fn handle_rto_timer(&mut self, now_ms: u64) -> (action: TimeoutAction)
        requires
            old(self).wf(),
            is_time(now_ms),
            old(self)@.expects_timer(),
        ensures
            final(self).wf(),
            (action is Terminate) == old(self)@.endpoint.ends_on_timer(),
            is_reaction(
                old(self)@.endpoint.on_timer(now_ms),
                now_ms,
                old(self)@.host,
                final(self)@.endpoint,
                final(self)@.host,
            ),
    {
        connection::handle_rto_timer(&mut self.endpoint, &mut self.host, now_ms)
    }

    /// Takes the next frame to be sent to this peer.
    pub fn pop_frame(&mut self) -> (frame: Option<Vec<u8>>)
        requires
            old(self).wf(),
        ensures
            final(self).wf(),
            final(self)@.endpoint == old(self)@.endpoint,
            match frame {
                Some(frame) => {
                    &&& old(self)@.host.outbox.len() > 0
                    &&& frame@ == old(self)@.host.outbox[0]
                    &&& final(self)@.host == (HostState {
                        outbox: old(self)@.host.outbox.skip(1),
                        ..old(self)@.host
                    })
                },
                None => old(self)@.host.outbox.len() == 0 && final(self)@.host == old(self)@.host,
            },
    {
        self.host.pop_frame()
    }

    /// Takes the next event of this peer.
    pub fn pop_event(&mut self) -> (event: Option<Event>)
        requires
            old(self).wf(),
        ensures
            final(self).wf(),
            final(self)@.endpoint == old(self)@.endpoint,
            match event {
                Some(event) => {
                    &&& old(self)@.host.events.len() > 0
                    &&& event@ == old(self)@.host.events[0]
                    &&& final(self)@.host == (HostState {
                        events: old(self)@.host.events.skip(1),
                        ..old(self)@.host
                    })
                },
                None => old(self)@.host.events.len() == 0 && final(self)@.host == old(self)@.host,
            },
    {
        self.host.pop_event()
    }
}

} // verus!
