//! The host of an endpoint: it keeps what the endpoint asks for until it can be done.

use std::collections::VecDeque;

use vstd::prelude::*;

use crate::endpoint::model::HostAction;
use crate::endpoint::HostContext;
use crate::ErrorKind;

verus! {

/// What an endpoint has asked for.
pub enum Action {
    SendFrame(Vec<u8>),
    SetRtoTimer(u64),
    UnsetRtoTimer,
    Connect,
    Disconnect,
    Receive(Box<[u8]>),
    Timeout,
}

impl View for Action {
    type V = HostAction;

    open spec fn view(&self) -> HostAction {
        match *self {
            Action::SendFrame(frame) => HostAction::SendFrame(frame@),
            Action::SetRtoTimer(time_ms) => HostAction::SetRtoTimer(time_ms),
            Action::UnsetRtoTimer => HostAction::UnsetRtoTimer,
            Action::Connect => HostAction::Connect,
            Action::Disconnect => HostAction::Disconnect,
            Action::Receive(packet) => HostAction::Receive(packet@),
            Action::Timeout => HostAction::Timeout,
        }
    }
}

/// Writes down what an endpoint asks for, in order.
pub struct ActionQueue {
    actions: VecDeque<Action>,
}

/// What some recorded actions stand for.
pub open spec fn action_views(actions: Seq<Action>) -> Seq<HostAction> {
    actions.map_values(|action: Action| action@)
}

impl ActionQueue {
    pub fn new() -> (queue: Self)
        ensures
            queue.actions() == Seq::<HostAction>::empty(),
    {
        let queue = Self { actions: VecDeque::new() };
        assert(queue.actions() =~= Seq::empty());
        queue
    }

    fn push(&mut self, action: Action)
        ensures
            final(self).actions() == old(self).actions().push(action@),
    {
        self.actions.push_back(action);
        assert(self.actions() =~= old(self).actions().push(action@));
    }

    /// Takes the first action out of the queue.
    pub fn pop(&mut self) -> (action: Option<Action>)
        ensures
            match action {
                Some(action) => {
                    &&& old(self).actions().len() > 0
                    &&& action@ == old(self).actions()[0]
                    &&& final(self).actions() == old(self).actions().skip(1)
                },
                None => old(self).actions().len() == 0 && final(self).actions() == old(
                    self,
                ).actions(),
            },
    {
        let action = self.actions.pop_front();
        assert(action is Some ==> self.actions() =~= old(self).actions().skip(1));
        action
    }
}

impl HostContext for ActionQueue {
    closed spec fn actions(&self) -> Seq<HostAction> {
        action_views(self.actions@)
    }

    fn send_frame(&mut self, frame_bytes: &[u8]) {
        self.push(Action::SendFrame(vstd::slice::slice_to_vec(frame_bytes)));
    }

    fn set_rto_timer(&mut self, time_ms: u64) {
        self.push(Action::SetRtoTimer(time_ms));
    }

    fn unset_rto_timer(&mut self) {
        self.push(Action::UnsetRtoTimer);
    }

    fn on_connect(&mut self) {
        self.push(Action::Connect);
    }

    fn on_disconnect(&mut self) {
        self.push(Action::Disconnect);
    }

    fn on_receive(&mut self, packet_bytes: Box<[u8]>) {
        self.push(Action::Receive(packet_bytes));
    }

    fn on_timeout(&mut self) {
        self.push(Action::Timeout);
    }
}

/// Something the user of a connection is told.
#[derive(Debug)]
pub enum Event {
    /// Produced when a connection has been established.
    Connect,
    /// Produced when the connection terminates gracefully.
    Disconnect,
    /// Produced when a packet has been received.
    Receive(Box<[u8]>),
    /// Produced in response to a fatal connection error.
    Error(ErrorKind),
}

/// What an [`Event`] stands for.
pub enum EventView {
    Connect,
    Disconnect,
    Receive(Seq<u8>),
    Error(ErrorKind),
}

impl View for Event {
    type V = EventView;

    open spec fn view(&self) -> EventView {
        match *self {
            Event::Connect => EventView::Connect,
            Event::Disconnect => EventView::Disconnect,
            Event::Receive(packet) => EventView::Receive(packet@),
            Event::Error(kind) => EventView::Error(kind),
        }
    }
}

/// The timer of an endpoint, the frames to be sent for it, and the events to be reported.
pub struct Host {
    rto_timer: Option<u64>,
    outbox: VecDeque<Vec<u8>>,
    events: VecDeque<Event>,
}

/// What a [`Host`] holds.
#[verifier::ext_equal]
pub struct HostState {
    pub rto_timer: Option<u64>,
    pub outbox: Seq<Seq<u8>>,
    pub events: Seq<EventView>,
}

impl HostState {
    pub open spec fn empty() -> HostState {
        HostState { rto_timer: None, outbox: Seq::empty(), events: Seq::empty() }
    }

    pub open spec fn after_event(self, event: EventView) -> HostState {
        HostState { events: self.events.push(event), ..self }
    }

    pub open spec fn after_frame(self, frame: Seq<u8>) -> HostState {
        HostState { outbox: self.outbox.push(frame), ..self }
    }

    /// Does what an endpoint asks for.
    pub open spec fn after_action(self, action: HostAction) -> HostState {
        match action {
            HostAction::SendFrame(frame) => self.after_frame(frame),
            HostAction::SetRtoTimer(time_ms) => HostState { rto_timer: Some(time_ms), ..self },
            HostAction::UnsetRtoTimer => HostState { rto_timer: None, ..self },
            HostAction::Connect => self.after_event(EventView::Connect),
            HostAction::Disconnect => self.after_event(EventView::Disconnect),
            HostAction::Receive(packet) => self.after_event(EventView::Receive(packet)),
            HostAction::Timeout => self.after_event(EventView::Error(ErrorKind::Timeout)),
        }
    }

    /// Does all that an endpoint asks for, in order.
    pub open spec fn after_actions(self, actions: Seq<HostAction>) -> HostState
        decreases actions.len(),
    {
        if actions.len() == 0 {
            self
        } else {
            self.after_action(actions[0]).after_actions(actions.skip(1))
        }
    }

    /// Whether the timer is set, and has run out.
    pub open spec fn timer_is_due(self, now_ms: u64) -> bool {
        self.rto_timer matches Some(time_ms) && now_ms >= time_ms
    }
}

/// What some events stand for.
pub open spec fn event_views(events: Seq<Event>) -> Seq<EventView> {
    events.map_values(|event: Event| event@)
}

/// What some frames stand for.
pub open spec fn frame_views(frames: Seq<Vec<u8>>) -> Seq<Seq<u8>> {
    frames.map_values(|frame: Vec<u8>| frame@)
}

impl View for Host {
    type V = HostState;

    closed spec fn view(&self) -> HostState {
        HostState {
            rto_timer: self.rto_timer,
            outbox: frame_views(self.outbox@),
            events: event_views(self.events@),
        }
    }
}

impl Host {
    pub fn new() -> (host: Self)
        ensures
            host@ == HostState::empty(),
    {
        let host = Self { rto_timer: None, outbox: VecDeque::new(), events: VecDeque::new() };
        assert(host@ =~= HostState::empty());
        host
    }

    /// The time at which the timer is to fire, if it is set.
    pub fn rto_timer(&self) -> (time_ms: Option<u64>)
        ensures
            time_ms == self@.rto_timer,
    {
        self.rto_timer
    }

    pub fn set_rto_timer(&mut self, time_ms: Option<u64>)
        ensures
            final(self)@ == (HostState { rto_timer: time_ms, ..old(self)@ }),
    {
        self.rto_timer = time_ms;
        assert(self@.outbox == old(self)@.outbox);
    }

    /// Adds a frame to be sent.
    pub fn push_frame(&mut self, frame: Vec<u8>)
        ensures
            final(self)@ == old(self)@.after_frame(frame@),
    {
        self.outbox.push_back(frame);
        assert(self@.outbox =~= old(self)@.outbox.push(frame@));
    }

    /// Adds an event to be reported.
    pub fn push_event(&mut self, event: Event)
        ensures
            final(self)@ == old(self)@.after_event(event@),
    {
        self.events.push_back(event);
        assert(self@.events =~= old(self)@.events.push(event@));
    }

    /// Takes the first frame to be sent.
    pub fn pop_frame(&mut self) -> (frame: Option<Vec<u8>>)
        ensures
            match frame {
                Some(frame) => {
                    &&& old(self)@.outbox.len() > 0
                    &&& frame@ == old(self)@.outbox[0]
                    &&& final(self)@ == (HostState {
                        outbox: old(self)@.outbox.skip(1),
                        ..old(self)@
                    })
                },
                None => old(self)@.outbox.len() == 0 && final(self)@ == old(self)@,
            },
    {
        let frame = self.outbox.pop_front();
        assert(frame is Some ==> self@.outbox =~= old(self)@.outbox.skip(1));
        frame
    }

    /// Takes the first event to be reported.
    pub fn pop_event(&mut self) -> (event: Option<Event>)
        ensures
            match event {
                Some(event) => {
                    &&& old(self)@.events.len() > 0
                    &&& event@ == old(self)@.events[0]
                    &&& final(self)@ == (HostState {
                        events: old(self)@.events.skip(1),
                        ..old(self)@
                    })
                },
                None => old(self)@.events.len() == 0 && final(self)@ == old(self)@,
            },
    {
        let event = self.events.pop_front();
        assert(event is Some ==> self@.events =~= old(self)@.events.skip(1));
        event
    }

    /// Whether there is an event to be reported.
    pub fn has_event(&self) -> (result: bool)
        ensures
            result == (self@.events.len() > 0),
    {
        self.events.len() > 0
    }

    /// Does all that an endpoint has asked for.
    pub fn perform(&mut self, queue: ActionQueue)
        ensures
            final(self)@ == old(self)@.after_actions(queue.actions()),
    {
        let ghost goal = self@.after_actions(queue.actions());
        let mut queue = queue;
        loop
            invariant
                self@.after_actions(queue.actions()) == goal,
            ensures
                queue.actions().len() == 0,
            decreases queue.actions().len(),
        {
            match queue.pop() {
                Some(action) => {
                    match action {
                        Action::SendFrame(frame) => self.push_frame(frame),
                        Action::SetRtoTimer(time_ms) => self.set_rto_timer(Some(time_ms)),
                        Action::UnsetRtoTimer => self.set_rto_timer(None),
                        Action::Connect => self.push_event(Event::Connect),
                        Action::Disconnect => self.push_event(Event::Disconnect),
                        Action::Receive(packet) => self.push_event(Event::Receive(packet)),
                        Action::Timeout => self.push_event(Event::Error(ErrorKind::Timeout)),
                    }
                },
                None => break,
            }
        }
    }
}

} // verus!
