//! The queue and the buffer of packets which are resent until they are acknowledged.

use std::collections::VecDeque;

use vstd::prelude::*;

use super::{
    extend, fits, fragment_count, fragment_is_valid, fragment_views, fragments_of, into_boxed,
    packet_view, split, Fragment, FragmentRc, FragmentRef, Window,
};
use crate::id::{advance, delta};

verus! {

/// Fragments waiting to be sent, or to be acknowledged once sent.
#[derive(Debug)]
pub struct TxBuffer {
    fragments: VecDeque<FragmentRc>,
    next_send_id: u32,
    min_ack_id: u32,
    fragment_size: usize,
    send_window: Window,
    duplicate_ack_count: u32,
}

/// What a [`TxBuffer`] holds. The first of `fragments` has the ID `base_id`, the others have the
/// IDs after it.
pub struct TxState {
    pub fragments: Seq<Fragment>,
    pub base_id: u32,
    pub window_size: u32,
    pub fragment_size: nat,
    /// The ID which is sent next.
    pub next_send_id: u32,
    /// One past the newest ID sent so far.
    pub min_ack_id: u32,
    /// Acknowledgements in a row which acknowledged nothing new.
    pub duplicate_acks: nat,
}

impl TxState {
    pub open spec fn wf(self) -> bool {
        &&& self.window_size > 0
        &&& self.fragment_size > 0
        &&& self.duplicate_acks < 2
        &&& delta(self.min_ack_id, self.base_id) <= self.window_size
        &&& delta(self.min_ack_id, self.base_id) <= self.fragments.len()
        &&& forall|i: int|
            0 <= i < self.fragments.len() ==> (#[trigger] self.fragments[i]).wf()
                && self.fragments[i].bytes().len() <= self.fragment_size
    }

    /// Whether the fragment which is sent next exists and lies in the send window.
    pub open spec fn can_send(self) -> bool {
        &&& delta(self.next_send_id, self.base_id) < self.window_size
        &&& delta(self.next_send_id, self.base_id) < self.fragments.len()
    }

    /// The fragment which is sent next.
    pub open spec fn next_fragment(self) -> Fragment {
        self.fragments[delta(self.next_send_id, self.base_id)]
    }

    /// The state once the next fragment has been sent.
    pub open spec fn after_send(self) -> TxState {
        let next_send_id = self.next_send_id.wrapping_add(1);
        TxState {
            next_send_id,
            min_ack_id: if self.next_send_id == self.min_ack_id {
                next_send_id
            } else {
                self.min_ack_id
            },
            ..self
        }
    }

    /// Whether every ID before `new_base_id` has either been acknowledged, or been sent.
    pub open spec fn ack_is_valid(self, new_base_id: u32) -> bool {
        delta(new_base_id, self.base_id) <= delta(self.min_ack_id, self.base_id)
    }

    /// The state once an acknowledgement of all IDs before `new_base_id` has come in.
    pub open spec fn after_ack(self, new_base_id: u32) -> TxState {
        if new_base_id == self.base_id {
            if self.duplicate_acks == 1 {
                TxState { duplicate_acks: 0, next_send_id: self.base_id, ..self }
            } else {
                TxState { duplicate_acks: self.duplicate_acks + 1, ..self }
            }
        } else if self.ack_is_valid(new_base_id) {
            TxState {
                fragments: self.fragments.skip(delta(new_base_id, self.base_id)),
                base_id: new_base_id,
                duplicate_acks: 0,
                ..self
            }
        } else {
            self
        }
    }
}

impl View for TxBuffer {
    type V = TxState;

    closed spec fn view(&self) -> TxState {
        TxState {
            fragments: fragment_views(self.fragments@),
            base_id: self.send_window.base_id,
            window_size: self.send_window.size,
            fragment_size: self.fragment_size as nat,
            next_send_id: self.next_send_id,
            min_ack_id: self.min_ack_id,
            duplicate_acks: self.duplicate_ack_count as nat,
        }
    }
}

impl TxBuffer {
    pub fn new(base_id: u32, window_size: u32, fragment_size: usize) -> (buffer: Self)
        requires
            window_size > 0,
            fragment_size > 0,
        ensures
            buffer@ == (TxState {
                fragments: Seq::empty(),
                base_id,
                window_size,
                fragment_size: fragment_size as nat,
                next_send_id: base_id,
                min_ack_id: base_id,
                duplicate_acks: 0,
            }),
            buffer@.wf(),
    {
        let buffer = Self {
            fragments: VecDeque::new(),
            next_send_id: base_id,
            min_ack_id: base_id,
            fragment_size,
            send_window: Window::new(base_id, window_size),
            duplicate_ack_count: 0,
        };
        assert(buffer@.fragments =~= Seq::empty());
        buffer
    }

    /// Enqueues all fragments of a packet.
    pub fn push(&mut self, packet: Box<[u8]>)
        requires
            old(self)@.wf(),
        ensures
            final(self)@ == (TxState {
                fragments: old(self)@.fragments + fragments_of(packet@, old(self)@.fragment_size),
                ..old(self)@
            }),
            final(self)@.wf(),
    {
        let ghost bytes = packet@;
        let mut queue = split(packet, self.fragment_size);
        self.fragments.append(&mut queue);

        proof {
            assert(self@.fragments =~= old(self)@.fragments + fragments_of(
                bytes,
                old(self)@.fragment_size,
            ));
            assert forall|i: int| 0 <= i < self@.fragments.len() implies (
            #[trigger] self@.fragments[i]).wf() && self@.fragments[i].bytes().len()
                <= self@.fragment_size by {
                let n = old(self)@.fragments.len();
                if i < n {
                    assert(self@.fragments[i] == old(self)@.fragments[i]);
                } else {
                    super::lemma_fragment_wf(bytes, old(self)@.fragment_size, i - n);
                }
            }
        }
    }

    /// The fragment which [`TxBuffer::pop_sendable`] is going to return.
    pub fn peek_sendable(&self) -> (result: Option<(u32, &FragmentRc)>)
        requires
            self@.wf(),
        ensures
            match result {
                Some((id, fragment)) => {
                    &&& self@.can_send()
                    &&& id == self@.next_send_id
                    &&& fragment@ == self@.next_fragment()
                    &&& fragment@.wf()
                },
                None => !self@.can_send(),
            },
    {
        if self.send_window.contains(self.next_send_id) {
            let fragment_id: u32 = self.next_send_id;

            let idx: usize = fragment_id.wrapping_sub(self.send_window.base_id) as usize;

            if idx < self.fragments.len() {
                let fragment = &self.fragments[idx];
                assert(fragment@ == self@.fragments[idx as int]);
                return Some((self.next_send_id, fragment));
            }
        }
        return None;
    }

    /// Hands out the next fragment to send, which stays queued until it is acknowledged.
    pub fn pop_sendable(&mut self) -> (result: Option<(u32, &FragmentRc)>)
        requires
            old(self)@.wf(),
        ensures
            final(self)@.wf(),
            match result {
                Some((id, fragment)) => {
                    &&& old(self)@.can_send()
                    &&& id == old(self)@.next_send_id
                    &&& fragment@ == old(self)@.next_fragment()
                    &&& fragment@.wf()
                    &&& final(self)@ == old(self)@.after_send()
                },
                None => !old(self)@.can_send() && final(self)@ == old(self)@,
            },
    {
        if self.send_window.contains(self.next_send_id) {
            let idx: usize = self.next_send_id.wrapping_sub(self.send_window.base_id) as usize;

            if idx < self.fragments.len() {
                // Return the fragment after advancing the next send ID, also advancing the next
                // ack ID if we are caught up

                let fragment_id: u32 = self.next_send_id;

                let equal: bool = self.next_send_id == self.min_ack_id;

                self.next_send_id = self.next_send_id.wrapping_add(1);

                if equal {
                    self.min_ack_id = self.next_send_id;
                }
                assert(self@.fragments == old(self)@.fragments);
                let fragment = &self.fragments[idx];
                assert(fragment@ == old(self)@.fragments[idx as int]);
                return Some((fragment_id, fragment));
            }
        }
        return None;
    }

    /// Takes in an acknowledgement of all IDs before `new_base_id`. Two acknowledgements in a row
    /// of nothing new restart sending at the first fragment which is not acknowledged.
    pub fn acknowledge(&mut self, new_base_id: u32) -> (result: bool)
        requires
            old(self)@.wf(),
        ensures
            final(self)@.wf(),
            result == old(self)@.ack_is_valid(new_base_id),
            final(self)@ == old(self)@.after_ack(new_base_id),
    {
        if new_base_id == self.send_window.base_id {
            // Nothing new was acknowledged, this is a duplicate

            self.duplicate_ack_count = self.duplicate_ack_count + 1;

            if self.duplicate_ack_count == 2 {
                self.duplicate_ack_count = 0;

                self.next_send_id = self.send_window.base_id;
            }
            return true;
        } else {
            let new_base_delta: u32 = new_base_id.wrapping_sub(self.send_window.base_id);
            let max_ack_delta: u32 = self.min_ack_id.wrapping_sub(self.send_window.base_id);

            if new_base_delta <= max_ack_delta {
                // New fragments have been acknowledged, remove those fragments from the queue and
                // advance the window
                let kept = self.fragments.split_off(new_base_delta as usize);
                self.fragments = kept;
                self.send_window.base_id = new_base_id;

                self.duplicate_ack_count = 0;

                assert(self@.fragments =~= old(self)@.fragments.skip(new_base_delta as int));
                return true;
            } else {
                // The ack would acknowledge fragments which do not exist or are beyond the send
                // window
                return false;
            }
        }
    }

    /// Restarts sending at the first fragment which is not acknowledged.
    pub fn resend_all(&mut self)
        requires
            old(self)@.wf(),
        ensures
            final(self)@.wf(),
            final(self)@ == (TxState { next_send_id: old(self)@.base_id, ..old(self)@ }),
    {
        self.next_send_id = self.send_window.base_id;
    }
}

/// A packet of which some fragments have come in.
pub struct PacketBuild {
    buffer: Vec<u8>,
}

/// Puts fragments which come in order back together.
pub struct RxBuffer {
    fragment_size: usize,
    next_fragment_id: u32,
    current_build: Option<PacketBuild>,
}

/// What an [`RxBuffer`] holds.
#[verifier::ext_equal]
pub struct RxState {
    pub fragment_size: nat,
    /// The only ID which is accepted next.
    pub next_id: u32,
    /// The bytes received so far of a packet which is not complete.
    pub build: Option<Seq<u8>>,
}

impl RxState {
    pub open spec fn wf(self) -> bool {
        self.fragment_size > 0
    }

    /// Whether a fragment is the next in order and has a proper size.
    pub open spec fn accepts(self, id: u32, last: bool, data: Seq<u8>) -> bool {
        id == self.next_id && fits(last, data.len(), self.fragment_size)
    }

    /// The packet built so far, with `data` at its end.
    pub open spec fn extended(self, data: Seq<u8>) -> Seq<u8> {
        match self.build {
            Some(bytes) => bytes + data,
            None => data,
        }
    }

    /// The state once a fragment has come in.
    pub open spec fn after(self, id: u32, last: bool, data: Seq<u8>) -> RxState {
        if self.accepts(id, last, data) {
            RxState {
                fragment_size: self.fragment_size,
                next_id: id.wrapping_add(1),
                build: if last {
                    None
                } else {
                    Some(self.extended(data))
                },
            }
        } else {
            self
        }
    }

    /// The packet which a fragment completes, if it does.
    pub open spec fn delivery(self, id: u32, last: bool, data: Seq<u8>) -> Option<Seq<u8>> {
        if self.accepts(id, last, data) && last {
            Some(self.extended(data))
        } else {
            None
        }
    }

    /// The state once the first `n` of `fragments` have come in, under the IDs from `id` upward.
    pub open spec fn after_run(self, id: u32, fragments: Seq<Fragment>, n: nat) -> RxState
        decreases n,
    {
        if n == 0 {
            self
        } else {
            let i = n - 1;
            self.after_run(id, fragments, i as nat).after(
                advance(id, i),
                fragments[i].last,
                fragments[i].bytes(),
            )
        }
    }
}

impl View for RxBuffer {
    type V = RxState;

    closed spec fn view(&self) -> RxState {
        RxState {
            fragment_size: self.fragment_size as nat,
            next_id: self.next_fragment_id,
            build: match self.current_build {
                Some(build) => Some(build.buffer@),
                None => None,
            },
        }
    }
}

impl RxBuffer {
    pub fn new(base_id: u32, fragment_size: usize) -> (buffer: Self)
        requires
            fragment_size > 0,
        ensures
            buffer@ == (RxState {
                fragment_size: fragment_size as nat,
                next_id: base_id,
                build: None,
            }),
            buffer@.wf(),
    {
        Self { fragment_size, next_fragment_id: base_id, current_build: None }
    }

    /// Takes in a fragment, and hands out the packet which it completes.
    pub fn receive(&mut self, fragment_id: u32, fragment: &FragmentRef<'_>) -> (result: Option<
        Box<[u8]>,
    >)
        requires
            old(self)@.wf(),
        ensures
            final(self)@.wf(),
            final(self)@ == old(self)@.after(fragment_id, fragment.last, fragment.data@),
            packet_view(result) == old(self)@.delivery(
                fragment_id,
                fragment.last,
                fragment.data@,
            ),
    {
        if fragment_id == self.next_fragment_id && fragment_is_valid(fragment, self.fragment_size) {
            let mut current_build = match self.current_build.take() {
                Some(build) => build,
                None => PacketBuild { buffer: Vec::new() },
            };

            extend(&mut current_build.buffer, fragment.data);
            assert(current_build.buffer@ =~= old(self)@.extended(fragment.data@));

            self.next_fragment_id = self.next_fragment_id.wrapping_add(1);

            if fragment.last {
                // Complete, return current buffer
                return Some(into_boxed(current_build.buffer));
            }
            self.current_build = Some(current_build);
        }
        return None;
    }

    pub fn next_expected_id(&self) -> (id: u32)
        ensures
            id == self@.next_id,
    {
        self.next_fragment_id
    }
}

/// All fragments of a packet but the last, received in order, build up the packet and complete
/// nothing.
proof fn lemma_partial_run(state: RxState, packet: Seq<u8>, n: nat)
    requires
        state.wf(),
        state.build is None,
        n < fragment_count(packet.len(), state.fragment_size),
    ensures
        ({
            let run = state.after_run(
                state.next_id,
                fragments_of(packet, state.fragment_size),
                n,
            );
            &&& run.fragment_size == state.fragment_size
            &&& run.next_id == advance(state.next_id, n as int)
            &&& run.extended(Seq::empty()) == packet.take((n * state.fragment_size) as int)
            &&& n * state.fragment_size <= packet.len()
        }),
    decreases n,
{
    let size = state.fragment_size;
    let fragments = fragments_of(packet, size);
    super::lemma_fragment_bounds(packet.len(), size, n as int);
    if n == 0 {
        assert(0 * size == 0) by (nonlinear_arith);
        assert(packet.take(0) =~= Seq::empty());
    } else {
        let i = (n - 1) as nat;
        lemma_partial_run(state, packet, i);
        super::lemma_fragment_wf(packet, size, i as int);
        super::lemma_fragment_bounds(packet.len(), size, i as int);
        let before = state.after_run(state.next_id, fragments, i);
        let bytes = fragments[i as int].bytes();
        assert((i + 1) * size == i * size + size) by (nonlinear_arith);
        assert(before.accepts(advance(state.next_id, i as int), false, bytes));
        assert(before.extended(bytes) =~= before.extended(Seq::empty()) + bytes);
        assert(before.extended(bytes) =~= packet.take((n * size) as int));
        let run = state.after_run(state.next_id, fragments, n);
        assert(run.extended(Seq::empty()) =~= before.extended(bytes));
    }
}

/// A buffer which is fed all fragments of a packet in order, starting at the ID that it expects
/// and with no packet begun, hands out nothing until the last fragment comes in, and then exactly
/// the packet. It is then ready for the next packet.
pub proof fn law_reassembly(state: RxState, packet: Seq<u8>, i: int)
    requires
        state.wf(),
        state.build is None,
        0 <= i < fragment_count(packet.len(), state.fragment_size),
    ensures
        ({
            let fragments = fragments_of(packet, state.fragment_size);
            let count = fragments.len();
            let delivered = state.after_run(state.next_id, fragments, i as nat).delivery(
                advance(state.next_id, i),
                fragments[i].last,
                fragments[i].bytes(),
            );
            &&& i < count - 1 ==> delivered is None
            &&& i == count - 1 ==> delivered == Some(packet)
            &&& state.after_run(state.next_id, fragments, count) == (RxState {
                next_id: advance(state.next_id, count as int),
                ..state
            })
        }),
{
    let size = state.fragment_size;
    let fragments = fragments_of(packet, size);
    let count = fragments.len();
    let last = (count - 1) as nat;
    lemma_partial_run(state, packet, last);
    super::lemma_fragment_wf(packet, size, last as int);
    super::lemma_fragment_bounds(packet.len(), size, last as int);
    let before = state.after_run(state.next_id, fragments, last);
    let bytes = fragments[last as int].bytes();
    assert(before.extended(bytes) =~= before.extended(Seq::empty()) + bytes);
    assert(before.extended(bytes) =~= packet);
    assert(before.accepts(advance(state.next_id, last as int), true, bytes));
    lemma_partial_run(state, packet, i as nat);
}

/// Two acknowledgements in a row of nothing new, after one which did acknowledge something,
/// restart sending at the first fragment which is not acknowledged, and change nothing else.
pub proof fn law_duplicate_acks_resend(state: TxState)
    requires
        state.wf(),
        state.duplicate_acks == 0,
    ensures
        state.after_ack(state.base_id).after_ack(state.base_id) == (TxState {
            next_send_id: state.base_id,
            ..state
        }),
{
}

/// Once everything sent so far has been acknowledged, every further acknowledgement of something
/// new is refused.
pub proof fn law_ack_only_sent(state: TxState, id: u32)
    requires
        state.wf(),
        id != state.min_ack_id,
    ensures
        !state.after_ack(state.min_ack_id).ack_is_valid(id),
{
}

} // verus!
