//! The queue and the buffer of packets which are sent at most once.

use std::collections::VecDeque;

use vstd::prelude::*;

use super::{
    extend, fits, fragment_count, fragment_is_valid, fragment_views, fragments_of, into_boxed,
    packet_view, split, Fragment, FragmentRc, FragmentRef,
};
use crate::id::advance;

verus! {

struct TxEntry {
    fragment: FragmentRc,
    expire_time_ms: u64,
}

/// Fragments waiting to be sent.
pub struct TxBuffer {
    fragments: VecDeque<TxEntry>,
    next_fragment_id: u32,
    fragment_size: usize,
}

/// A fragment in the queue, and the time from which on it is no longer worth sending.
pub struct Queued {
    pub fragment: Fragment,
    pub expire_time_ms: u64,
}

/// What a [`TxBuffer`] holds.
pub struct TxState {
    pub queue: Seq<Queued>,
    /// The ID under which the next fragment is sent.
    pub next_id: u32,
    pub fragment_size: nat,
}

/// Fragments which share an expiration time.
pub open spec fn queued(fragments: Seq<Fragment>, expire_time_ms: u64) -> Seq<Queued> {
    fragments.map_values(|fragment: Fragment| Queued { fragment, expire_time_ms })
}

/// What is left of a queue without the expired fragments at its front.
pub open spec fn unexpired(queue: Seq<Queued>, now_ms: u64) -> Seq<Queued>
    decreases queue.len(),
{
    if queue.len() > 0 && queue[0].expire_time_ms <= now_ms {
        unexpired(queue.skip(1), now_ms)
    } else {
        queue
    }
}

impl TxState {
    pub open spec fn wf(self) -> bool {
        &&& self.fragment_size > 0
        &&& forall|i: int|
            0 <= i < self.queue.len() ==> (#[trigger] self.queue[i]).fragment.wf()
                && self.queue[i].fragment.bytes().len() <= self.fragment_size
    }

    /// The state once the first fragment has been sent.
    pub open spec fn after_send(self) -> TxState {
        TxState { queue: self.queue.skip(1), next_id: self.next_id.wrapping_add(1), ..self }
    }
}

spec fn entry_views(entries: Seq<TxEntry>) -> Seq<Queued> {
    entries.map_values(
        |entry: TxEntry| Queued { fragment: entry.fragment@, expire_time_ms: entry.expire_time_ms },
    )
}

impl View for TxBuffer {
    type V = TxState;

    closed spec fn view(&self) -> TxState {
        TxState {
            queue: entry_views(self.fragments@),
            next_id: self.next_fragment_id,
            fragment_size: self.fragment_size as nat,
        }
    }
}

impl TxBuffer {
    pub fn new(base_id: u32, fragment_size: usize) -> (buffer: Self)
        requires
            fragment_size > 0,
        ensures
            buffer@ == (TxState {
                queue: Seq::empty(),
                next_id: base_id,
                fragment_size: fragment_size as nat,
            }),
            buffer@.wf(),
    {
        let buffer = Self {
            fragments: VecDeque::new(),
            next_fragment_id: base_id,
            fragment_size,
        };
        assert(buffer@.queue =~= Seq::empty());
        buffer
    }

    /// Enqueues all fragments of a packet.
    pub fn push(&mut self, packet: Box<[u8]>, expire_time_ms: u64)
        requires
            old(self)@.wf(),
        ensures
            final(self)@ == (TxState {
                queue: old(self)@.queue + queued(
                    fragments_of(packet@, old(self)@.fragment_size),
                    expire_time_ms,
                ),
                ..old(self)@
            }),
            final(self)@.wf(),
    {
        let ghost bytes = packet@;
        let ghost size = self.fragment_size as nat;
        let ghost before = self@.queue;
        let ghost fragments = fragments_of(bytes, size);

        let mut queue = split(packet, self.fragment_size);
        let ghost mut sent: int = 0;

        while queue.len() > 0
            invariant
                0 <= sent <= fragments.len(),
                fragment_views(queue@) == fragments.skip(sent),
                self.fragment_size == size,
                self.next_fragment_id == old(self).next_fragment_id,
                self@.queue == before + queued(fragments.take(sent), expire_time_ms),
            decreases queue.len(),
        {
            let ghost views = fragment_views(queue@);
            assert(views.len() == fragments.len() - sent);
            match queue.pop_front() {
                Some(fragment) => {
                    assert(fragment@ == views[0]);
                    let ghost shorter = self@.queue;
                    self.fragments.push_back(TxEntry { fragment, expire_time_ms });
                    proof {
                        assert(self@.queue =~= shorter.push(
                            Queued { fragment: fragment@, expire_time_ms },
                        ));
                        assert(fragment_views(queue@) =~= views.skip(1));
                        assert(views.skip(1) =~= fragments.skip(sent + 1));
                        assert(fragment@ == fragments[sent]);
                        assert(self@.queue =~= before + queued(
                            fragments.take(sent + 1),
                            expire_time_ms,
                        ));
                        sent = sent + 1;
                    }
                },
                None => {},
            }
        }

        proof {
            assert(fragment_views(queue@).len() == 0);
            assert(fragments.take(sent) =~= fragments);
            assert forall|i: int| 0 <= i < self@.queue.len() implies (
            #[trigger] self@.queue[i]).fragment.wf() && self@.queue[i].fragment.bytes().len()
                <= self@.fragment_size by {
                if i < before.len() {
                    assert(self@.queue[i] == before[i]);
                } else {
                    super::lemma_fragment_wf(bytes, size, i - before.len());
                }
            }
        }
    }

    /// Pops all fragments from the front of the queue which have expired.
    pub fn pop_expired(&mut self, now_ms: u64)
        requires
            old(self)@.wf(),
        ensures
            final(self)@ == (TxState {
                queue: unexpired(old(self)@.queue, now_ms),
                ..old(self)@
            }),
            final(self)@.wf(),
    {
        while self.fragments.len() > 0
            invariant
                self@.wf(),
                self.fragment_size == old(self).fragment_size,
                self.next_fragment_id == old(self).next_fragment_id,
                unexpired(self@.queue, now_ms) == unexpired(old(self)@.queue, now_ms),
            ensures
                self@.queue == unexpired(self@.queue, now_ms),
            decreases self.fragments.len(),
        {
            let ghost before = self@.queue;
            let ghost entries = self.fragments@;
            assert(before[0].expire_time_ms == entries[0].expire_time_ms);
            if self.fragments[0].expire_time_ms <= now_ms {
                let _ = self.fragments.pop_front();
                proof {
                    assert(self@.queue =~= before.skip(1));
                }
            } else {
                break;
            }
        }
    }

    /// The fragment which [`TxBuffer::pop_sendable`] is going to return.
    pub fn peek_sendable(&self) -> (result: Option<(u32, &FragmentRc)>)
        requires
            self@.wf(),
        ensures
            match result {
                Some((id, fragment)) => {
                    &&& self@.queue.len() > 0
                    &&& id == self@.next_id
                    &&& fragment@ == self@.queue[0].fragment
                    &&& fragment@.wf()
                },
                None => self@.queue.len() == 0,
            },
    {
        if self.fragments.len() > 0 {
            let fragment_id: u32 = self.next_fragment_id;
            assert(self@.queue[0].fragment == self.fragments@[0].fragment@);

            return Some((fragment_id, &self.fragments[0].fragment));
        }
        return None;
    }

    /// Takes the next fragment to send off the queue.
    pub fn pop_sendable(&mut self) -> (result: Option<(u32, FragmentRc)>)
        requires
            old(self)@.wf(),
        ensures
            final(self)@.wf(),
            match result {
                Some((id, fragment)) => {
                    &&& old(self)@.queue.len() > 0
                    &&& id == old(self)@.next_id
                    &&& fragment@ == old(self)@.queue[0].fragment
                    &&& fragment@.wf()
                    &&& final(self)@ == old(self)@.after_send()
                },
                None => old(self)@.queue.len() == 0 && final(self)@ == old(self)@,
            },
    {
        if let Some(entry) = self.fragments.pop_front() {
            let fragment_id: u32 = self.next_fragment_id;
            self.next_fragment_id = self.next_fragment_id.wrapping_add(1);

            assert(self@.queue =~= old(self)@.queue.skip(1));
            assert(entry.fragment@ == old(self)@.queue[0].fragment);
            return Some((fragment_id, entry.fragment));
        }
        return None;
    }
}

/// A packet of which some fragments have come in.
pub struct PacketBuild {
    buffer: Vec<u8>,
}

/// Puts fragments back together. Fragments may be missing, and so may whole packets.
pub struct RxBuffer {
    fragment_size: usize,
    base_id: u32,
    current_build: Option<PacketBuild>,
}

/// What an [`RxBuffer`] holds.
#[verifier::ext_equal]
pub struct RxState {
    pub fragment_size: nat,
    /// The ID which continues the packet begun.
    pub next_id: u32,
    /// The bytes received so far of a packet which is not complete.
    pub build: Option<Seq<u8>>,
}

impl RxState {
    pub open spec fn wf(self) -> bool {
        self.fragment_size > 0
    }

    /// The packet built so far once a fragment has come in, if the fragment can be used at all: it
    /// either begins a packet, or continues the one begun without a gap.
    pub open spec fn built(self, id: u32, first: bool, last: bool, data: Seq<u8>) -> Option<
        Seq<u8>,
    > {
        if !fits(last, data.len(), self.fragment_size) {
            None
        } else if first {
            Some(data)
        } else if id == self.next_id && self.build is Some {
            Some(self.build->0 + data)
        } else {
            None
        }
    }

    /// The state once a fragment has come in.
    pub open spec fn after(self, id: u32, first: bool, last: bool, data: Seq<u8>) -> RxState {
        match self.built(id, first, last, data) {
            Some(bytes) => RxState {
                fragment_size: self.fragment_size,
                next_id: id.wrapping_add(1),
                build: if last {
                    None
                } else {
                    Some(bytes)
                },
            },
            None => self,
        }
    }

    /// The packet which a fragment completes, if it does.
    pub open spec fn delivery(self, id: u32, first: bool, last: bool, data: Seq<u8>) -> Option<
        Seq<u8>,
    > {
        if last {
            self.built(id, first, last, data)
        } else {
            None
        }
    }

    /// The state once the first `n` of `fragments` have come in, under the IDs from `id` upward.
    pub open spec fn after_run(self, id: u32, fragments: Seq<Fragment>, n: nat) -> RxState
        decreases n,
    {
        if n == 0 {
            self
        } else {
            let i = n - 1;
            self.after_run(id, fragments, i as nat).after(
                advance(id, i),
                fragments[i].first,
                fragments[i].last,
                fragments[i].bytes(),
            )
        }
    }
}

impl View for RxBuffer {
    type V = RxState;

    closed spec fn view(&self) -> RxState {
        RxState {
            fragment_size: self.fragment_size as nat,
            next_id: self.base_id,
            build: match self.current_build {
                Some(build) => Some(build.buffer@),
                None => None,
            },
        }
    }
}

impl RxBuffer {
    pub fn new(base_id: u32, fragment_size: usize) -> (buffer: Self)
        requires
            fragment_size > 0,
        ensures
            buffer@ == (RxState {
                fragment_size: fragment_size as nat,
                next_id: base_id,
                build: None,
            }),
            buffer@.wf(),
    {
        Self { fragment_size, base_id, current_build: None }
    }

    /// Takes in a fragment, and hands out the packet which it completes.
    pub fn receive(&mut self, fragment_id: u32, fragment: &FragmentRef<'_>) -> (result: Option<
        Box<[u8]>,
    >)
        requires
            old(self)@.wf(),
        ensures
            final(self)@.wf(),
            final(self)@ == old(self)@.after(
                fragment_id,
                fragment.first,
                fragment.last,
                fragment.data@,
            ),
            packet_view(result) == old(self)@.delivery(
                fragment_id,
                fragment.first,
                fragment.last,
                fragment.data@,
            ),
    {
        if fragment_is_valid(fragment, self.fragment_size) {
            if fragment.first {
                // Start a new packet
                let mut buffer: Vec<u8> = Vec::new();
                extend(&mut buffer, fragment.data);
                assert(buffer@ =~= fragment.data@);

                // Expect subsequent fragment
                self.base_id = fragment_id.wrapping_add(1);

                if fragment.last {
                    // This is a one-fragment packet, invalidate previous assembly
                    self.current_build = None;

                    return Some(into_boxed(buffer));
                } else {
                    // This is a multi-fragment packet, start new assembly
                    self.current_build = Some(PacketBuild { buffer });

                    return None;
                }
            } else if fragment_id == self.base_id {
                // Extend existing packet
                if let Some(mut current_build) = self.current_build.take() {
                    extend(&mut current_build.buffer, fragment.data);

                    // Expect subsequent fragment
                    self.base_id = fragment_id.wrapping_add(1);

                    // Return if finished
                    if fragment.last {
                        return Some(into_boxed(current_build.buffer));
                    }
                    self.current_build = Some(current_build);
                } else {
                    // No existing build!? Reject
                }
            }
        }
        return None;
    }

    /// Gives up the packet begun.
    pub fn reset(&mut self)
        ensures
            final(self)@ == (RxState { build: None, ..old(self)@ }),
    {
        self.current_build = None;
    }

    pub fn next_expected_id(&self) -> (id: u32)
        ensures
            id == self@.next_id,
    {
        self.base_id
    }
}

/// A queue never holds an expired fragment at its front once the expired ones have been dropped,
/// and what is left is an unbroken tail of the queue.
pub proof fn law_unexpired(queue: Seq<Queued>, now_ms: u64)
    ensures
        unexpired(queue, now_ms).len() <= queue.len(),
        unexpired(queue, now_ms) == queue.skip(queue.len() - unexpired(queue, now_ms).len()),
        unexpired(queue, now_ms).len() > 0 ==> unexpired(queue, now_ms)[0].expire_time_ms > now_ms,
        forall|i: int|
            #![trigger queue[i]]
            0 <= i < queue.len() - unexpired(queue, now_ms).len() ==> queue[i].expire_time_ms
                <= now_ms,
    decreases queue.len(),
{
    if queue.len() > 0 && queue[0].expire_time_ms <= now_ms {
        let rest = queue.skip(1);
        law_unexpired(rest, now_ms);
        let kept = unexpired(queue, now_ms);
        assert(kept =~= queue.skip(queue.len() - kept.len()));
        assert forall|i: int|
            #![trigger queue[i]]
            0 <= i < queue.len() - kept.len() implies queue[i].expire_time_ms <= now_ms by {
            if i > 0 {
                assert(rest[i - 1] == queue[i]);
            }
        }
    } else {
        assert(queue.skip(0) =~= queue);
    }
}

proof fn lemma_partial_run(state: RxState, id: u32, packet: Seq<u8>, n: nat)
    requires
        state.wf(),
        0 < n < fragment_count(packet.len(), state.fragment_size),
    ensures
        ({
            let run = state.after_run(id, fragments_of(packet, state.fragment_size), n);
            &&& run.fragment_size == state.fragment_size
            &&& run.next_id == advance(id, n as int)
            &&& run.build == Some(packet.take((n * state.fragment_size) as int))
            &&& n * state.fragment_size <= packet.len()
        }),
    decreases n,
{
    let size = state.fragment_size;
    let fragments = fragments_of(packet, size);
    super::lemma_fragment_bounds(packet.len(), size, n as int);
    let i = (n - 1) as nat;
    super::lemma_fragment_wf(packet, size, i as int);
    super::lemma_fragment_bounds(packet.len(), size, i as int);
    assert((i + 1) * size == i * size + size) by (nonlinear_arith);
    assert(0 * size == 0) by (nonlinear_arith);
    let bytes = fragments[i as int].bytes();
    if i == 0 {
        assert(state.after_run(id, fragments, 0) == state);
        assert(bytes =~= packet.take((n * size) as int));
    } else {
        lemma_partial_run(state, id, packet, i);
        let before = state.after_run(id, fragments, i);
        assert(before.build->0 + bytes =~= packet.take((n * size) as int));
    }
}

/// A buffer which is fed all fragments of a packet without a gap, whatever came in before, hands
/// out nothing until the last fragment comes in, and then exactly the packet.
pub proof fn law_reassembly(state: RxState, id: u32, packet: Seq<u8>, i: int)
    requires
        state.wf(),
        0 <= i < fragment_count(packet.len(), state.fragment_size),
    ensures
        ({
            let fragments = fragments_of(packet, state.fragment_size);
            let count = fragments.len();
            let delivered = state.after_run(id, fragments, i as nat).delivery(
                advance(id, i),
                fragments[i].first,
                fragments[i].last,
                fragments[i].bytes(),
            );
            &&& i < count - 1 ==> delivered is None
            &&& i == count - 1 ==> delivered == Some(packet)
            &&& state.after_run(id, fragments, count) == (RxState {
                fragment_size: state.fragment_size,
                next_id: advance(id, count as int),
                build: None,
            })
        }),
{
    let size = state.fragment_size;
    let fragments = fragments_of(packet, size);
    let last = (fragments.len() - 1) as nat;
    super::lemma_fragment_wf(packet, size, last as int);
    super::lemma_fragment_bounds(packet.len(), size, last as int);
    assert(0 * size == 0) by (nonlinear_arith);
    let before = state.after_run(id, fragments, last);
    let bytes = fragments[last as int].bytes();
    if last == 0 {
        assert(before == state);
        assert(bytes =~= packet);
    } else {
        lemma_partial_run(state, id, packet, last);
        assert(before.build->0 + bytes =~= packet);
    }
}

/// A fragment which does not begin a packet is of no use once its predecessor went missing: the
/// buffer hands out nothing and does not change.
pub proof fn law_gap_rejected(state: RxState, id: u32, last: bool, data: Seq<u8>)
    requires
        state.wf(),
        id != state.next_id || state.build is None,
    ensures
        state.after(id, false, last, data) == state,
        state.delivery(id, false, last, data) is None,
{
}

} // verus!
