//! The receiving side of the segment window.

use vstd::prelude::*;

use crate::bits::{bit, lemma_push_bit, lemma_push_zeros, odd, parity, push_bit, push_zeros};
use crate::buffer::Window;
use crate::id::{advance, delta};

verus! {

struct Slot {
    id: u32,
    nonce: bool,
    data: Vec<u8>,
    len: usize,
}

/// Puts segments back in order. At most two segments are held back while earlier ones are missing.
pub struct SegmentRx {
    window: Window,
    slot_0: Slot,
    slot_1: Slot,
    len: u8,
    rx_history: u32,
    nonce_history: u32,
}

/// A segment as it was received.
#[verifier::ext_equal]
pub struct Segment {
    pub id: u32,
    pub nonce: bool,
    pub data: Seq<u8>,
}

/// What a [`SegmentRx`] holds.
#[verifier::ext_equal]
pub struct RxState {
    /// The ID which is expected next.
    pub base_id: u32,
    pub window_size: u32,
    pub segment_size_max: nat,
    /// The segments held back, in order.
    pub pending: Seq<Segment>,
    /// Bit `i` tells whether the segment `i + 1` places before `base_id` was received.
    pub rx_history: u32,
    /// Bit `i` is the nonce of the segment `i + 1` places before `base_id`, if it was received.
    pub nonce_history: u32,
}

/// `queue` with a segment put in its place, by its distance from `base_id`.
pub open spec fn inserted(queue: Seq<Segment>, segment: Segment, base_id: u32) -> Seq<Segment>
    decreases queue.len(),
{
    if queue.len() > 0 && delta(queue.last().id, base_id) > delta(segment.id, base_id) {
        inserted(queue.drop_last(), segment, base_id).push(queue.last())
    } else {
        queue.push(segment)
    }
}

/// The bytes of some segments.
pub open spec fn segment_bytes(segments: Seq<Segment>) -> Seq<Seq<u8>> {
    segments.map_values(|segment: Segment| segment.data)
}

impl RxState {
    /// The segments held back are ahead of the next expected one, in order, and within the window.
    pub open spec fn wf(self) -> bool {
        &&& self.pending.len() <= 2
        &&& self.is_queue(self.pending)
        &&& forall|i: int|
            0 <= i < self.pending.len() ==> delta((#[trigger] self.pending[i]).id, self.base_id) > 0
    }

    /// Whether the segments of `queue` lie within the window, in order, without one occurring
    /// twice.
    pub open spec fn is_queue(self, queue: Seq<Segment>) -> bool {
        &&& forall|i: int|
            0 <= i < queue.len() ==> delta((#[trigger] queue[i]).id, self.base_id)
                < self.window_size
        &&& forall|i: int, j: int|
            0 <= i < j < queue.len() ==> delta((#[trigger] queue[i]).id, self.base_id) < delta(
                (#[trigger] queue[j]).id,
                self.base_id,
            )
    }

    /// Whether a segment lies in the window and is not held back already.
    pub open spec fn accepts(self, id: u32) -> bool {
        &&& delta(id, self.base_id) < self.window_size
        &&& forall|i: int| 0 <= i < self.pending.len() ==> (#[trigger] self.pending[i]).id != id
    }

    /// Whether a segment has to wait for others, at least for a moment.
    pub open spec fn is_early(self, id: u32) -> bool {
        &&& self.accepts(id)
        &&& id != self.base_id
        &&& self.pending.len() == 2 ==> delta(self.pending[0].id, self.base_id) < delta(
            id,
            self.base_id,
        )
    }

    /// The state once the IDs up to `id` are done with, of which only `id` itself was received.
    pub open spec fn past(self, id: u32, nonce: bool) -> RxState {
        let skipped = delta(id, self.base_id);
        RxState {
            base_id: id.wrapping_add(1),
            rx_history: push_bit(push_zeros(self.rx_history, skipped), true),
            nonce_history: push_bit(push_zeros(self.nonce_history, skipped), nonce),
            ..self
        }
    }

    /// The state once the first segment held back has been delivered.
    pub open spec fn after_delivery(self) -> RxState {
        RxState {
            pending: self.pending.skip(1),
            ..self.past(self.pending[0].id, self.pending[0].nonce)
        }
    }

    /// The state once `n` segments held back have been delivered.
    pub open spec fn after_deliveries(self, n: nat) -> RxState
        decreases n,
    {
        if n == 0 {
            self
        } else {
            self.after_delivery().after_deliveries((n - 1) as nat)
        }
    }

    /// How many of the segments held back follow on the expected one without a gap.
    pub open spec fn ready(self) -> nat
        decreases self.pending.len(),
    {
        if self.pending.len() > 0 && self.pending[0].id == self.base_id {
            1 + self.after_delivery().ready()
        } else {
            0
        }
    }

    /// The state which holds back one more segment.
    pub open spec fn with(self, segment: Segment) -> RxState {
        RxState { pending: inserted(self.pending, segment, self.base_id), ..self }
    }

    /// How many segments can be delivered once `segment` has come in. When three segments are held
    /// back, those missing before the first are given up.
    pub open spec fn deliverable(self, segment: Segment) -> nat {
        let state = self.with(segment);
        if !self.accepts(segment.id) {
            0
        } else if self.pending.len() == 2 {
            1 + state.after_delivery().ready()
        } else {
            state.ready()
        }
    }

    /// The segments which are delivered when `segment` comes in.
    pub open spec fn delivery(self, segment: Segment) -> Seq<Segment> {
        self.with(segment).pending.take(self.deliverable(segment) as int)
    }

    /// The state once `segment` has come in.
    pub open spec fn after(self, segment: Segment) -> RxState {
        if self.accepts(segment.id) {
            self.with(segment).after_deliveries(self.deliverable(segment))
        } else {
            self
        }
    }

    /// Whether the sender can have got as far as `next_segment_id`.
    pub open spec fn sync_is_valid(self, next_segment_id: u32) -> bool {
        let distance = delta(next_segment_id, self.base_id);
        &&& distance <= self.window_size
        &&& distance > if self.pending.len() > 0 {
            delta(self.pending.last().id, self.base_id)
        } else {
            0
        }
    }

    /// The state once all segments before `next_segment_id` are done with.
    pub open spec fn after_sync(self, next_segment_id: u32) -> RxState {
        if self.sync_is_valid(next_segment_id) {
            let state = self.after_deliveries(self.pending.len());
            let skipped = delta(next_segment_id, state.base_id);
            RxState {
                base_id: next_segment_id,
                rx_history: push_zeros(state.rx_history, skipped),
                nonce_history: push_zeros(state.nonce_history, skipped),
                ..state
            }
        } else {
            self
        }
    }

    /// The segments which are delivered by a sync to `next_segment_id`.
    pub open spec fn sync_delivery(self, next_segment_id: u32) -> Seq<Segment> {
        if self.sync_is_valid(next_segment_id) {
            self.pending
        } else {
            Seq::empty()
        }
    }
}

/// The bytes of some delivered segments.
pub open spec fn delivered_views(delivered: Seq<Vec<u8>>) -> Seq<Seq<u8>> {
    delivered.map_values(|bytes: Vec<u8>| bytes@)
}

impl View for Slot {
    type V = Segment;

    closed spec fn view(&self) -> Segment {
        Segment { id: self.id, nonce: self.nonce, data: self.data@.take(self.len as int) }
    }
}

impl View for SegmentRx {
    type V = RxState;

    closed spec fn view(&self) -> RxState {
        RxState {
            base_id: self.window.base_id,
            window_size: self.window.size,
            segment_size_max: self.slot_0.data@.len(),
            pending: if self.len == 0 {
                Seq::empty()
            } else if self.len == 1 {
                seq![self.slot_0@]
            } else {
                seq![self.slot_0@, self.slot_1@]
            },
            rx_history: self.rx_history,
            nonce_history: self.nonce_history,
        }
    }
}

/// A slot for a segment of up to `size` bytes.
fn empty_slot(size: usize) -> (slot: Slot)
    ensures
        slot.data@.len() == size,
        slot.len == 0,
{
    Slot { id: 0, nonce: false, data: vec![0; size], len: 0 }
}

/// Puts `bytes` at the front of a buffer.
fn copy_to_front(buffer: &mut Vec<u8>, bytes: &[u8])
    requires
        bytes@.len() <= old(buffer)@.len(),
    ensures
        final(buffer)@ == bytes@ + old(buffer)@.skip(bytes@.len() as int),
{
    let mut i: usize = 0;
    while i < bytes.len()
        invariant
            i <= bytes@.len() <= old(buffer)@.len(),
            buffer@ == bytes@.take(i as int) + old(buffer)@.skip(i as int),
        decreases bytes@.len() - i,
    {
        buffer[i] = bytes[i];
        i = i + 1;
        assert(buffer@ =~= bytes@.take(i as int) + old(buffer)@.skip(i as int));
    }
    assert(bytes@.take(i as int) =~= bytes@);
}

impl SegmentRx {
    /// What holds of the slots.
    pub closed spec fn wf_slots(&self) -> bool {
        &&& self.len <= 2
        &&& self.slot_0.data@.len() == self.slot_1.data@.len()
        &&& self.slot_0.len <= self.slot_0.data@.len()
        &&& self.slot_1.len <= self.slot_1.data@.len()
    }

    pub open spec fn wf(&self) -> bool {
        self.wf_slots() && self@.wf()
    }

    pub fn new(window_base_id: u32, window_size: u32, segment_size_max: usize) -> (rx: Self)
        ensures
            rx.wf(),
            rx@ == (RxState {
                base_id: window_base_id,
                window_size,
                segment_size_max: segment_size_max as nat,
                pending: Seq::empty(),
                rx_history: 0,
                nonce_history: 0,
            }),
    {
        Self {
            window: Window::new(window_base_id, window_size),
            slot_0: empty_slot(segment_size_max),
            slot_1: empty_slot(segment_size_max),
            len: 0,
            rx_history: 0,
            nonce_history: 0,
        }
    }

    fn save_segment(slot: &mut Slot, id: u32, nonce: bool, data: &[u8])
        requires
            data@.len() <= old(slot).data@.len(),
        ensures
            final(slot).data@.len() == old(slot).data@.len(),
            final(slot).len == data@.len(),
            final(slot)@ == (Segment { id, nonce, data: data@ }),
    {
        slot.id = id;
        slot.nonce = nonce;
        copy_to_front(&mut slot.data, data);
        slot.len = data.len();
        assert(slot.data@.take(slot.len as int) =~= data@);
    }

    fn swap_slots(&mut self)
        ensures
            *final(self) == (SegmentRx {
                slot_0: old(self).slot_1,
                slot_1: old(self).slot_0,
                ..*old(self)
            }),
    {
        std::mem::swap(&mut self.slot_0, &mut self.slot_1);
    }

    fn swap_slots_if_backward(&mut self)
        ensures
            *final(self) == if delta(old(self).slot_0.id, old(self).window.base_id) > delta(
                old(self).slot_1.id,
                old(self).window.base_id,
            ) {
                SegmentRx { slot_0: old(self).slot_1, slot_1: old(self).slot_0, ..*old(self) }
            } else {
                *old(self)
            },
    {
        let slot_0_delta: u32 = self.slot_0.id.wrapping_sub(self.window.base_id);
        let slot_1_delta: u32 = self.slot_1.id.wrapping_sub(self.window.base_id);

        if slot_0_delta > slot_1_delta {
            self.swap_slots();
        }
    }

    fn push_history_ack(&mut self, nonce: bool)
        ensures
            *final(self) == (SegmentRx {
                rx_history: push_bit(old(self).rx_history, true),
                nonce_history: push_bit(old(self).nonce_history, nonce),
                ..*old(self)
            }),
    {
        self.rx_history = (self.rx_history << 1) | 0b1;
        self.nonce_history = (self.nonce_history << 1) | if nonce {
            0b1u32
        } else {
            0b0u32
        };
    }

    fn push_history_skips(&mut self, count: u32)
        ensures
            *final(self) == (SegmentRx {
                rx_history: push_zeros(old(self).rx_history, count as int),
                nonce_history: push_zeros(old(self).nonce_history, count as int),
                ..*old(self)
            }),
    {
        if count < 32 {
            self.rx_history = self.rx_history << count;
            self.nonce_history = self.nonce_history << count;
        } else {
            self.rx_history = 0;
            self.nonce_history = 0;
        }
    }

    fn advance_window_past(&mut self, new_base_id: u32)
        ensures
            *final(self) == (SegmentRx {
                window: Window {
                    base_id: new_base_id.wrapping_add(1),
                    size: old(self).window.size,
                },
                ..*old(self)
            }),
    {
        self.window.base_id = new_base_id.wrapping_add(1);
    }

    /// Delivers the first segment held back, giving up those missing before it.
    fn deliver_first(&mut self, delivered: &mut Vec<Vec<u8>>)
        requires
            old(self).len > 0,
            old(self).wf_slots(),
        ensures
            final(self).wf_slots(),
            final(self)@ == old(self)@.after_delivery(),
            delivered_views(final(delivered)@) == delivered_views(old(delivered)@).push(
                old(self)@.pending[0].data,
            ),
            final(self).len == old(self).len - 1,
    {
        let slot_0_delta: u32 = self.slot_0.id.wrapping_sub(self.window.base_id);

        let bytes: &[u8] = vstd::slice::slice_subrange(self.slot_0.data.as_slice(), 0, self.slot_0.len);
        delivered.push(vstd::slice::slice_to_vec(bytes));

        self.push_history_skips(slot_0_delta);
        self.push_history_ack(self.slot_0.nonce);
        self.advance_window_past(self.slot_0.id);

        if self.len == 2 {
            self.swap_slots();
        }
        self.len = self.len - 1;

        proof {
            assert(old(self)@.pending[0].data =~= bytes@);
            assert(delivered_views(delivered@) =~= delivered_views(old(delivered)@).push(
                old(self)@.pending[0].data,
            ));
            assert(self@.pending =~= old(self)@.pending.skip(1));
        }
    }

    /// Delivers all segments held back which match the next expected ID.
    fn deliver_ready(&mut self, delivered: &mut Vec<Vec<u8>>)
        requires
            old(self).wf_slots(),
            old(self)@.is_queue(old(self)@.pending),
        ensures
            final(self).wf(),
            final(self)@ == old(self)@.after_deliveries(old(self)@.ready()),
            old(self)@.ready() <= old(self)@.pending.len(),
            delivered_views(final(delivered)@) == delivered_views(old(delivered)@) + segment_bytes(
                old(self)@.pending.take(old(self)@.ready() as int),
            ),
    {
        proof {
            lemma_ready(self@);
        }
        while self.len > 0 && self.slot_0.id == self.window.base_id
            invariant
                self.wf_slots(),
                self@.is_queue(self@.pending),
                self@.ready() <= self@.pending.len(),
                self@.after_deliveries(self@.ready()) == old(self)@.after_deliveries(
                    old(self)@.ready(),
                ),
                delivered_views(delivered@) + segment_bytes(
                    self@.pending.take(self@.ready() as int),
                ) == delivered_views(old(delivered)@) + segment_bytes(
                    old(self)@.pending.take(old(self)@.ready() as int),
                ),
            decreases self.len,
        {
            let ghost state = self@;
            let ghost views = delivered_views(delivered@);
            self.deliver_first(delivered);
            proof {
                lemma_after_delivery(state);
                lemma_ready(self@);
                assert(segment_bytes(state.pending.take(state.ready() as int)) =~= seq![
                    state.pending[0].data,
                ] + segment_bytes(self@.pending.take(self@.ready() as int)));
                assert(views + segment_bytes(state.pending.take(state.ready() as int))
                    =~= delivered_views(delivered@) + segment_bytes(
                    self@.pending.take(self@.ready() as int),
                ));
            }
        }
        proof {
            assert(segment_bytes(self@.pending.take(0)) =~= Seq::empty());
            if self@.pending.len() == 2 {
                assert(delta(self@.pending[0].id, self@.base_id) < delta(
                    self@.pending[1].id,
                    self@.base_id,
                ));
            }
        }
    }

    /// Delivers a segment which comes before all segments held back, giving up those missing before
    /// it.
    fn deliver_new(
        &mut self,
        new_id: u32,
        new_nonce: bool,
        new_data: &[u8],
        delivered: &mut Vec<Vec<u8>>,
    )
        requires
            old(self).wf_slots(),
        ensures
            final(self).wf_slots(),
            final(self)@ == old(self)@.past(new_id, new_nonce),
            delivered_views(final(delivered)@) == delivered_views(old(delivered)@).push(new_data@),
    {
        let new_delta: u32 = new_id.wrapping_sub(self.window.base_id);

        delivered.push(vstd::slice::slice_to_vec(new_data));

        self.push_history_skips(new_delta);
        self.push_history_ack(new_nonce);
        self.advance_window_past(new_id);
        assert(delivered_views(delivered@) =~= delivered_views(old(delivered)@).push(new_data@));
    }

    /// Delivers the first of two segments held back, and holds back a new one which comes after it.
    fn push_and_pop(
        &mut self,
        new_id: u32,
        new_nonce: bool,
        new_data: &[u8],
        delivered: &mut Vec<Vec<u8>>,
    )
        requires
            old(self).wf(),
            old(self)@.is_early(new_id) ==> new_data@.len() <= old(self)@.segment_size_max,
            old(self).len == 2,
            old(self)@.accepts(new_id),
            delta(old(self)@.pending[0].id, old(self)@.base_id) < delta(
                new_id,
                old(self)@.base_id,
            ),
        ensures
            final(self).wf_slots(),
            final(self)@ == old(self)@.with(
                Segment { id: new_id, nonce: new_nonce, data: new_data@ },
            ).after_delivery(),
            delivered_views(final(delivered)@) == delivered_views(old(delivered)@).push(
                old(self)@.pending[0].data,
            ),
    {
        let ghost before = self@;
        let ghost segment = Segment { id: new_id, nonce: new_nonce, data: new_data@ };
        let ghost goal = before.with(segment);
        proof {
            lemma_inserted(before, segment);
        }

        self.deliver_first(delivered);
        assert(self@.pending =~= seq![before.pending[1]]);
        assert(self@.pending[0] == self.slot_0@);

        Self::save_segment(&mut self.slot_1, new_id, new_nonce, new_data);
        self.len = 2;

        self.swap_slots_if_backward();

        proof {
            let first = before.pending[0].id;
            let base = self@.base_id;
            assert(base == first.wrapping_add(1));
            assert(delta(new_id, base) == delta(new_id, before.base_id) - delta(
                first,
                before.base_id,
            ) - 1);
            assert(delta(before.pending[0].id, before.base_id) < delta(
                before.pending[1].id,
                before.base_id,
            ));
            assert(delta(before.pending[1].id, base) == delta(before.pending[1].id, before.base_id)
                - delta(first, before.base_id) - 1);
            assert(self@.pending =~= goal.pending.skip(1));
            assert(goal.pending[0] == before.pending[0]);
        }
    }

    /// Takes in a segment. Returns whether a segment has been delivered, so that others may follow.
    fn take_in(
        &mut self,
        new_id: u32,
        new_nonce: bool,
        new_data: &[u8],
        delivered: &mut Vec<Vec<u8>>,
    ) -> (delivers: bool)
        requires
            old(self).wf(),
            old(self)@.is_early(new_id) ==> new_data@.len() <= old(self)@.segment_size_max,
        ensures
            ({
                let segment = Segment { id: new_id, nonce: new_nonce, data: new_data@ };
                let goal = old(self)@.with(segment);
                if delivers {
                    &&& old(self)@.accepts(new_id)
                    &&& old(self)@.deliverable(segment) == 1 + goal.after_delivery().ready()
                    &&& final(self).wf_slots()
                    &&& final(self)@ == goal.after_delivery()
                    &&& delivered_views(final(delivered)@) == delivered_views(
                        old(delivered)@,
                    ).push(goal.pending[0].data)
                } else {
                    &&& old(self)@.deliverable(segment) == 0
                    &&& final(self).wf()
                    &&& final(self)@ == old(self)@.after(segment)
                    &&& *final(delivered) == *old(delivered)
                }
            }),
    {
        let ghost segment = Segment { id: new_id, nonce: new_nonce, data: new_data@ };
        let ghost before = self@;
        let ghost goal = before.with(segment);
        proof {
            lemma_inserted(before, segment);
        }

        // Only consider segments in the current window
        if !self.window.contains(new_id) {
            return false;
        }
        if new_id == self.window.base_id {
            // This segment is expected next, deliver
            self.deliver_new(new_id, new_nonce, new_data, delivered);
            assert(goal.pending[0] == segment);
            assert(self@ =~= goal.after_delivery());
            return true;
        }
        if self.len == 0 {
            // Add segment to empty buffer
            Self::save_segment(&mut self.slot_0, new_id, new_nonce, new_data);

            self.len = 1;
            assert(self@ =~= goal);
            return false;
        }
        if self.len == 1 {
            // Add segment to buffer if unique
            if self.slot_0.id != new_id {
                Self::save_segment(&mut self.slot_1, new_id, new_nonce, new_data);

                self.len = 2;

                self.swap_slots_if_backward();
                assert(before.accepts(new_id));
                assert(self@ =~= goal);
            } else {
                assert(before.pending[0].id == new_id);
            }
            return false;
        }
        // Push & pop segments if unique

        if self.slot_0.id == new_id || self.slot_1.id == new_id {
            assert(before.pending[0].id == new_id || before.pending[1].id == new_id);
            return false;
        }
        let new_delta: u32 = new_id.wrapping_sub(self.window.base_id);
        let slot_0_delta: u32 = self.slot_0.id.wrapping_sub(self.window.base_id);
        assert(before.accepts(new_id));

        if new_delta < slot_0_delta {
            // The latest segment is the newest of the three
            // (This skips unreceived segments)
            self.deliver_new(new_id, new_nonce, new_data, delivered);
            assert(goal.pending[0] == segment);
            assert(self@ =~= goal.after_delivery());
        } else {
            // The first segment in the buffer is the newest of the three
            // (This skips unreceived segments)
            self.push_and_pop(new_id, new_nonce, new_data, delivered);
            assert(goal.pending[0] == before.pending[0]);
        }
        return true;
    }

    /// Takes in a segment, and appends all segments which can be delivered to `delivered`. Returns
    /// how many segments are held back.
    pub fn receive(
        &mut self,
        new_id: u32,
        new_nonce: bool,
        new_data: &[u8],
        delivered: &mut Vec<Vec<u8>>,
    ) -> (held: u8)
        requires
            old(self).wf(),
            old(self)@.is_early(new_id) ==> new_data@.len() <= old(self)@.segment_size_max,
        ensures
            final(self).wf(),
            final(self)@ == old(self)@.after(
                Segment { id: new_id, nonce: new_nonce, data: new_data@ },
            ),
            delivered_views(final(delivered)@) == delivered_views(old(delivered)@) + segment_bytes(
                old(self)@.delivery(Segment { id: new_id, nonce: new_nonce, data: new_data@ }),
            ),
            held == final(self)@.pending.len(),
    {
        let ghost segment = Segment { id: new_id, nonce: new_nonce, data: new_data@ };
        let ghost before = self@;
        let ghost goal = before.with(segment);
        let ghost first = delivered_views(delivered@);

        if self.take_in(new_id, new_nonce, new_data, delivered) {
            proof {
                lemma_with_is_queue(before, segment);
                lemma_after_delivery(goal);
            }
            let ghost mid = self@;

            // Deliver all segments in the buffer which match the next expected ID
            self.deliver_ready(delivered);

            proof {
                let n = before.deliverable(segment);
                assert(segment_bytes(goal.pending.take(n as int)) =~= seq![goal.pending[0].data]
                    + segment_bytes(mid.pending.take(mid.ready() as int)));
                assert(delivered_views(delivered@) =~= first + segment_bytes(
                    goal.pending.take(n as int),
                ));
            }
        } else {
            assert(first =~= first + segment_bytes(goal.pending.take(0)));
        }
        self.len
    }

    /// Takes in the ID of the segment which the sender is going to send next. All segments held
    /// back are appended to `delivered`, and all others before that ID are given up.
    pub fn sync(&mut self, next_segment_id: u32, delivered: &mut Vec<Vec<u8>>)
        requires
            old(self).wf(),
        ensures
            final(self).wf(),
            final(self)@ == old(self)@.after_sync(next_segment_id),
            delivered_views(final(delivered)@) == delivered_views(old(delivered)@) + segment_bytes(
                old(self)@.sync_delivery(next_segment_id),
            ),
    {
        // Only accept syncs which exceed the last outstanding segment (if any)
        let delta: u32 = next_segment_id.wrapping_sub(self.window.base_id);

        let min_delta: u32 = match self.len {
            1 => self.slot_0.id.wrapping_sub(self.window.base_id),
            2 => self.slot_1.id.wrapping_sub(self.window.base_id),
            _ => 0,
        };

        let ghost before = self@;
        let ghost first = delivered_views(delivered@);
        proof {
            reveal_with_fuel(RxState::after_deliveries, 3);
            assert(first =~= first + segment_bytes(Seq::empty()));
        }

        if delta > min_delta && delta <= self.window.size {
            // Deliver outstanding segments
            if self.len > 0 {
                self.deliver_first(delivered);

                if self.len > 0 {
                    self.deliver_first(delivered);
                }
            }
            assert(delivered_views(delivered@) =~= first + segment_bytes(before.pending));
            assert(self@.pending =~= Seq::empty());

            // Advance window to complete sync
            let remaining_delta: u32 = next_segment_id.wrapping_sub(self.window.base_id);
            self.push_history_skips(remaining_delta);
            self.window.base_id = next_segment_id;
        }
    }

    pub fn next_expected_id(&self) -> (id: u32)
        ensures
            id == self@.base_id,
    {
        self.window.base_id
    }

    /// The parity of the nonces of the segments in `rx_history`.
    fn compute_checksum(rx_history: u8, nonce_history: u8) -> (checksum: bool)
        ensures
            checksum == odd((rx_history & nonce_history) as u32),
    {
        parity((rx_history & nonce_history) as u32)
    }

    /// Which of the five segments before the next expected one were received, and the parity of
    /// their nonces.
    pub fn next_ack_info(&self) -> (info: (u8, bool))
        ensures
            info.0 == self@.rx_history & 0x1F,
            info.1 == odd(self@.rx_history & self@.nonce_history & 0x1F),
    {
        let rx_history: u8 = (self.rx_history & 0x1F) as u8;
        let nonce_history: u8 = self.nonce_history as u8;

        proof {
            let r = self.rx_history;
            let n = self.nonce_history;
            assert((r & 0x1F) as u8 as u32 == r & 0x1F) by (bit_vector);
            assert((((r & 0x1F) as u8) & (n as u8)) as u32 == r & n & 0x1F) by (bit_vector);
        }
        (rx_history, Self::compute_checksum(rx_history, nonce_history))
    }
}

pub(crate) proof fn lemma_with_is_queue(state: RxState, segment: Segment)
    requires
        state.wf(),
        state.accepts(segment.id),
    ensures
        state.is_queue(state.with(segment).pending),
        state.with(segment).pending.len() == state.pending.len() + 1,
{
    lemma_inserted(state, segment);
    let pending = state.pending;
    if pending.len() == 2 {
        assert(delta(pending[0].id, state.base_id) < delta(pending[1].id, state.base_id));
    }
}

/// What is held back stays in order when the first segment is delivered.
pub(crate) proof fn lemma_after_delivery(state: RxState)
    requires
        state.is_queue(state.pending),
        state.pending.len() > 0,
    ensures
        state.after_delivery().is_queue(state.after_delivery().pending),
        forall|i: int|
            #![trigger state.after_delivery().pending[i]]
            0 <= i < state.pending.len() - 1 ==> delta(
                state.after_delivery().pending[i].id,
                state.after_delivery().base_id,
            ) == delta(state.pending[i + 1].id, state.base_id) - delta(
                state.pending[0].id,
                state.base_id,
            ) - 1,
{
    let after = state.after_delivery();
    let first = state.pending[0];
    assert forall|i: int|
        #![trigger after.pending[i]]
        0 <= i < after.pending.len() implies delta(after.pending[i].id, after.base_id) == delta(
        state.pending[i + 1].id,
        state.base_id,
    ) - delta(first.id, state.base_id) - 1 by {
        assert(delta(first.id, state.base_id) < delta(state.pending[i + 1].id, state.base_id));
    }
    assert forall|i: int, j: int| 0 <= i < j < after.pending.len() implies delta(
        (#[trigger] after.pending[i]).id,
        after.base_id,
    ) < delta((#[trigger] after.pending[j]).id, after.base_id) by {
        assert(delta(state.pending[i + 1].id, state.base_id) < delta(
            state.pending[j + 1].id,
            state.base_id,
        ));
    }
}

pub(crate) proof fn lemma_ready(state: RxState)
    ensures
        state.ready() <= state.pending.len(),
    decreases state.pending.len(),
{
    if state.pending.len() > 0 && state.pending[0].id == state.base_id {
        lemma_ready(state.after_delivery());
    }
}

/// A new segment takes its place among those held back.
pub(crate) proof fn lemma_inserted(state: RxState, segment: Segment)
    requires
        state.wf(),
    ensures
        ({
            let pending = state.pending;
            let queue = inserted(pending, segment, state.base_id);
            let ahead = |i: int| delta(pending[i].id, state.base_id) > delta(segment.id, state.base_id);
            &&& pending.len() == 0 ==> queue == seq![segment]
            &&& pending.len() == 1 ==> queue == if ahead(0) {
                seq![segment, pending[0]]
            } else {
                seq![pending[0], segment]
            }
            &&& pending.len() == 2 ==> queue == if ahead(0) {
                seq![segment, pending[0], pending[1]]
            } else if ahead(1) {
                seq![pending[0], segment, pending[1]]
            } else {
                seq![pending[0], pending[1], segment]
            }
        }),
{
    let pending = state.pending;
    reveal_with_fuel(inserted, 3);
    let queue = inserted(pending, segment, state.base_id);
    if pending.len() == 0 {
        assert(queue =~= seq![segment]);
    } else if pending.len() == 1 {
        if delta(pending[0].id, state.base_id) > delta(segment.id, state.base_id) {
            assert(queue =~= seq![segment, pending[0]]);
        } else {
            assert(queue =~= seq![pending[0], segment]);
        }
    } else {
        assert(pending.drop_last().last() == pending[0]);
        if delta(pending[0].id, state.base_id) > delta(segment.id, state.base_id) {
            assert(queue =~= seq![segment, pending[0], pending[1]]);
        } else if delta(pending[1].id, state.base_id) > delta(segment.id, state.base_id) {
            assert(queue =~= seq![pending[0], segment, pending[1]]);
        } else {
            assert(queue =~= seq![pending[0], pending[1], segment]);
        }
    }
}

pub(crate) proof fn lemma_deliveries(state: RxState, n: nat)
    requires
        state.is_queue(state.pending),
        n <= state.pending.len(),
    ensures
        ({
            let after = state.after_deliveries(n);
            &&& after.is_queue(after.pending)
            &&& after.pending == state.pending.skip(n as int)
            &&& after.window_size == state.window_size
            &&& after.segment_size_max == state.segment_size_max
            &&& after.base_id == if n == 0 {
                state.base_id
            } else {
                state.pending[n - 1].id.wrapping_add(1)
            }
        }),
    decreases n,
{
    if n > 0 {
        lemma_after_delivery(state);
        lemma_deliveries(state.after_delivery(), (n - 1) as nat);
    }
    assert(state.after_deliveries(n).pending =~= state.pending.skip(n as int));
}

/// Receiving changes no sizes.
pub(crate) proof fn lemma_after_sizes(state: RxState, segment: Segment)
    requires
        state.wf(),
    ensures
        state.after(segment).window_size == state.window_size,
        state.after(segment).segment_size_max == state.segment_size_max,
{
    if state.accepts(segment.id) {
        lemma_inserted(state, segment);
        lemma_with_is_queue(state, segment);
        lemma_ready(state.with(segment));
        lemma_ready(state.with(segment).after_delivery());
        lemma_deliveries(state.with(segment), state.deliverable(segment));
    }
}

/// Neither does a sync.
pub(crate) proof fn lemma_sync_sizes(state: RxState, next_segment_id: u32)
    requires
        state.wf(),
    ensures
        state.after_sync(next_segment_id).window_size == state.window_size,
        state.after_sync(next_segment_id).segment_size_max == state.segment_size_max,
{
    lemma_deliveries(state, state.pending.len());
}

/// A receiver which believes a sync has delivered all that it held back, and expects the segment
/// which the sender sends next.
pub proof fn law_sync_catches_up(state: RxState, next_segment_id: u32)
    requires
        state.wf(),
        state.sync_is_valid(next_segment_id),
    ensures
        ({
            let after = state.after_sync(next_segment_id);
            &&& after.wf()
            &&& after.base_id == next_segment_id
            &&& after.pending.len() == 0
            &&& state.sync_delivery(next_segment_id) == state.pending
        }),
{
    lemma_deliveries(state, state.pending.len());
}

/// Segments are delivered in the order of their IDs, and the window moves past all of them, so that
/// none is delivered twice. What is held back after that is ahead of all that was delivered.
pub proof fn law_in_order_and_once(state: RxState, segment: Segment)
    requires
        state.wf(),
    ensures
        ({
            let delivered = state.delivery(segment);
            let after = state.after(segment);
            &&& after.wf()
            &&& forall|i: int, j: int|
                0 <= i < j < delivered.len() ==> delta(
                    (#[trigger] delivered[i]).id,
                    state.base_id,
                ) < delta((#[trigger] delivered[j]).id, state.base_id)
            &&& forall|i: int|
                0 <= i < delivered.len() ==> delta((#[trigger] delivered[i]).id, state.base_id)
                    < delta(after.base_id, state.base_id)
            &&& delivered.len() == 0 ==> after.base_id == state.base_id
            &&& delivered.len() > 0 ==> after.base_id == delivered.last().id.wrapping_add(1)
        }),
{
    if state.accepts(segment.id) {
        let goal = state.with(segment);
        let n = state.deliverable(segment);
        lemma_with_is_queue(state, segment);
        lemma_inserted(state, segment);
        lemma_after_delivery(goal);
        lemma_ready(goal.after_delivery());
        lemma_ready(goal);
        lemma_deliveries(goal, n);
        lemma_rest_is_ahead(goal, n);
    } else {
        assert(state.delivery(segment) =~= Seq::empty());
    }
}

/// No segment gets lost which lies in the window and has not come in already: it is delivered, or
/// held back, and so is all that has been held back before. Any other segment changes nothing.
pub proof fn law_no_segment_gets_lost(state: RxState, segment: Segment)
    requires
        state.wf(),
    ensures
        ({
            let is_new = delta(segment.id, state.base_id) < state.window_size && forall|i: int|
                0 <= i < state.pending.len() ==> (#[trigger] state.pending[i]).id != segment.id;
            let delivered = state.delivery(segment);
            let after = state.after(segment);
            &&& is_new ==> (delivered + after.pending).to_multiset()
                == state.pending.to_multiset().insert(segment)
            &&& !is_new ==> delivered.len() == 0 && after == state
            &&& is_new && segment.id == state.base_id ==> delivered.len() > 0 && delivered[0]
                == segment
        }),
{
    broadcast use vstd::seq_lib::group_to_multiset_ensures;

    let delivered = state.delivery(segment);
    if state.accepts(segment.id) {
        let goal = state.with(segment);
        let n = state.deliverable(segment);
        lemma_with_is_queue(state, segment);
        lemma_inserted(state, segment);
        lemma_after_delivery(goal);
        lemma_ready(goal.after_delivery());
        lemma_ready(goal);
        lemma_deliveries(goal, n);
        assert(delivered + state.after(segment).pending =~= goal.pending);
        lemma_inserted_multiset(state.pending, segment, state.base_id);
    }
}

proof fn lemma_inserted_multiset(queue: Seq<Segment>, segment: Segment, base_id: u32)
    ensures
        inserted(queue, segment, base_id).to_multiset() == queue.to_multiset().insert(segment),
    decreases queue.len(),
{
    broadcast use vstd::seq_lib::group_to_multiset_ensures;

    if queue.len() > 0 && delta(queue.last().id, base_id) > delta(segment.id, base_id) {
        let shorter = queue.drop_last();
        lemma_inserted_multiset(shorter, segment, base_id);
        assert(shorter.push(queue.last()) =~= queue);
        assert(inserted(queue, segment, base_id).to_multiset() =~= queue.to_multiset().insert(
            segment,
        ));
    }
}

/// Once nothing more is ready, all that is held back is ahead of the expected segment.
proof fn lemma_rest_is_ahead(state: RxState, n: nat)
    requires
        state.is_queue(state.pending),
        n <= state.pending.len() <= 3,
        n == if state.pending.len() == 3 {
            1 + state.after_delivery().ready()
        } else {
            state.ready()
        },
    ensures
        state.after_deliveries(n).wf(),
{
    reveal_with_fuel(RxState::ready, 4);
    reveal_with_fuel(RxState::after_deliveries, 4);
    lemma_deliveries(state, n);
    let after = state.after_deliveries(n);
    assert(after.ready() == 0);
    if after.pending.len() == 2 {
        assert(delta(after.pending[0].id, after.base_id) < delta(
            after.pending[1].id,
            after.base_id,
        ));
    }
}

/// All that is delivered when some segments come in one after another.
pub open spec fn run(state: RxState, segments: Seq<Segment>) -> Seq<Segment>
    decreases segments.len(),
{
    if segments.len() == 0 {
        Seq::empty()
    } else {
        state.delivery(segments[0]) + run(state.after(segments[0]), segments.skip(1))
    }
}

/// The expected segment is delivered, along with what was held back for it.
pub(crate) proof fn lemma_expected(state: RxState, segment: Segment)
    requires
        state.wf(),
        state.window_size > 0,
        segment.id == state.base_id,
        forall|i: int|
            0 <= i < state.pending.len() ==> (#[trigger] state.pending[i]).id == advance(
                state.base_id,
                i + 1,
            ),
    ensures
        state.delivery(segment) == seq![segment] + state.pending,
        state.after(segment).pending.len() == 0,
        state.after(segment).base_id == advance(state.base_id, state.pending.len() as int + 1),
        state.after(segment).window_size == state.window_size,
        state.after(segment).segment_size_max == state.segment_size_max,
        state.after(segment).wf(),
{
    lemma_inserted(state, segment);
    lemma_with_is_queue(state, segment);
    let goal = state.with(segment);
    assert(goal.pending =~= seq![segment] + state.pending);
    reveal_with_fuel(RxState::ready, 4);
    let s1 = goal.after_delivery();
    assert(s1.pending =~= state.pending);
    if state.pending.len() > 0 {
        let s2 = s1.after_delivery();
        assert(s2.pending =~= state.pending.skip(1));
        if state.pending.len() > 1 {
            let s3 = s2.after_delivery();
            assert(s3.pending =~= Seq::empty());
            assert(s2.pending[0].id == s2.base_id);
        }
        assert(s1.pending[0].id == s1.base_id);
    }
    assert(state.deliverable(segment) == goal.pending.len());
    assert(goal.pending.take(goal.pending.len() as int) =~= goal.pending);
    lemma_deliveries(goal, goal.pending.len());
}

/// The expected segment alone is delivered while what is held back waits for another one.
proof fn lemma_expected_alone(state: RxState, segment: Segment)
    requires
        state.wf(),
        state.window_size > 0,
        segment.id == state.base_id,
        state.pending.len() == 1,
        state.pending[0].id != advance(state.base_id, 1),
    ensures
        state.delivery(segment) == seq![segment],
        state.after(segment).pending == state.pending,
        state.after(segment).base_id == advance(state.base_id, 1),
        state.after(segment).window_size == state.window_size,
        state.after(segment).segment_size_max == state.segment_size_max,
        state.after(segment).wf(),
{
    lemma_inserted(state, segment);
    lemma_with_is_queue(state, segment);
    let goal = state.with(segment);
    assert(goal.pending =~= seq![segment] + state.pending);
    reveal_with_fuel(RxState::ready, 3);
    let s1 = goal.after_delivery();
    assert(s1.pending =~= state.pending);
    assert(state.deliverable(segment) == 1);
    assert(goal.pending.take(1) =~= seq![segment]);
    lemma_deliveries(goal, 1);
    law_in_order_and_once(state, segment);
}

/// A segment which is not expected is held back while there is room.
pub(crate) proof fn lemma_held_back(state: RxState, segment: Segment)
    requires
        state.wf(),
        state.pending.len() <= 1,
        state.accepts(segment.id),
        segment.id != state.base_id,
    ensures
        state.delivery(segment) == Seq::<Segment>::empty(),
        state.after(segment) == state.with(segment),
        state.after(segment).wf(),
{
    lemma_inserted(state, segment);
    lemma_with_is_queue(state, segment);
    assert(state.delivery(segment) =~= Seq::empty());
}

proof fn lemma_run_of_three(state: RxState, x: Segment, y: Segment, z: Segment)
    ensures
        run(state, seq![x, y, z]) == state.delivery(x) + state.after(x).delivery(y) + state.after(
            x,
        ).after(y).delivery(z),
{
    reveal_with_fuel(run, 4);
    assert(seq![x, y, z].skip(1) =~= seq![y, z]);
    assert(seq![y, z].skip(1) =~= seq![z]);
    assert(run(state, seq![x, y, z]) =~= state.delivery(x) + state.after(x).delivery(y)
        + state.after(x).after(y).delivery(z));
}

/// Three consecutive segments are delivered in order, in whatever order they come in.
pub proof fn law_reordered_segments(state: RxState, a: Segment, b: Segment, c: Segment)
    requires
        state.wf(),
        state.pending.len() == 0,
        state.window_size >= 3,
        a.id == state.base_id,
        b.id == advance(state.base_id, 1),
        c.id == advance(state.base_id, 2),
        a.data.len() <= state.segment_size_max,
        b.data.len() <= state.segment_size_max,
        c.data.len() <= state.segment_size_max,
    ensures
        run(state, seq![a, b, c]) == seq![a, b, c],
        run(state, seq![a, c, b]) == seq![a, b, c],
        run(state, seq![b, a, c]) == seq![a, b, c],
        run(state, seq![b, c, a]) == seq![a, b, c],
        run(state, seq![c, a, b]) == seq![a, b, c],
        run(state, seq![c, b, a]) == seq![a, b, c],
{
    let all = seq![a, b, c];

    lemma_expected(state, a);
    let s_a = state.after(a);
    lemma_expected(s_a, b);
    lemma_expected(s_a.after(b), c);
    lemma_run_of_three(state, a, b, c);
    assert(run(state, seq![a, b, c]) =~= all);

    lemma_held_back(s_a, c);
    lemma_inserted(s_a, c);
    lemma_expected(s_a.after(c), b);
    lemma_run_of_three(state, a, c, b);
    assert(run(state, seq![a, c, b]) =~= all);

    lemma_held_back(state, b);
    lemma_inserted(state, b);
    let s_b = state.after(b);
    lemma_expected(s_b, a);
    lemma_expected(s_b.after(a), c);
    lemma_run_of_three(state, b, a, c);
    assert(run(state, seq![b, a, c]) =~= all);

    lemma_held_back(s_b, c);
    lemma_inserted(s_b, c);
    lemma_expected(s_b.after(c), a);
    lemma_run_of_three(state, b, c, a);
    assert(run(state, seq![b, c, a]) =~= all);

    lemma_held_back(state, c);
    lemma_inserted(state, c);
    let s_c = state.after(c);
    lemma_expected_alone(s_c, a);
    lemma_expected(s_c.after(a), b);
    lemma_run_of_three(state, c, a, b);
    assert(run(state, seq![c, a, b]) =~= all);

    lemma_held_back(s_c, b);
    lemma_inserted(s_c, b);
    lemma_expected(s_c.after(b), a);
    lemma_run_of_three(state, c, b, a);
    assert(run(state, seq![c, b, a]) =~= all);
}

/// When the expected segment is missing and three segments after it have come in, the missing ones
/// are given up, and the first of the three is delivered.
pub proof fn law_third_segment_skips(state: RxState, segment: Segment)
    requires
        state.wf(),
        state.pending.len() == 2,
        state.accepts(segment.id),
    ensures
        ({
            let nearer = delta(segment.id, state.base_id) < delta(
                state.pending[0].id,
                state.base_id,
            );
            &&& state.delivery(segment).len() > 0
            &&& state.delivery(segment)[0] == if nearer {
                segment
            } else {
                state.pending[0]
            }
        }),
{
    lemma_inserted(state, segment);
    lemma_with_is_queue(state, segment);
    lemma_ready(state.with(segment).after_delivery());
}

/// Whether a receiver knows the nonces of all segments which it reports as received, if segments
/// carry the nonces that `nonce` gives.
pub open spec fn knows_nonces(state: RxState, nonce: spec_fn(u32) -> bool) -> bool {
    &&& forall|i: u32|
        i < 32 && #[trigger] bit(state.rx_history, i) ==> bit(state.nonce_history, i) == nonce(
            advance(state.base_id, -1 - i),
        )
    &&& forall|i: int|
        0 <= i < state.pending.len() ==> (#[trigger] state.pending[i]).nonce == nonce(
            state.pending[i].id,
        )
}

proof fn lemma_past_knows_nonces(
    state: RxState,
    id: u32,
    segment_nonce: bool,
    nonce: spec_fn(u32) -> bool,
)
    requires
        knows_nonces(state, nonce),
        segment_nonce == nonce(id),
    ensures
        knows_nonces(state.past(id, segment_nonce), nonce),
{
    let after = state.past(id, segment_nonce);
    let n = delta(id, state.base_id);
    assert forall|i: u32| i < 32 && #[trigger] bit(after.rx_history, i) implies bit(
        after.nonce_history,
        i,
    ) == nonce(advance(after.base_id, -1 - i)) by {
        lemma_push_bit(push_zeros(state.rx_history, n), true, i);
        lemma_push_bit(push_zeros(state.nonce_history, n), segment_nonce, i);
        if i == 0 {
            assert(advance(after.base_id, -1) == id);
        } else {
            let j = (i - 1) as u32;
            lemma_push_zeros(state.rx_history, n, j);
            lemma_push_zeros(state.nonce_history, n, j);
            let k = (j - n) as u32;
            assert(bit(state.rx_history, k));
            assert(advance(after.base_id, -1 - i) == advance(state.base_id, -1 - k));
        }
    }
}

proof fn lemma_deliveries_know_nonces(state: RxState, n: nat, nonce: spec_fn(u32) -> bool)
    requires
        knows_nonces(state, nonce),
        n <= state.pending.len(),
    ensures
        knows_nonces(state.after_deliveries(n), nonce),
    decreases n,
{
    if n > 0 {
        let first = state.pending[0];
        lemma_past_knows_nonces(state, first.id, first.nonce, nonce);
        let after = state.after_delivery();
        assert forall|i: int| 0 <= i < after.pending.len() implies (
        #[trigger] after.pending[i]).nonce == nonce(after.pending[i].id) by {
            assert(after.pending[i] == state.pending[i + 1]);
        }
        lemma_deliveries_know_nonces(after, (n - 1) as nat, nonce);
    }
}

/// A receiver which knows the nonces of what it reports keeps knowing them when a segment comes in.
pub proof fn law_receive_knows_nonces(
    state: RxState,
    segment: Segment,
    nonce: spec_fn(u32) -> bool,
)
    requires
        state.wf(),
        knows_nonces(state, nonce),
        segment.nonce == nonce(segment.id),
    ensures
        knows_nonces(state.after(segment), nonce),
{
    if state.accepts(segment.id) {
        lemma_inserted(state, segment);
        lemma_with_is_queue(state, segment);
        let goal = state.with(segment);
        assert(knows_nonces(goal, nonce));
        lemma_ready(goal);
        lemma_ready(goal.after_delivery());
        lemma_deliveries_know_nonces(goal, state.deliverable(segment), nonce);
    }
}

/// The same holds when the sender tells how far it has got.
pub proof fn law_sync_knows_nonces(
    state: RxState,
    next_segment_id: u32,
    nonce: spec_fn(u32) -> bool,
)
    requires
        state.wf(),
        knows_nonces(state, nonce),
    ensures
        knows_nonces(state.after_sync(next_segment_id), nonce),
{
    if state.sync_is_valid(next_segment_id) {
        let done = state.after_deliveries(state.pending.len());
        lemma_deliveries_know_nonces(state, state.pending.len(), nonce);
        let n = delta(next_segment_id, done.base_id);
        let after = state.after_sync(next_segment_id);
        assert forall|i: u32| i < 32 && #[trigger] bit(after.rx_history, i) implies bit(
            after.nonce_history,
            i,
        ) == nonce(advance(after.base_id, -1 - i)) by {
            lemma_push_zeros(done.rx_history, n, i);
            lemma_push_zeros(done.nonce_history, n, i);
            let k = (i - n) as u32;
            assert(bit(done.rx_history, k));
            assert(advance(after.base_id, -1 - i) == advance(done.base_id, -1 - k));
        }
    }
}

} // verus!
