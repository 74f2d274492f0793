//! The windows of frames of a link.

use std::collections::VecDeque;

use vstd::prelude::*;

use crate::endpoint::segment_tx::total;
use crate::id::delta;

verus! {

/// Which frames have been sent and not been acknowledged.
pub struct FrameTxWindow {
    //   base    next    base+size
    //   v       v       v
    // --########________--------> frame IDs
    //
    // #: in transit
    // _: sendable
    base_id: u32,
    next_id: u32,
    size: u32,
    // Sizes of [base, next)
    transit_buf: VecDeque<usize>,
    transit_total: usize,
}

/// What a [`FrameTxWindow`] holds.
#[verifier::ext_equal]
pub struct TxWindowState {
    pub base_id: u32,
    pub next_id: u32,
    pub size: u32,
    /// The sizes of the frames in transit.
    pub transit: Seq<usize>,
}

impl TxWindowState {
    pub open spec fn wf(self) -> bool {
        &&& self.transit.len() == delta(self.next_id, self.base_id)
        &&& self.transit.len() <= self.size
        &&& total(self.transit) <= usize::MAX
    }

    pub open spec fn can_send(self) -> bool {
        self.transit.len() < self.size
    }

    pub open spec fn after_sent(self, size: usize) -> TxWindowState {
        TxWindowState {
            next_id: self.next_id.wrapping_add(1),
            transit: self.transit.push(size),
            ..self
        }
    }

    /// Whether an acknowledgement covers something which is in transit, and nothing which is not.
    pub open spec fn ack_is_valid(self, frame_id: u32) -> bool {
        0 < delta(frame_id, self.base_id) <= self.transit.len()
    }

    pub open spec fn after_ack(self, frame_id: u32) -> TxWindowState {
        if self.ack_is_valid(frame_id) {
            TxWindowState {
                base_id: frame_id,
                transit: self.transit.skip(delta(frame_id, self.base_id)),
                ..self
            }
        } else {
            self
        }
    }
}

impl View for FrameTxWindow {
    type V = TxWindowState;

    closed spec fn view(&self) -> TxWindowState {
        TxWindowState {
            base_id: self.base_id,
            next_id: self.next_id,
            size: self.size,
            transit: self.transit_buf@,
        }
    }
}

impl FrameTxWindow {
    pub closed spec fn inv(&self) -> bool {
        self.transit_total == total(self.transit_buf@)
    }

    pub open spec fn wf(&self) -> bool {
        self.inv() && self@.wf()
    }

    pub fn new(base_id: u32, size: u32) -> (window: Self)
        ensures
            window.wf(),
            window@ == (TxWindowState {
                base_id,
                next_id: base_id,
                size,
                transit: Seq::empty(),
            }),
    {
        Self {
            base_id,
            next_id: base_id,
            size,
            transit_buf: VecDeque::new(),
            transit_total: 0,
        }
    }

    fn next_delta(&self) -> (delta: u32)
        requires
            self.wf(),
        ensures
            delta == self@.transit.len(),
    {
        self.next_id.wrapping_sub(self.base_id)
    }

    pub fn next_id(&self) -> (id: u32)
        ensures
            id == self@.next_id,
    {
        self.next_id
    }

    pub fn can_send(&self) -> (result: bool)
        requires
            self.wf(),
        ensures
            result == self@.can_send(),
    {
        self.next_delta() < self.size
    }

    pub fn mark_sent(&mut self, size: usize)
        requires
            old(self).wf(),
            old(self)@.can_send(),
            total(old(self)@.transit) + size <= usize::MAX,
        ensures
            final(self).wf(),
            final(self)@ == old(self)@.after_sent(size),
    {
        self.next_id = self.next_id.wrapping_add(1);
        self.transit_buf.push_back(size);
        self.transit_total = self.transit_total + size;
        proof {
            lemma_total_push(old(self).transit_buf@, size);
        }
    }

    pub fn bytes_in_transit(&self) -> (total: usize)
        requires
            self.wf(),
        ensures
            total == crate::endpoint::segment_tx::total(self@.transit),
    {
        self.transit_total
    }

    /// Acknowledges previously sent frames by indicating the receiver's next expected frame
    pub fn acknowledge(&mut self, frame_id: u32) -> (valid: bool)
        requires
            old(self).wf(),
        ensures
            final(self).wf(),
            valid == old(self)@.ack_is_valid(frame_id),
            final(self)@ == old(self)@.after_ack(frame_id),
    {
        let frame_delta: u32 = frame_id.wrapping_sub(self.base_id);

        // Do nothing unless:
        //   * frame_id represents an advancement,
        //   * frame_id acknowledges at most the entire current window, and
        //   * frame_id does not exceed the next frame ID which will be sent
        if frame_delta > 0 && frame_delta <= self.size && frame_delta <= self.next_delta() {
            self.base_id = frame_id;

            let ghost all = self.transit_buf@;
            let mut i: u32 = 0;
            assert(all.skip(0) =~= all);
            while i < frame_delta
                invariant
                    i <= frame_delta <= all.len(),
                    self.transit_buf@ == all.skip(i as int),
                    self.transit_total == total(self.transit_buf@),
                    self.base_id == frame_id,
                    self.next_id == old(self).next_id,
                    self.size == old(self).size,
                decreases frame_delta - i,
            {
                let ghost before = self.transit_buf@;
                if let Some(size) = self.transit_buf.pop_front() {
                    proof {
                        lemma_total_first(before);
                    }
                    self.transit_total = self.transit_total - size;
                }
                i += 1;
                assert(self.transit_buf@ =~= all.skip(i as int));
            }
            assert(self@ =~= old(self)@.after_ack(frame_id));
            true
        } else {
            false
        }
    }
}

proof fn lemma_total_push(sizes: Seq<usize>, size: usize)
    ensures
        total(sizes.push(size)) == total(sizes) + size,
{
    assert(sizes.push(size).drop_last() =~= sizes);
}

proof fn lemma_total_first(sizes: Seq<usize>)
    requires
        sizes.len() > 0,
    ensures
        total(sizes) == sizes[0] + total(sizes.skip(1)),
    decreases sizes.len(),
{
    if sizes.len() > 1 {
        lemma_total_first(sizes.drop_last());
        assert(sizes.drop_last().skip(1) =~= sizes.skip(1).drop_last());
    } else {
        assert(sizes.skip(1) =~= Seq::empty());
        assert(sizes.drop_last() =~= Seq::empty());
    }
}

/// Which frames can be received.
pub struct FrameRxWindow {
    pub base_id: u32,
    pub size: u32,
}

impl FrameRxWindow {
    pub open spec fn has(&self, id: u32) -> bool {
        delta(id, self.base_id) < self.size
    }

    pub fn new(base_id: u32, size: u32) -> (window: Self)
        ensures
            window == (FrameRxWindow { base_id, size }),
    {
        Self { base_id, size }
    }

    pub fn can_receive(&self, id: u32) -> (result: bool)
        ensures
            result == self.has(id),
    {
        id.wrapping_sub(self.base_id) < self.size
    }

    pub fn mark_received(&mut self, id: u32)
        requires
            old(self).has(id),
        ensures
            *final(self) == (FrameRxWindow { base_id: id.wrapping_add(1), size: old(self).size }),
    {
        self.base_id = id.wrapping_add(1);
    }

    pub fn next_expected_id(&self) -> (id: u32)
        ensures
            id == self.base_id,
    {
        self.base_id
    }
}

} // verus!
