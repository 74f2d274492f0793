//! A buffer which puts numbered pieces of data back in order.

use vstd::prelude::*;

use crate::endpoint::segment_rx::{delivered_views, segment_bytes, RxState, Segment, SegmentRx};

verus! {

/// Puts segments back in order. At most two segments are held back while earlier ones are missing.
pub struct RxBuffer {
    segments: SegmentRx,
}

impl View for RxBuffer {
    type V = RxState;

    closed spec fn view(&self) -> RxState {
        self.segments@
    }
}

/// A segment without a nonce.
pub open spec fn plain(id: u32, data: Seq<u8>) -> Segment {
    Segment { id, nonce: false, data }
}

impl RxBuffer {
    pub closed spec fn wf(&self) -> bool {
        self.segments.wf()
    }

    pub fn new(window_base_id: u32, window_size: u32, segment_size_max: usize) -> (buffer: Self)
        ensures
            buffer.wf(),
            buffer@ == (RxState {
                base_id: window_base_id,
                window_size,
                segment_size_max: segment_size_max as nat,
                pending: Seq::empty(),
                rx_history: 0,
                nonce_history: 0,
            }),
    {
        Self { segments: SegmentRx::new(window_base_id, window_size, segment_size_max) }
    }

    /// Takes in a segment, and appends all segments which can be delivered to `delivered`. Returns
    /// how many segments are held back.
    pub fn receive(&mut self, new_id: u32, new_data: &[u8], delivered: &mut Vec<Vec<u8>>) -> (held:
        u8)
        requires
            old(self).wf(),
            old(self)@.is_early(new_id) ==> new_data@.len() <= old(self)@.segment_size_max,
        ensures
            final(self).wf(),
            final(self)@ == old(self)@.after(plain(new_id, new_data@)),
            delivered_views(final(delivered)@) == delivered_views(old(delivered)@) + segment_bytes(
                old(self)@.delivery(plain(new_id, new_data@)),
            ),
            held == final(self)@.pending.len(),
    {
        self.segments.receive(new_id, false, new_data, delivered)
    }

    pub fn next_expected_id(&self) -> (id: u32)
        ensures
            id == self@.base_id,
    {
        self.segments.next_expected_id()
    }
}

} // verus!
