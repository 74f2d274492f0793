//! What a receiver reports of the segments which it has delivered.

use vstd::prelude::*;

use super::segment_rx::{
    lemma_after_delivery, lemma_deliveries, lemma_inserted, lemma_ready, lemma_with_is_queue,
    RxState, Segment,
};
use crate::bits::{bit, lemma_push_bit, lemma_push_zeros, push_zeros};
use crate::id::{advance, delta, lemma_advance_sum, lemma_delta_advance, lemma_delta_shift};

verus! {

/// All segments which a receiver has delivered. Segments are numbered without wrapping around.
#[verifier::ext_equal]
pub struct Record {
    /// The number of the segment which is expected next.
    pub position: int,
    /// The nonces of the delivered segments, by their numbers.
    pub nonces: Map<int, bool>,
}

/// Something which comes in.
pub enum Input {
    Segment(Segment),
    /// The ID of the segment which the sender is going to send next.
    Sync(u32),
}

impl Input {
    /// The segments which are delivered because of it.
    pub open spec fn delivery(self, state: RxState) -> Seq<Segment> {
        match self {
            Input::Segment(segment) => state.delivery(segment),
            Input::Sync(next_segment_id) => state.sync_delivery(next_segment_id),
        }
    }

    /// The state of the receiver after it.
    pub open spec fn after(self, state: RxState) -> RxState {
        match self {
            Input::Segment(segment) => state.after(segment),
            Input::Sync(next_segment_id) => state.after_sync(next_segment_id),
        }
    }
}

impl Record {
    /// Nothing has been delivered yet.
    pub open spec fn empty() -> Record {
        Record { position: 0, nonces: Map::empty() }
    }

    /// The nonces once some segments have been delivered, while `base_id` was expected.
    pub open spec fn with(self, base_id: u32, delivered: Seq<Segment>) -> Map<int, bool>
        decreases delivered.len(),
    {
        if delivered.len() == 0 {
            self.nonces
        } else {
            let last = delivered.last();
            self.with(base_id, delivered.drop_last()).insert(
                self.position + delta(last.id, base_id),
                last.nonce,
            )
        }
    }

    /// The record once something has come in.
    pub open spec fn after(self, state: RxState, input: Input) -> Record {
        Record {
            position: self.position + delta(input.after(state).base_id, state.base_id),
            nonces: self.with(state.base_id, input.delivery(state)),
        }
    }
}

/// The state of a receiver once some input has come in.
pub open spec fn after_inputs(state: RxState, inputs: Seq<Input>) -> RxState
    decreases inputs.len(),
{
    if inputs.len() == 0 {
        state
    } else {
        inputs.last().after(after_inputs(state, inputs.drop_last()))
    }
}

/// What a receiver has delivered once some input has come in.
pub open spec fn record_of(state: RxState, inputs: Seq<Input>) -> Record
    decreases inputs.len(),
{
    if inputs.len() == 0 {
        Record::empty()
    } else {
        record_of(state, inputs.drop_last()).after(
            after_inputs(state, inputs.drop_last()),
            inputs.last(),
        )
    }
}

/// Whether the history of a receiver tells exactly which segments have been delivered.
pub open spec fn is_faithful(state: RxState, record: Record) -> bool {
    &&& forall|k: int| #[trigger] record.nonces.contains_key(k) ==> k < record.position
    &&& forall|i: u32|
        i < 32 ==> #[trigger] bit(state.rx_history, i) == record.nonces.contains_key(
            record.position - 1 - i,
        )
    &&& forall|i: u32|
        i < 32 && #[trigger] bit(state.rx_history, i) ==> bit(state.nonce_history, i)
            == record.nonces[record.position - 1 - i]
}

proof fn lemma_past_is_faithful(state: RxState, record: Record, id: u32, nonce: bool)
    requires
        is_faithful(state, record),
    ensures
        ({
            let n = delta(id, state.base_id);
            is_faithful(
                state.past(id, nonce),
                Record {
                    position: record.position + n + 1,
                    nonces: record.nonces.insert(record.position + n, nonce),
                },
            )
        }),
{
    let after = state.past(id, nonce);
    let n = delta(id, state.base_id);
    let longer = Record {
        position: record.position + n + 1,
        nonces: record.nonces.insert(record.position + n, nonce),
    };
    assert forall|i: u32| i < 32 implies {
        &&& #[trigger] bit(after.rx_history, i) == longer.nonces.contains_key(
            longer.position - 1 - i,
        )
        &&& bit(after.rx_history, i) ==> bit(after.nonce_history, i)
            == longer.nonces[longer.position - 1 - i]
    } by {
        lemma_push_bit(push_zeros(state.rx_history, n), true, i);
        lemma_push_bit(push_zeros(state.nonce_history, n), nonce, i);
        if i > 0 {
            let j = (i - 1) as u32;
            lemma_push_zeros(state.rx_history, n, j);
            lemma_push_zeros(state.nonce_history, n, j);
            if j >= n {
                let k = (j - n) as u32;
                assert(bit(state.rx_history, k) == record.nonces.contains_key(
                    record.position - 1 - k,
                ));
            } else {
                assert(!record.nonces.contains_key(longer.position - 1 - i));
            }
        }
    }
}

/// Numbers do not depend on which segment is expected when they are given.
proof fn lemma_with_shifted(state: RxState, record: Record, n: nat)
    requires
        state.is_queue(state.pending),
        0 < n <= state.pending.len(),
    ensures
        ({
            let first = state.pending[0];
            let d = delta(first.id, state.base_id);
            let next = Record {
                position: record.position + d + 1,
                nonces: record.nonces.insert(record.position + d, first.nonce),
            };
            next.with(state.after_delivery().base_id, state.after_delivery().pending.take(n - 1))
                == record.with(state.base_id, state.pending.take(n as int))
        }),
    decreases n,
{
    let first = state.pending[0];
    let d = delta(first.id, state.base_id);
    let next = Record {
        position: record.position + d + 1,
        nonces: record.nonces.insert(record.position + d, first.nonce),
    };
    let after = state.after_delivery();
    let taken = state.pending.take(n as int);
    let rest = after.pending.take(n - 1);
    assert(taken.drop_last() =~= state.pending.take(n - 1));
    reveal_with_fuel(Record::with, 2);
    if n == 1 {
        assert(state.pending.take(0) =~= Seq::empty());
        assert(rest =~= Seq::empty());
    } else {
        lemma_with_shifted(state, record, (n - 1) as nat);
        lemma_after_delivery(state);
        assert(rest.drop_last() =~= after.pending.take(n - 2));
        assert(after.pending[n - 2] == state.pending[n - 1]);
        assert(rest.last() == after.pending[n - 2]);
    }
}

proof fn lemma_deliveries_are_faithful(state: RxState, record: Record, n: nat)
    requires
        is_faithful(state, record),
        state.is_queue(state.pending),
        n <= state.pending.len(),
    ensures
        ({
            let after = state.after_deliveries(n);
            &&& n > 0 ==> delta(after.base_id, state.base_id) == delta(
                state.pending[n - 1].id,
                state.base_id,
            ) + 1
            &&& n == 0 ==> after == state
            &&& is_faithful(
                after,
                Record {
                    position: record.position + delta(after.base_id, state.base_id),
                    nonces: record.with(state.base_id, state.pending.take(n as int)),
                },
            )
        }),
    decreases n,
{
    assert(delta(state.base_id, state.base_id) == 0);
    if n == 0 {
        assert(state.pending.take(0) =~= Seq::empty());
    } else {
        let first = state.pending[0];
        let d = delta(first.id, state.base_id);
        let next = Record {
            position: record.position + d + 1,
            nonces: record.nonces.insert(record.position + d, first.nonce),
        };
        let after = state.after_delivery();
        lemma_past_is_faithful(state, record, first.id, first.nonce);
        lemma_after_delivery(state);
        assert(is_faithful(after, next));
        lemma_deliveries_are_faithful(after, next, (n - 1) as nat);
        lemma_with_shifted(state, record, n);
        lemma_deliveries(state, n);
        let end = state.after_deliveries(n).base_id;
        let last = state.pending[n - 1].id;
        assert(end == last.wrapping_add(1));
        assert(delta(last, state.base_id) < state.window_size);
        assert(delta(end, state.base_id) == delta(last, state.base_id) + 1);
        if n > 1 {
            assert(after.pending[n - 2] == state.pending[n - 1]);
        }
    }
}

/// Whatever comes in, the history keeps telling exactly which segments have been delivered.
pub proof fn law_history_stays_faithful(state: RxState, record: Record, input: Input)
    requires
        state.wf(),
        is_faithful(state, record),
    ensures
        input.after(state).wf(),
        is_faithful(input.after(state), record.after(state, input)),
{
    assert(delta(state.base_id, state.base_id) == 0);
    match input {
        Input::Segment(segment) => {
            super::segment_rx::law_in_order_and_once(state, segment);
            if state.accepts(segment.id) {
                let goal = state.with(segment);
                lemma_inserted(state, segment);
                lemma_with_is_queue(state, segment);
                lemma_ready(goal);
                lemma_ready(goal.after_delivery());
                assert(is_faithful(goal, record));
                let n = state.deliverable(segment);
                assert(n <= goal.pending.len());
                lemma_deliveries_are_faithful(goal, record, n);
                assert(input.after(state) == goal.after_deliveries(n));
                assert(input.delivery(state) == goal.pending.take(n as int));
            } else {
                assert(state.delivery(segment) =~= Seq::empty());
                assert(record.after(state, input) =~= record);
            }
        },
        Input::Sync(next_segment_id) => {
            if state.sync_is_valid(next_segment_id) {
                super::segment_rx::law_sync_catches_up(state, next_segment_id);
                let n = state.pending.len();
                let done = state.after_deliveries(n);
                let after = state.after_sync(next_segment_id);
                lemma_deliveries_are_faithful(state, record, n);
                assert(state.pending.take(n as int) =~= state.pending);
                let moved = delta(done.base_id, state.base_id);
                lemma_delta_advance(done.base_id, state.base_id);
                lemma_delta_shift(next_segment_id, state.base_id, moved);
                let skipped = delta(next_segment_id, done.base_id);
                let before = Record {
                    position: record.position + moved,
                    nonces: record.with(state.base_id, state.pending),
                };
                let goal = record.after(state, input);
                assert(goal.position == before.position + skipped);
                assert forall|i: u32| i < 32 implies {
                    &&& #[trigger] bit(after.rx_history, i) == goal.nonces.contains_key(
                        goal.position - 1 - i,
                    )
                    &&& bit(after.rx_history, i) ==> bit(after.nonce_history, i)
                        == goal.nonces[goal.position - 1 - i]
                } by {
                    lemma_push_zeros(done.rx_history, skipped, i);
                    lemma_push_zeros(done.nonce_history, skipped, i);
                    if i >= skipped {
                        let k = (i - skipped) as u32;
                        assert(bit(done.rx_history, k) == before.nonces.contains_key(
                            before.position - 1 - k,
                        ));
                    } else {
                        assert(!before.nonces.contains_key(goal.position - 1 - i));
                    }
                }
            }
        },
    }
}

/// The state of a receiver which has not received anything.
pub open spec fn is_fresh(state: RxState) -> bool {
    state.pending.len() == 0 && state.rx_history == 0 && state.nonce_history == 0
}

/// Whatever has come in since the beginning, a receiver reports of each of the five segments before
/// the next expected one whether it has been delivered, and the parity of the nonces of those which
/// have.
pub proof fn law_reports_are_faithful(start: RxState, inputs: Seq<Input>, i: u32)
    requires
        start.wf(),
        is_fresh(start),
        i < 32,
    ensures
        ({
            let state = after_inputs(start, inputs);
            let record = record_of(start, inputs);
            let number = record.position - 1 - i;
            let reported = state.rx_history & 0x1F;
            let checked = state.rx_history & state.nonce_history & 0x1F;
            &&& state.wf()
            &&& is_faithful(state, record)
            &&& state.base_id == advance(start.base_id, record.position)
            &&& reported < 32
            &&& bit(reported, i) == (i < 5 && record.nonces.contains_key(number))
            &&& bit(checked, i) == (i < 5 && record.nonces.contains_key(number)
                && record.nonces[number])
        }),
    decreases inputs.len(),
{
    let state = after_inputs(start, inputs);
    let record = record_of(start, inputs);
    if inputs.len() == 0 {
        assert forall|k: u32| k < 32 implies !(#[trigger] bit(start.rx_history, k)) by {
            assert(!bit(0, k)) by (bit_vector);
        }
        assert(advance(start.base_id, 0) == start.base_id);
    } else {
        let before = after_inputs(start, inputs.drop_last());
        let earlier = record_of(start, inputs.drop_last());
        law_reports_are_faithful(start, inputs.drop_last(), i);
        law_history_stays_faithful(before, earlier, inputs.last());
        let moved = delta(state.base_id, before.base_id);
        lemma_delta_advance(state.base_id, before.base_id);
        lemma_advance_sum(start.base_id, earlier.position, moved);
    }
    let r = state.rx_history;
    let n = state.nonce_history;
    assert(r & 0x1F < 32 && (i < 32 ==> bit(r & 0x1F, i) == (i < 5 && bit(r, i)) && bit(
        r & n & 0x1F,
        i,
    ) == (i < 5 && bit(r, i) && bit(n, i)))) by (bit_vector);
    assert(bit(r, i) == record.nonces.contains_key(record.position - 1 - i));
}

} // verus!
