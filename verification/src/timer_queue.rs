//! A queue of timers, which are tested in turn, a few at a time or all at once.

use std::collections::VecDeque;

use vstd::prelude::*;

verus! {

/// What has come of testing a timer.
pub enum TimerTest<H> {
    /// The timer is not there any more.
    Gone,
    /// The timer has not expired.
    Idle,
    /// The timer has expired.
    Fired(H),
}

/// A timer, or what is left of it.
pub trait Timer {
    /// What is known of an expired timer.
    type Handle;

    fn test(&self, now_ms: u64) -> TimerTest<Self::Handle>;
}

/// Timers which are tested in turn.
pub struct TimerQueue<T> {
    queue: VecDeque<T>,
}

/// Whether testing a timer can come out like this.
pub open spec fn is_test<T: Timer>(timer: T, now_ms: u64, outcome: TimerTest<T::Handle>) -> bool {
    call_ensures(T::test, (&timer, now_ms), outcome)
}

/// The timers which are still there.
pub open spec fn remaining<T, H>(timers: Seq<T>, outcomes: Seq<TimerTest<H>>) -> Seq<T>
    decreases outcomes.len(),
{
    if outcomes.len() == 0 {
        Seq::empty()
    } else {
        let rest = remaining(timers, outcomes.drop_last());
        if outcomes.last() is Gone {
            rest
        } else {
            rest.push(timers[outcomes.len() - 1])
        }
    }
}

/// What is known of the timers which have expired.
pub open spec fn fired_handles<H>(outcomes: Seq<TimerTest<H>>) -> Seq<H>
    decreases outcomes.len(),
{
    if outcomes.len() == 0 {
        Seq::empty()
    } else {
        let rest = fired_handles(outcomes.drop_last());
        match outcomes.last() {
            TimerTest::Fired(handle) => rest.push(handle),
            _ => rest,
        }
    }
}

/// How many timers are tested.
pub open spec fn test_count(limit: int, len: int) -> int {
    if limit < len {
        limit
    } else {
        len
    }
}

impl<T> View for TimerQueue<T> {
    type V = Seq<T>;

    closed spec fn view(&self) -> Seq<T> {
        self.queue@
    }
}

impl<T> TimerQueue<T> where T: Timer {
    pub fn new() -> (queue: Self)
        ensures
            queue@ == Seq::<T>::empty(),
    {
        Self { queue: VecDeque::new() }
    }

    pub fn add_timer(&mut self, timer: T)
        ensures
            final(self)@ == old(self)@.push(timer),
    {
        self.queue.push_back(timer);
    }

    /// Tests the first timers, at most `limit` of them. Those which have expired are told to the
    /// caller. Those which are still there go to the end of the queue.
    pub fn test(&mut self, limit: usize, now_ms: u64, fired: &mut Vec<T::Handle>)
        ensures
            exists|outcomes: Seq<TimerTest<T::Handle>>|
                {
                    let count = test_count(limit as int, old(self)@.len() as int);
                    &&& outcomes.len() == count
                    &&& forall|i: int|
                        0 <= i < count ==> #[trigger] is_test(old(self)@[i], now_ms, outcomes[i])
                    &&& final(self)@ == old(self)@.skip(count) + #[trigger] remaining(
                        old(self)@,
                        outcomes,
                    )
                    &&& final(fired)@ == old(fired)@ + fired_handles(outcomes)
                },
    {
        let max_iters: usize = if limit < self.queue.len() {
            limit
        } else {
            self.queue.len()
        };
        let ghost all = self@;
        let ghost known = fired@;
        let ghost mut outcomes: Seq<TimerTest<T::Handle>> = Seq::empty();
        assert(known + fired_handles(outcomes) =~= known);

        let mut i: usize = 0;
        while i < max_iters
            invariant
                i <= max_iters <= all.len(),
                outcomes.len() == i,
                forall|j: int| 0 <= j < i ==> #[trigger] is_test(all[j], now_ms, outcomes[j]),
                self@ =~= all.skip(i as int) + remaining(all, outcomes),
                fired@ =~= known + fired_handles(outcomes),
            decreases max_iters - i,
        {
            let ghost before = outcomes;
            assert(self@[0] == all[i as int]);
            match self.queue.pop_front() {
                Some(timer) => {
                    let outcome = timer.test(now_ms);
                    proof {
                        outcomes = outcomes.push(outcome);
                        assert(outcomes.drop_last() =~= before);
                        assert(is_test(all[i as int], now_ms, outcome));
                    }
                    match outcome {
                        TimerTest::Fired(handle) => {
                            // This timer has expired, signal
                            fired.push(handle);
                            self.queue.push_back(timer);
                        },
                        TimerTest::Idle => {
                            self.queue.push_back(timer);
                        },
                        TimerTest::Gone => {
                            // This timer went out of scope, let it fall off the queue
                        },
                    }
                },
                None => {},
            }
            i += 1;
        }
        assert(i == test_count(limit as int, all.len() as int));
    }

    /// Tests every timer once. Those which have expired are told to the caller. Those which are
    /// still there stay in the queue, in order.
    pub fn test_all(&mut self, now_ms: u64, fired: &mut Vec<T::Handle>)
        ensures
            exists|outcomes: Seq<TimerTest<T::Handle>>|
                {
                    &&& outcomes.len() == old(self)@.len()
                    &&& forall|i: int|
                        0 <= i < outcomes.len() ==> #[trigger] is_test(
                            old(self)@[i],
                            now_ms,
                            outcomes[i],
                        )
                    &&& final(self)@ == #[trigger] remaining(old(self)@, outcomes)
                    &&& final(fired)@ == old(fired)@ + fired_handles(outcomes)
                },
    {
        let ghost all = self@;
        let count: usize = self.queue.len();
        self.test(count, now_ms, fired);
        assert(all.skip(count as int) =~= Seq::empty());
        assert forall|outcomes: Seq<TimerTest<T::Handle>>|
            all.skip(count as int) + #[trigger] remaining(all, outcomes) =~= remaining(
                all,
                outcomes,
            ) by {}
    }

    pub fn len(&self) -> (len: usize)
        ensures
            len == self@.len(),
    {
        self.queue.len()
    }
}

/// As long as no timer goes away, timers only change places: those which have been tested go to the
/// end of the queue, in order.
pub proof fn law_rotation<T, H>(timers: Seq<T>, outcomes: Seq<TimerTest<H>>)
    requires
        outcomes.len() <= timers.len(),
        forall|i: int| 0 <= i < outcomes.len() ==> !((#[trigger] outcomes[i]) is Gone),
    ensures
        remaining(timers, outcomes) == timers.take(outcomes.len() as int),
    decreases outcomes.len(),
{
    if outcomes.len() > 0 {
        let shorter = outcomes.drop_last();
        assert forall|i: int| 0 <= i < shorter.len() implies !((#[trigger] shorter[i]) is Gone) by {
            assert(shorter[i] == outcomes[i]);
        }
        law_rotation(timers, shorter);
        assert(!(outcomes[outcomes.len() - 1] is Gone));
    }
    assert(remaining(timers, outcomes) =~= timers.take(outcomes.len() as int));
}

/// Every timer which has expired is told to the caller, in order, and no other is. What is told
/// does not depend on how many timers are tested at a time.
pub proof fn law_expired_timers_are_told<H>(outcomes: Seq<TimerTest<H>>, more: Seq<TimerTest<H>>)
    ensures
        fired_handles(outcomes + more) == fired_handles(outcomes) + fired_handles(more),
        fired_handles(outcomes).len() == outcomes.filter(|outcome: TimerTest<H>| outcome is Fired).len(),
        forall|i: int|
            0 <= i < outcomes.len() && (#[trigger] outcomes[i]) is Fired ==> fired_handles(
                outcomes,
            ).contains(outcomes[i]->Fired_0),
    decreases more.len(), outcomes.len(),
{
    reveal(Seq::filter);
    if more.len() > 0 {
        law_expired_timers_are_told(outcomes, more.drop_last());
        assert((outcomes + more).drop_last() =~= outcomes + more.drop_last());
        assert(fired_handles(outcomes + more) =~= fired_handles(outcomes) + fired_handles(more));
    } else {
        assert(outcomes + more =~= outcomes);
        assert(fired_handles(outcomes) + fired_handles(more) =~= fired_handles(outcomes));
        if outcomes.len() > 0 {
            let shorter = outcomes.drop_last();
            law_expired_timers_are_told(shorter, more);
            let before = fired_handles(shorter);
            let all = fired_handles(outcomes);
            assert forall|i: int|
                0 <= i < outcomes.len() && (#[trigger] outcomes[i]) is Fired implies all.contains(
                outcomes[i]->Fired_0,
            ) by {
                if i < shorter.len() {
                    assert(shorter[i] == outcomes[i]);
                    let k = choose|k: int| 0 <= k < before.len() && before[k] == outcomes[i]->Fired_0;
                    assert(all[k] == before[k]);
                } else {
                    assert(all[all.len() - 1] == outcomes[i]->Fired_0);
                }
            }
        }
    }
}

/// Timers which are not gone stay in the queue, whether or not they have expired, and those which
/// are gone leave it.
pub proof fn law_only_gone_timers_leave<T, H>(timers: Seq<T>, outcomes: Seq<TimerTest<H>>)
    requires
        outcomes.len() <= timers.len(),
    ensures
        remaining(timers, outcomes).len() == outcomes.filter(
            |outcome: TimerTest<H>| !(outcome is Gone),
        ).len(),
        forall|i: int|
            0 <= i < outcomes.len() && !((#[trigger] outcomes[i]) is Gone) ==> remaining(
                timers,
                outcomes,
            ).contains(timers[i]),
    decreases outcomes.len(),
{
    reveal(Seq::filter);
    if outcomes.len() > 0 {
        let shorter = outcomes.drop_last();
        law_only_gone_timers_leave(timers, shorter);
        let before = remaining(timers, shorter);
        let all = remaining(timers, outcomes);
        assert forall|i: int|
            0 <= i < outcomes.len() && !((#[trigger] outcomes[i]) is Gone) implies all.contains(
            timers[i],
        ) by {
            if i < shorter.len() {
                assert(shorter[i] == outcomes[i]);
                let k = choose|k: int| 0 <= k < before.len() && before[k] == timers[i];
                assert(all[k] == before[k]);
            } else {
                assert(all[all.len() - 1] == timers[i]);
            }
        }
    }
}

} // verus!
