//! What becomes of timers over all calls of a wheel.

use vstd::multiset::Multiset;
use vstd::prelude::*;
use vstd::seq_lib::{group_to_multiset_ensures, lemma_multiset_commutative};

use super::model::{
    is_time, law_never_early, law_never_late, law_stays_or_expires, ArrayState, Expiry, WheelState,
};
use super::slots::{data_of, due, pending, Timer};

verus! {

/// All timers in some bins.
pub open spec fn pool<T>(bins: Seq<Seq<Timer<T>>>) -> Multiset<Timer<T>>
    decreases bins.len(),
{
    if bins.len() == 0 {
        Multiset::empty()
    } else {
        pool(bins.drop_last()).add(bins.last().to_multiset())
    }
}

/// Something which is asked of a wheel.
pub enum Call<T> {
    /// To set a timer.
    Start(u64, T),
    /// To unset the timer with some number.
    Stop(u32),
    /// To let timers expire.
    Step(u64),
}

/// All timers which have ever been set, and what has become of those which are gone.
#[verifier::ext_equal]
pub struct Ledger<T> {
    pub set: Multiset<Timer<T>>,
    pub unset: Multiset<Timer<T>>,
    pub expired: Multiset<Timer<T>>,
}

impl<T> Ledger<T> {
    pub open spec fn empty() -> Ledger<T> {
        Ledger { set: Multiset::empty(), unset: Multiset::empty(), expired: Multiset::empty() }
    }

    /// Whether a call leads from one wheel to another, and from this ledger to another.
    pub open spec fn leads_to(
        self,
        before: WheelState<T>,
        call: Call<T>,
        after: WheelState<T>,
        ledger: Ledger<T>,
    ) -> bool {
        match call {
            Call::Start(timeout_time_ms, data) => {
                let timer = Timer { id: before.slots.next_id(), timeout_time_ms, data };
                &&& before.last_step_time_ms <= timeout_time_ms
                &&& after == before.after_set(timeout_time_ms, data)
                &&& ledger == Ledger { set: self.set.insert(timer), ..self }
            },
            Call::Stop(id) => exists|bin: int, i: int|
                {
                    &&& #[trigger] before.slots.is_at(id, bin, i)
                    &&& after == WheelState { slots: before.slots.after_unset(bin, i), ..before }
                    &&& ledger == Ledger {
                        unset: self.unset.insert(before.slots.bins[bin][i]),
                        ..self
                    }
                },
            Call::Step(now_ms) => {
                &&& before.last_step_time_ms <= now_ms
                &&& is_time(now_ms)
                &&& after == before.after_step(now_ms)
                &&& ledger == Ledger {
                    expired: self.expired.add(before.expiry(now_ms).expired.to_multiset()),
                    ..self
                }
            },
        }
    }

    /// Whether every timer which has been set is still pending, or has been unset, or has expired,
    /// and only one of these.
    pub open spec fn is_balanced(self, wheel: WheelState<T>) -> bool {
        self.set == pool(wheel.slots.bins).add(self.unset).add(self.expired)
    }
}

/// Replacing a bin replaces its timers, and no others.
proof fn lemma_pool_update<T>(bins: Seq<Seq<Timer<T>>>, bin: int, timers: Seq<Timer<T>>)
    requires
        0 <= bin < bins.len(),
    ensures
        pool(bins.update(bin, timers)).add(bins[bin].to_multiset()) == pool(bins).add(
            timers.to_multiset(),
        ),
    decreases bins.len(),
{
    let updated = bins.update(bin, timers);
    if bin == bins.len() - 1 {
        assert(updated.drop_last() =~= bins.drop_last());
    } else {
        assert(updated.drop_last() =~= bins.drop_last().update(bin, timers));
        lemma_pool_update(bins.drop_last(), bin, timers);
        let a = pool(bins.drop_last().update(bin, timers));
        let b = pool(bins.drop_last());
        let old_bin = bins[bin].to_multiset();
        let new_bin = timers.to_multiset();
        let last = bins.last().to_multiset();
        assert(a.add(old_bin) == b.add(new_bin));
        assert forall|timer: Timer<T>|
            a.add(last).add(old_bin).count(timer) == b.add(last).add(new_bin).count(timer) by {
            assert(a.add(old_bin).count(timer) == b.add(new_bin).count(timer));
        }
    }
    assert(pool(updated).add(bins[bin].to_multiset()) =~= pool(bins).add(timers.to_multiset()));
}

/// Every timer of a bin is either due or pending.
proof fn lemma_bin_splits<T>(timers: Seq<Timer<T>>, now_ms: u64)
    ensures
        timers.to_multiset() == pending(timers, now_ms).to_multiset().add(
            due(timers, now_ms).to_multiset(),
        ),
    decreases timers.len(),
{
    broadcast use group_to_multiset_ensures;

    if timers.len() > 0 {
        lemma_bin_splits(timers.drop_last(), now_ms);
        assert(timers =~= timers.drop_last().push(timers.last()));
    }
    assert(timers.to_multiset() =~= pending(timers, now_ms).to_multiset().add(
        due(timers, now_ms).to_multiset(),
    ));
}

/// The timers on the way through a step: those in bins, and those which have expired.
spec fn all_of<T>(expiry: Expiry<T>) -> Multiset<Timer<T>> {
    pool(expiry.slots.bins).add(expiry.expired.to_multiset())
}

proof fn lemma_bin_keeps_all<T>(expiry: Expiry<T>, bin: int, all: bool, now_ms: u64)
    requires
        0 <= bin < expiry.slots.bins.len(),
    ensures
        all_of(expiry.after_bin(bin, all, now_ms)) == all_of(expiry),
{
    let timers = expiry.slots.bins[bin];
    let left = if all {
        Seq::empty()
    } else {
        pending(timers, now_ms)
    };
    let gone = if all {
        timers
    } else {
        due(timers, now_ms)
    };
    let bins = expiry.slots.bins;
    lemma_bin_splits(timers, now_ms);
    lemma_pool_update(bins, bin, left);
    lemma_multiset_commutative(expiry.expired, gone);
    let after = expiry.after_bin(bin, all, now_ms);
    assert(timers.to_multiset() =~= left.to_multiset().add(gone.to_multiset())) by {
        broadcast use group_to_multiset_ensures;

    }
    assert forall|timer: Timer<T>| all_of(after).count(timer) == all_of(expiry).count(timer) by {
        assert(pool(bins.update(bin, left)).add(timers.to_multiset()).count(timer) == pool(
            bins,
        ).add(left.to_multiset()).count(timer));
        assert(timers.to_multiset().count(timer) == left.to_multiset().add(
            gone.to_multiset(),
        ).count(timer));
    }
    assert(all_of(after) =~= all_of(expiry));
}

proof fn lemma_bins_keep_all<T>(
    expiry: Expiry<T>,
    array: ArrayState,
    count: nat,
    all: bool,
    now_ms: u64,
)
    requires
        array.wf(),
        array.start + array.size <= expiry.slots.bins.len(),
    ensures
        all_of(expiry.after_bins(array, count, all, now_ms)) == all_of(expiry),
        expiry.after_bins(array, count, all, now_ms).slots.bins.len() == expiry.slots.bins.len(),
    decreases count,
{
    if count > 0 {
        lemma_bins_keep_all(expiry, array, (count - 1) as nat, all, now_ms);
        vstd::arithmetic::div_mod::lemma_mod_bound(array.next + count - 1, array.size);
        lemma_bin_keeps_all(
            expiry.after_bins(array, (count - 1) as nat, all, now_ms),
            array.bin(array.next + count - 1),
            all,
            now_ms,
        );
    }
}

proof fn lemma_arrays_keep_all<T>(wheel: WheelState<T>, n: nat, now_ms: u64)
    requires
        wheel.has_arrays(),
        n <= wheel.arrays.len(),
    ensures
        ({
            let start = Expiry { slots: wheel.slots, expired: Seq::empty() };
            let after = start.after_arrays(wheel.arrays, n, now_ms);
            &&& all_of(after) == all_of(start)
            &&& after.slots.bins.len() == wheel.slots.bins.len()
        }),
    decreases n,
{
    if n > 0 {
        let start = Expiry { slots: wheel.slots, expired: Seq::empty() };
        lemma_arrays_keep_all(wheel, (n - 1) as nat, now_ms);
        wheel.lemma_array_end(n - 1);
        let array = wheel.arrays[n - 1];
        assert(array.wf());
        lemma_bins_keep_all(
            start.after_arrays(wheel.arrays, (n - 1) as nat, now_ms),
            array,
            array.passed(now_ms) as nat,
            n < wheel.arrays.len(),
            now_ms,
        );
    }
}

/// A step neither loses a timer nor makes one up: those which were pending are pending still, or
/// have expired.
pub proof fn law_step_keeps_all_timers<T>(wheel: WheelState<T>, now_ms: u64)
    requires
        wheel.wf(),
    ensures
        pool(wheel.slots.bins) == pool(wheel.after_step(now_ms).slots.bins).add(
            wheel.expiry(now_ms).expired.to_multiset(),
        ),
{
    broadcast use group_to_multiset_ensures;

    lemma_arrays_keep_all(wheel, wheel.arrays.len(), now_ms);
    assert(Seq::<Timer<T>>::empty().to_multiset() =~= Multiset::empty());
    assert(pool(wheel.slots.bins) =~= pool(wheel.slots.bins).add(Multiset::empty()));
}

/// What is handed out of timers is the data which they were set with, in order.
pub proof fn law_data_comes_with_timers<T>(timers: Seq<Timer<T>>)
    ensures
        data_of(timers).len() == timers.len(),
        forall|i: int| 0 <= i < timers.len() ==> #[trigger] data_of(timers)[i] == timers[i].data,
{
}

/// Where bins cover no more than some time each, a step lets every timer expire which has been due
/// for that time, and none which is not due yet. Those which are left stay where they are.
pub proof fn law_step_is_timely<T>(
    wheel: WheelState<T>,
    now_ms: u64,
    ms_per_bin_max: int,
    bin: int,
    k: int,
)
    requires
        wheel.wf(),
        wheel.last_step_time_ms <= now_ms,
        forall|i: int|
            0 <= i < wheel.arrays.len() ==> (#[trigger] wheel.arrays[i]).ms_per_bin
                <= ms_per_bin_max,
        0 <= bin < wheel.slots.bins.len(),
        0 <= k < wheel.slots.bins[bin].len(),
    ensures
        ({
            let timer = wheel.slots.bins[bin][k];
            let expires = wheel.expiry(now_ms).expired.contains(timer);
            &&& timer.timeout_time_ms + ms_per_bin_max <= now_ms ==> expires
            &&& now_ms < timer.timeout_time_ms ==> !expires
            &&& expires != wheel.after_step(now_ms).slots.bins[bin].contains(timer)
        }),
{
    let timer = wheel.slots.bins[bin][k];
    let expired = wheel.expiry(now_ms).expired;
    let left = wheel.after_step(now_ms).slots.bins[bin];
    law_stays_or_expires(wheel, now_ms, bin, k);
    if expired.contains(timer) {
        let e = choose|e: int| 0 <= e < expired.len() && expired[e] == timer;
        law_never_early(wheel, now_ms, e);
    } else {
        let l = choose|l: int| 0 <= l < left.len() && left[l] == timer;
        let i = wheel.lemma_array_of(bin);
        law_never_late(wheel, now_ms, i, bin, l);
    }
}

/// A wheel which is up to date stays so, whatever is asked of it.
pub proof fn law_wheel_stays_current<T>(
    before: WheelState<T>,
    ledger: Ledger<T>,
    call: Call<T>,
    after: WheelState<T>,
    ledger_after: Ledger<T>,
)
    requires
        before.is_current(),
        ledger.leads_to(before, call, after, ledger_after),
    ensures
        after.is_current(),
{
    if let Call::Step(now_ms) = call {
        assert forall|i: int| 0 <= i < after.arrays.len() implies (#[trigger] after.arrays[i]).next
            == after.arrays[i].interval(after.last_step_time_ms) by {
            assert(after.arrays[i] == before.arrays[i].after_step(now_ms));
        }
    }
}

/// Each call keeps the ledger balanced.
pub proof fn law_call_keeps_balance<T>(
    before: WheelState<T>,
    ledger: Ledger<T>,
    call: Call<T>,
    after: WheelState<T>,
    ledger_after: Ledger<T>,
)
    requires
        before.wf(),
        ledger.is_balanced(before),
        ledger.leads_to(before, call, after, ledger_after),
    ensures
        ledger_after.is_balanced(after),
{
    broadcast use group_to_multiset_ensures;

    let bins = before.slots.bins;
    match call {
        Call::Start(timeout_time_ms, data) => {
            let timer = Timer { id: before.slots.next_id(), timeout_time_ms, data };
            let bin = before.bin_from(0, timeout_time_ms);
            before.lemma_set_places(timeout_time_ms, data);
            lemma_pool_update(bins, bin, bins[bin].push(timer));
            assert(pool(after.slots.bins) =~= pool(bins).insert(timer)) by {
                assert forall|other: Timer<T>|
                    pool(after.slots.bins).count(other) == pool(bins).insert(timer).count(other) by {
                    assert(pool(after.slots.bins).add(bins[bin].to_multiset()).count(other)
                        == pool(bins).add(bins[bin].push(timer).to_multiset()).count(other));
                }
            }
        },
        Call::Stop(id) => {
            let (bin, i) = choose|bin: int, i: int|
                {
                    &&& #[trigger] before.slots.is_at(id, bin, i)
                    &&& after == WheelState { slots: before.slots.after_unset(bin, i), ..before }
                    &&& ledger_after == Ledger {
                        unset: ledger.unset.insert(before.slots.bins[bin][i]),
                        ..ledger
                    }
                };
            let timer = bins[bin][i];
            lemma_pool_update(bins, bin, bins[bin].remove(i));
            assert(bins[bin].to_multiset().count(timer) > 0);
            assert(pool(after.slots.bins).insert(timer) =~= pool(bins)) by {
                assert forall|other: Timer<T>|
                    pool(after.slots.bins).insert(timer).count(other) == pool(bins).count(other) by {
                    assert(pool(after.slots.bins).add(bins[bin].to_multiset()).count(other)
                        == pool(bins).add(bins[bin].remove(i).to_multiset()).count(other));
                }
            }
        },
        Call::Step(now_ms) => {
            law_step_keeps_all_timers(before, now_ms);
        },
    }
    assert(ledger_after.set =~= pool(after.slots.bins).add(ledger_after.unset).add(
        ledger_after.expired,
    ));
}

/// Over all calls, every timer which has been set is either pending, or has been unset, or has
/// expired, and each only once: no timer expires twice, nor once it has been unset.
pub proof fn law_every_timer_is_accounted_for<T>(
    wheels: Seq<WheelState<T>>,
    calls: Seq<Call<T>>,
    ledgers: Seq<Ledger<T>>,
)
    requires
        wheels.len() == calls.len() + 1,
        ledgers.len() == wheels.len(),
        forall|i: int| 0 <= i < wheels.len() ==> (#[trigger] wheels[i]).wf(),
        forall|bin: int|
            0 <= bin < wheels[0].slots.bins.len() ==> (#[trigger] wheels[0].slots.bins[bin]).len()
                == 0,
        ledgers[0] == Ledger::<T>::empty(),
        forall|i: int|
            0 <= i < calls.len() ==> ledgers[i].leads_to(
                wheels[i],
                #[trigger] calls[i],
                wheels[i + 1],
                ledgers[i + 1],
            ),
    ensures
        ledgers.last().is_balanced(wheels.last()),
    decreases calls.len(),
{
    if calls.len() == 0 {
        lemma_no_timers(wheels[0].slots.bins);
        assert(ledgers[0].set =~= pool(wheels[0].slots.bins).add(ledgers[0].unset).add(
            ledgers[0].expired,
        ));
    } else {
        let n = calls.len() - 1;
        let shorter = calls.drop_last();
        assert forall|i: int| 0 <= i < wheels.drop_last().len() implies (
        #[trigger] wheels.drop_last()[i]).wf() by {
            assert(wheels[i].wf());
        }
        assert forall|i: int| 0 <= i < shorter.len() implies ledgers.drop_last()[i].leads_to(
            wheels.drop_last()[i],
            #[trigger] shorter[i],
            wheels.drop_last()[i + 1],
            ledgers.drop_last()[i + 1],
        ) by {
            assert(shorter[i] == calls[i]);
        }
        law_every_timer_is_accounted_for(wheels.drop_last(), shorter, ledgers.drop_last());
        assert(wheels[n].wf());
        assert(ledgers[n].leads_to(wheels[n], calls[n], wheels[n + 1], ledgers[n + 1]));
        law_call_keeps_balance(wheels[n], ledgers[n], calls[n], wheels[n + 1], ledgers[n + 1]);
    }
}

proof fn lemma_no_timers<T>(bins: Seq<Seq<Timer<T>>>)
    requires
        forall|bin: int| 0 <= bin < bins.len() ==> (#[trigger] bins[bin]).len() == 0,
    ensures
        pool(bins) == Multiset::<Timer<T>>::empty(),
    decreases bins.len(),
{
    broadcast use group_to_multiset_ensures;

    if bins.len() > 0 {
        lemma_no_timers(bins.drop_last());
        assert(bins.last() =~= Seq::empty());
        assert(pool(bins) =~= Multiset::empty());
    }
}

} // verus!
