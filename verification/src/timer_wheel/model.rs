//! What a timer wheel does, as functions from states to states.

use vstd::arithmetic::div_mod::{
    lemma_div_is_ordered, lemma_fundamental_div_mod, lemma_fundamental_div_mod_converse,
    lemma_mod_bound,
};
use vstd::prelude::*;

use super::slots::{due, pending, SlotsState, Timer};

verus! {

/// One array of bins.
pub struct ArrayState {
    /// The number of the first bin.
    pub start: int,
    /// How many bins there are.
    pub size: int,
    /// How much time each bin covers.
    pub ms_per_bin: int,
    /// The first interval of time which has not passed yet.
    pub next: int,
}

impl ArrayState {
    /// The interval of time, counted in bins, in which a timer expires.
    pub open spec fn interval(self, time_ms: u64) -> int {
        time_ms as int / self.ms_per_bin
    }

    /// The bin for an interval of time.
    pub open spec fn bin(self, interval: int) -> int {
        self.start + interval % self.size
    }

    /// Whether an interval of time has a bin of its own.
    pub open spec fn reaches(self, interval: int) -> bool {
        interval - self.next < self.size
    }

    /// How many intervals which have not passed yet, and have bins of their own, have passed by
    /// now.
    pub open spec fn passed(self, now_ms: u64) -> int {
        if self.interval(now_ms) < self.next + self.size {
            self.interval(now_ms) - self.next
        } else {
            self.size
        }
    }

    pub open spec fn after_step(self, now_ms: u64) -> ArrayState {
        ArrayState { next: self.interval(now_ms), ..self }
    }

    pub open spec fn wf(self) -> bool {
        &&& 0 <= self.start
        &&& 1 <= self.size <= 0x8000_0000
        &&& 1 <= self.ms_per_bin <= 0x8000_0000
        &&& 0 <= self.next
    }
}

/// What a [`TimerWheel`](super::TimerWheel) holds.
pub struct WheelState<T> {
    pub arrays: Seq<ArrayState>,
    pub slots: SlotsState<T>,
    pub last_step_time_ms: u64,
}

/// Bins on the way through a step, and the timers which have expired.
pub struct Expiry<T> {
    pub slots: SlotsState<T>,
    pub expired: Seq<Timer<T>>,
}

impl<T> Expiry<T> {
    /// Lets one bin expire: all of it, or only those timers whose time has come.
    pub open spec fn after_bin(self, bin: int, all: bool, now_ms: u64) -> Expiry<T> {
        if all {
            Expiry {
                slots: self.slots.after_expire_all(bin),
                expired: self.expired + self.slots.bins[bin],
            }
        } else {
            Expiry {
                slots: self.slots.after_expire_expired(bin, now_ms),
                expired: self.expired + due(self.slots.bins[bin], now_ms),
            }
        }
    }

    /// Lets the first bins of an array expire, beginning with the first interval which has not
    /// passed yet.
    pub open spec fn after_bins(
        self,
        array: ArrayState,
        count: nat,
        all: bool,
        now_ms: u64,
    ) -> Expiry<T>
        decreases count,
    {
        if count == 0 {
            self
        } else {
            self.after_bins(array, (count - 1) as nat, all, now_ms).after_bin(
                array.bin(array.next + count - 1),
                all,
                now_ms,
            )
        }
    }

    /// Lets those bins of the first `n` arrays expire whose time has passed. In the last array of
    /// all, bins may hold timers for later rounds.
    pub open spec fn after_arrays(
        self,
        arrays: Seq<ArrayState>,
        n: nat,
        now_ms: u64,
    ) -> Expiry<T>
        decreases n,
    {
        if n == 0 {
            self
        } else {
            let array = arrays[n - 1];
            self.after_arrays(arrays, (n - 1) as nat, now_ms).after_bins(
                array,
                array.passed(now_ms) as nat,
                n < arrays.len(),
                now_ms,
            )
        }
    }
}

/// Whether the end of any interval that matters is a valid time.
pub open spec fn is_time(time_ms: u64) -> bool {
    time_ms < u64::MAX - 0x4000_0000_0000_0000
}

impl<T> WheelState<T> {
    pub open spec fn is_last(self, i: int) -> bool {
        i == self.arrays.len() - 1
    }

    /// Whether a timer is in the right place: its interval has not passed yet, and belongs to its
    /// bin. Only the last array holds timers which are further away than it reaches.
    pub open spec fn is_placed(self, timer: Timer<T>, i: int, bin: int) -> bool {
        let array = self.arrays[i];
        let interval = array.interval(timer.timeout_time_ms);
        &&& array.next <= interval
        &&& array.bin(interval) == bin
        &&& self.is_last(i) || array.reaches(interval)
    }

    pub open spec fn has_arrays(self) -> bool {
        &&& self.arrays.len() > 0
        &&& self.arrays[0].start == 0
        &&& self.arrays.last().start + self.arrays.last().size == self.slots.bins.len()
        &&& forall|i: int|
            0 <= i < self.arrays.len() ==> {
                &&& (#[trigger] self.arrays[i]).wf()
                &&& self.arrays[i].next <= self.arrays[i].interval(self.last_step_time_ms)
            }
        &&& forall|i: int, j: int|
            0 <= i < j < self.arrays.len() ==> (#[trigger] self.arrays[i]).start
                + self.arrays[i].size <= (#[trigger] self.arrays[j]).start
    }

    /// Whether the arrays follow one another without gaps.
    pub open spec fn is_gapless(self) -> bool {
        forall|i: int|
            0 < i < self.arrays.len() ==> (#[trigger] self.arrays[i]).start == self.arrays[i
                - 1].start + self.arrays[i - 1].size
    }

    pub open spec fn wf(self) -> bool {
        &&& self.has_arrays()
        &&& self.is_gapless()
        &&& is_time(self.last_step_time_ms)
        &&& self.slots.has_unique_ids()
        &&& self.has_places()
    }

    /// Whether all timers are in the right places.
    pub open spec fn has_places(self) -> bool {
        forall|i: int, bin: int, k: int|
            #![trigger self.arrays[i], self.slots.bins[bin][k]]
            0 <= i < self.arrays.len() && self.arrays[i].start <= bin < self.arrays[i].start
                + self.arrays[i].size && 0 <= k < self.slots.bins[bin].len() ==> self.is_placed(
                self.slots.bins[bin][k],
                i,
                bin,
            )
    }

    /// The bin for a timer, where only arrays from the `i`th on are considered.
    pub open spec fn bin_from(self, i: int, timeout_time_ms: u64) -> int
        decreases self.arrays.len() - i,
    {
        let array = self.arrays[i];
        let interval = array.interval(timeout_time_ms);
        if i >= self.arrays.len() - 1 || array.reaches(interval) {
            array.bin(interval)
        } else {
            self.bin_from(i + 1, timeout_time_ms)
        }
    }

    pub open spec fn after_set(self, timeout_time_ms: u64, data: T) -> WheelState<T> {
        WheelState {
            slots: self.slots.after_set(
                self.bin_from(0, timeout_time_ms),
                timeout_time_ms,
                data,
            ),
            ..self
        }
    }

    /// What a step does to the bins, and what expires.
    pub open spec fn expiry(self, now_ms: u64) -> Expiry<T> {
        Expiry { slots: self.slots, expired: Seq::empty() }.after_arrays(
            self.arrays,
            self.arrays.len(),
            now_ms,
        )
    }

    pub open spec fn after_step(self, now_ms: u64) -> WheelState<T> {
        WheelState {
            arrays: self.arrays.map_values(|array: ArrayState| array.after_step(now_ms)),
            slots: self.expiry(now_ms).slots,
            last_step_time_ms: now_ms,
        }
    }

    /// The end of the first interval whose bin is not empty, where only intervals from the `k`th on
    /// are considered.
    pub open spec fn end_from(self, array: ArrayState, k: int) -> Option<int>
        decreases array.size - k,
    {
        if k >= array.size {
            None
        } else if self.slots.bins[array.bin(array.next + k)].len() > 0 {
            Some((array.interval(self.last_step_time_ms) + k + 1) * array.ms_per_bin)
        } else {
            self.end_from(array, k + 1)
        }
    }

    /// The earliest end of an interval whose bin is not empty, over the first `n` arrays.
    pub open spec fn next_expiration(self, n: int) -> Option<int>
        decreases n,
    {
        if n <= 0 {
            None
        } else {
            match (self.next_expiration(n - 1), self.end_from(self.arrays[n - 1], 0)) {
                (Some(a), Some(b)) => Some(
                    if b < a {
                        b
                    } else {
                        a
                    },
                ),
                (Some(a), None) => Some(a),
                (None, b) => b,
            }
        }
    }
}

/// Numbers which are close to each other have different remainders.
proof fn lemma_mod_distinct(a: int, b: int, m: int)
    requires
        0 < b - a < m,
    ensures
        a % m != b % m,
{
    lemma_fundamental_div_mod(a, m);
    lemma_fundamental_div_mod(b, m);
    if a % m == b % m {
        let q = b / m - a / m;
        assert(b - a == m * q) by (nonlinear_arith)
            requires
                a == m * (a / m) + a % m,
                b == m * (b / m) + b % m,
                a % m == b % m,
                q == b / m - a / m,
        ;
        assert(q <= 0 || m * q >= m) by (nonlinear_arith)
            requires
                m > 0,
        ;
        assert(q <= 0 ==> m * q <= 0) by (nonlinear_arith)
            requires
                m > 0,
        ;
    }
}

/// Every remainder occurs among as many consecutive numbers as there are remainders.
proof fn lemma_mod_occurs(next: int, interval: int, m: int) -> (k: int)
    requires
        m > 0,
        next <= interval,
    ensures
        0 <= k < m,
        (next + k) % m == interval % m,
{
    let d = interval - next;
    let k = d % m;
    lemma_mod_bound(d, m);
    lemma_fundamental_div_mod(d, m);
    lemma_fundamental_div_mod(interval, m);
    let q = interval / m - d / m;
    assert(next + k == q * m + interval % m) by (nonlinear_arith)
        requires
            d == m * (d / m) + d % m,
            interval == m * (interval / m) + interval % m,
            d == interval - next,
            k == d % m,
            q == interval / m - d / m,
    ;
    lemma_mod_bound(interval, m);
    lemma_fundamental_div_mod_converse(next + k, m, q, interval % m);
    k
}

/// Whether a bin is that of one of the first intervals of an array.
pub open spec fn is_passed(array: ArrayState, count: int, bin: int) -> bool {
    exists|k: int| 0 <= k < count && #[trigger] array.bin(array.next + k) == bin
}

/// What is left of a bin.
pub open spec fn rest_of<T>(timers: Seq<Timer<T>>, all: bool, now_ms: u64) -> Seq<Timer<T>> {
    if all {
        Seq::empty()
    } else {
        pending(timers, now_ms)
    }
}

proof fn lemma_after_bins<T>(
    before: Expiry<T>,
    array: ArrayState,
    count: nat,
    all: bool,
    now_ms: u64,
)
    requires
        array.wf(),
        count <= array.size,
        array.start + array.size <= before.slots.bins.len(),
    ensures
        ({
            let after = before.after_bins(array, count, all, now_ms);
            &&& after.slots.bins.len() == before.slots.bins.len()
            &&& forall|bin: int|
                0 <= bin < before.slots.bins.len() ==> #[trigger] after.slots.bins[bin] == if is_passed(
                    array,
                    count as int,
                    bin,
                ) {
                    rest_of(before.slots.bins[bin], all, now_ms)
                } else {
                    before.slots.bins[bin]
                }
        }),
    decreases count,
{
    if count > 0 {
        let shorter = (count - 1) as nat;
        lemma_after_bins(before, array, shorter, all, now_ms);
        let middle = before.after_bins(array, shorter, all, now_ms);
        let after = before.after_bins(array, count, all, now_ms);
        let last = array.bin(array.next + count - 1);
        lemma_mod_bound(array.next + count - 1, array.size);
        assert(!is_passed(array, shorter as int, last)) by {
            if is_passed(array, shorter as int, last) {
                let k = choose|k: int|
                    0 <= k < shorter && #[trigger] array.bin(array.next + k) == last;
                lemma_mod_distinct(array.next + k, array.next + count - 1, array.size);
            }
        }
        assert forall|bin: int| 0 <= bin < before.slots.bins.len() implies #[trigger] after.slots.bins[bin]
            == if is_passed(array, count as int, bin) {
            rest_of(before.slots.bins[bin], all, now_ms)
        } else {
            before.slots.bins[bin]
        } by {
            if bin == last {
                assert(array.bin(array.next + (count - 1)) == bin);
                assert(is_passed(array, count as int, bin));
            } else {
                if is_passed(array, shorter as int, bin) {
                    let k = choose|k: int|
                        0 <= k < shorter && #[trigger] array.bin(array.next + k) == bin;
                    assert(array.bin(array.next + k) == bin);
                } else if is_passed(array, count as int, bin) {
                    let k = choose|k: int|
                        0 <= k < count && #[trigger] array.bin(array.next + k) == bin;
                    assert(k < shorter);
                }
                assert(after.slots.bins[bin] == middle.slots.bins[bin]);
            }
        }
    }
}

proof fn lemma_bin_range(array: ArrayState, interval: int)
    requires
        array.wf(),
    ensures
        array.start <= array.bin(interval) < array.start + array.size,
{
    lemma_mod_bound(interval, array.size);
}

impl<T> WheelState<T> {
    pub(crate) proof fn lemma_array_end(self, i: int)
        requires
            self.has_arrays(),
            0 <= i < self.arrays.len(),
        ensures
            0 <= self.arrays[i].start,
            self.arrays[i].start + self.arrays[i].size <= self.slots.bins.len(),
    {
        let last = self.arrays.len() - 1;
        assert(self.arrays[last].wf());
        if i < last {
            assert(self.arrays[i].start + self.arrays[i].size <= self.arrays[last].start);
        }
    }

    /// What is left of each bin once the first `n` arrays have been dealt with.
    proof fn lemma_after_arrays(self, n: nat, now_ms: u64)
        requires
            self.has_arrays(),
            self.last_step_time_ms <= now_ms,
            n <= self.arrays.len(),
        ensures
            ({
                let start = Expiry { slots: self.slots, expired: Seq::empty() };
                let after = start.after_arrays(self.arrays, n, now_ms);
                &&& after.slots.bins.len() == self.slots.bins.len()
                &&& forall|i: int, bin: int|
                    #![trigger self.arrays[i], after.slots.bins[bin]]
                    0 <= i < self.arrays.len() && self.arrays[i].start <= bin
                        < self.arrays[i].start + self.arrays[i].size ==> after.slots.bins[bin]
                        == if i < n && is_passed(
                        self.arrays[i],
                        self.arrays[i].passed(now_ms),
                        bin,
                    ) {
                        rest_of(self.slots.bins[bin], !self.is_last(i), now_ms)
                    } else {
                        self.slots.bins[bin]
                    }
            }),
        decreases n,
    {
        if n > 0 {
            let start = Expiry { slots: self.slots, expired: Seq::empty() };
            let before = start.after_arrays(self.arrays, (n - 1) as nat, now_ms);
            let after = start.after_arrays(self.arrays, n, now_ms);
            self.lemma_after_arrays((n - 1) as nat, now_ms);
            let j = n - 1;
            let array = self.arrays[j];
            self.lemma_array_end(j);
            self.lemma_passed(j, now_ms);
            lemma_after_bins(
                before,
                array,
                array.passed(now_ms) as nat,
                n < self.arrays.len(),
                now_ms,
            );
            assert forall|i: int, bin: int|
                #![trigger self.arrays[i], after.slots.bins[bin]]
                0 <= i < self.arrays.len() && self.arrays[i].start <= bin < self.arrays[i].start
                    + self.arrays[i].size implies after.slots.bins[bin] == if i < n && is_passed(
                self.arrays[i],
                self.arrays[i].passed(now_ms),
                bin,
            ) {
                rest_of(self.slots.bins[bin], !self.is_last(i), now_ms)
            } else {
                self.slots.bins[bin]
            } by {
                self.lemma_array_end(i);
                assert(before.slots.bins[bin] == before.slots.bins[bin]);
                if i != j {
                    if is_passed(array, array.passed(now_ms), bin) {
                        let k = choose|k: int|
                            0 <= k < array.passed(now_ms) && #[trigger] array.bin(array.next + k)
                                == bin;
                        lemma_bin_range(array, array.next + k);
                        if i < j {
                            assert(self.arrays[i].start + self.arrays[i].size
                                <= self.arrays[j].start);
                        } else {
                            assert(self.arrays[j].start + self.arrays[j].size
                                <= self.arrays[i].start);
                        }
                    }
                }
            }
        }
    }

    pub(crate) proof fn lemma_passed(self, i: int, now_ms: u64)
        requires
            self.has_arrays(),
            self.last_step_time_ms <= now_ms,
            0 <= i < self.arrays.len(),
        ensures
            self.arrays[i].next <= self.arrays[i].interval(now_ms),
            0 <= self.arrays[i].passed(now_ms) <= self.arrays[i].size,
    {
        let array = self.arrays[i];
        assert(array.wf());
        lemma_div_is_ordered(self.last_step_time_ms as int, now_ms as int, array.ms_per_bin);
    }
}

proof fn lemma_pending<T>(timers: Seq<Timer<T>>, now_ms: u64)
    ensures
        forall|k: int|
            0 <= k < pending(timers, now_ms).len() ==> {
                &&& (#[trigger] pending(timers, now_ms)[k]).timeout_time_ms > now_ms
                &&& timers.contains(pending(timers, now_ms)[k])
            },
        forall|k: int|
            0 <= k < due(timers, now_ms).len() ==> {
                &&& (#[trigger] due(timers, now_ms)[k]).timeout_time_ms <= now_ms
                &&& timers.contains(due(timers, now_ms)[k])
            },
        forall|k: int|
            0 <= k < timers.len() ==> if (#[trigger] timers[k]).timeout_time_ms <= now_ms {
                due(timers, now_ms).contains(timers[k])
            } else {
                pending(timers, now_ms).contains(timers[k])
            },
    decreases timers.len(),
{
    if timers.len() > 0 {
        let shorter = timers.drop_last();
        lemma_pending(shorter, now_ms);
        let n = timers.len() - 1;
        let (p, d) = (pending(timers, now_ms), due(timers, now_ms));
        let (p0, d0) = (pending(shorter, now_ms), due(shorter, now_ms));
        assert forall|k: int| 0 <= k < p.len() implies {
            &&& (#[trigger] p[k]).timeout_time_ms > now_ms
            &&& timers.contains(p[k])
        } by {
            if k < p0.len() {
                assert(p[k] == p0[k]);
                let j = choose|j: int| 0 <= j < shorter.len() && shorter[j] == p0[k];
                assert(timers[j] == p[k]);
            } else {
                assert(timers[n] == p[k]);
            }
        }
        assert forall|k: int| 0 <= k < d.len() implies {
            &&& (#[trigger] d[k]).timeout_time_ms <= now_ms
            &&& timers.contains(d[k])
        } by {
            if k < d0.len() {
                assert(d[k] == d0[k]);
                let j = choose|j: int| 0 <= j < shorter.len() && shorter[j] == d0[k];
                assert(timers[j] == d[k]);
            } else {
                assert(timers[n] == d[k]);
            }
        }
        assert forall|k: int| 0 <= k < timers.len() implies if (
        #[trigger] timers[k]).timeout_time_ms <= now_ms {
            d.contains(timers[k])
        } else {
            p.contains(timers[k])
        } by {
            if k < n {
                assert(shorter[k] == timers[k]);
                if timers[k].timeout_time_ms <= now_ms {
                    let j = choose|j: int| 0 <= j < d0.len() && d0[j] == timers[k];
                    assert(d[j] == timers[k]);
                } else {
                    let j = choose|j: int| 0 <= j < p0.len() && p0[j] == timers[k];
                    assert(p[j] == timers[k]);
                }
            } else if timers[k].timeout_time_ms <= now_ms {
                assert(d[d.len() - 1] == timers[k]);
            } else {
                assert(p[p.len() - 1] == timers[k]);
            }
        }
    }
}

impl<T> WheelState<T> {
    /// After a step, all timers which are left are in the right places.
    pub(crate) proof fn lemma_step_places(self, now_ms: u64)
        requires
            self.has_arrays(),
            self.has_places(),
            self.last_step_time_ms <= now_ms,
        ensures
            self.after_step(now_ms).has_arrays(),
            self.after_step(now_ms).has_places(),
            self.after_step(now_ms).slots.bins.len() == self.slots.bins.len(),
    {
        let after = self.after_step(now_ms);
        self.lemma_after_arrays(self.arrays.len(), now_ms);
        assert forall|i: int| 0 <= i < after.arrays.len() implies {
            &&& (#[trigger] after.arrays[i]).wf()
            &&& after.arrays[i].next <= after.arrays[i].interval(now_ms)
        } by {
            self.lemma_passed(i, now_ms);
            assert(self.arrays[i].wf());
        }
        assert forall|i: int, j: int| 0 <= i < j < after.arrays.len() implies (
        #[trigger] after.arrays[i]).start + after.arrays[i].size <= (
        #[trigger] after.arrays[j]).start by {
            assert(self.arrays[i].start + self.arrays[i].size <= self.arrays[j].start);
        }
        assert forall|i: int, bin: int, k: int|
            #![trigger after.arrays[i], after.slots.bins[bin][k]]
            0 <= i < after.arrays.len() && after.arrays[i].start <= bin < after.arrays[i].start
                + after.arrays[i].size && 0 <= k < after.slots.bins[bin].len() implies after.is_placed(
            after.slots.bins[bin][k],
            i,
            bin,
        ) by {
            self.lemma_timer_left(i, bin, k, now_ms);
        }
    }

    /// A timer which is left has been there before, and its interval has not passed.
    proof fn lemma_timer_left(self, i: int, bin: int, k: int, now_ms: u64)
        requires
            self.has_arrays(),
            self.has_places(),
            self.last_step_time_ms <= now_ms,
            0 <= i < self.arrays.len(),
            self.arrays[i].start <= bin < self.arrays[i].start + self.arrays[i].size,
            0 <= k < self.after_step(now_ms).slots.bins[bin].len(),
        ensures
            self.after_step(now_ms).is_placed(self.after_step(now_ms).slots.bins[bin][k], i, bin),
            self.slots.bins[bin].contains(self.after_step(now_ms).slots.bins[bin][k]),
    {
        let after = self.after_step(now_ms);
        let array = self.arrays[i];
        let timer = after.slots.bins[bin][k];
        self.lemma_after_arrays(self.arrays.len(), now_ms);
        self.lemma_passed(i, now_ms);
        assert(after.arrays[i] == array.after_step(now_ms));
        assert(after.slots.bins[bin] == if is_passed(array, array.passed(now_ms), bin) {
            rest_of(self.slots.bins[bin], !self.is_last(i), now_ms)
        } else {
            self.slots.bins[bin]
        });
        lemma_pending(self.slots.bins[bin], now_ms);
        let j = if is_passed(array, array.passed(now_ms), bin) {
            choose|j: int| 0 <= j < self.slots.bins[bin].len() && self.slots.bins[bin][j] == timer
        } else {
            k
        };
        assert(self.slots.bins[bin][j] == timer);
        assert(self.is_placed(self.slots.bins[bin][j], i, bin));
        let interval = array.interval(timer.timeout_time_ms);
        if interval < array.interval(now_ms) {
            if timer.timeout_time_ms > now_ms {
                assert(array.wf());
                lemma_div_is_ordered(
                    now_ms as int,
                    timer.timeout_time_ms as int,
                    array.ms_per_bin,
                );
            }
            if array.passed(now_ms) < array.size {
                assert(array.bin(array.next + (interval - array.next)) == bin);
                assert(is_passed(array, array.passed(now_ms), bin));
            } else {
                let m = lemma_mod_occurs(array.next, interval, array.size);
                assert(array.bin(array.next + m) == bin);
                assert(is_passed(array, array.passed(now_ms), bin));
            }
        }
    }

    /// Whether a timer is among those which expire in a bin of the first `n` arrays.
    spec fn leaves(self, n: int, timer: Timer<T>, i: int, bin: int, now_ms: u64) -> bool {
        &&& 0 <= i < n
        &&& self.arrays[i].start <= bin < self.arrays[i].start + self.arrays[i].size
        &&& is_passed(self.arrays[i], self.arrays[i].passed(now_ms), bin)
        &&& self.slots.bins[bin].contains(timer)
        &&& self.is_last(i) ==> timer.timeout_time_ms <= now_ms
    }

    spec fn leaves_anywhere(self, n: int, timer: Timer<T>, now_ms: u64) -> bool {
        exists|i: int, bin: int| #[trigger] self.leaves(n, timer, i, bin, now_ms)
    }

    /// Timers expire if and only if they are in a bin whose interval has passed, and, in the last
    /// array, their time has come.
    proof fn lemma_expired(self, n: nat, now_ms: u64)
        requires
            self.has_arrays(),
            self.last_step_time_ms <= now_ms,
            n <= self.arrays.len(),
        ensures
            ({
                let start = Expiry { slots: self.slots, expired: Seq::empty() };
                let expired = start.after_arrays(self.arrays, n, now_ms).expired;
                &&& forall|k: int|
                    0 <= k < expired.len() ==> self.leaves_anywhere(
                        n as int,
                        #[trigger] expired[k],
                        now_ms,
                    )
                &&& forall|timer: Timer<T>, i: int, bin: int| #[trigger]
                    self.leaves(n as int, timer, i, bin, now_ms) ==> expired.contains(timer)
            }),
        decreases n,
    {
        let start = Expiry { slots: self.slots, expired: Seq::empty() };
        if n > 0 {
            let m = (n - 1) as nat;
            let j = n - 1;
            let array = self.arrays[j];
            let all = n < self.arrays.len();
            self.lemma_expired(m, now_ms);
            self.lemma_after_arrays(m, now_ms);
            self.lemma_passed(j, now_ms);
            self.lemma_array_end(j);
            let before = start.after_arrays(self.arrays, m, now_ms);
            let count = array.passed(now_ms) as nat;
            let expired = before.after_bins(array, count, all, now_ms).expired;
            assert forall|bin: int|
                array.start <= bin < array.start + array.size implies #[trigger] before.slots.bins[bin]
                == self.slots.bins[bin] by {
                assert(self.arrays[j] == array);
            }
            lemma_bins_expired(before, array, count, all, now_ms);
            assert forall|k: int| 0 <= k < expired.len() implies self.leaves_anywhere(
                n as int,
                #[trigger] expired[k],
                now_ms,
            ) by {
                if before.expired.contains(expired[k]) {
                    let k0 = choose|k0: int|
                        0 <= k0 < before.expired.len() && before.expired[k0] == expired[k];
                    let (i, bin) = choose|i: int, bin: int| #[trigger]
                        self.leaves(m as int, before.expired[k0], i, bin, now_ms);
                    assert(self.leaves(n as int, expired[k], i, bin, now_ms));
                } else {
                    let bin = choose|bin: int| #[trigger]
                        leaves_bin(before, array, count as int, all, now_ms, expired[k], bin);
                    assert(self.leaves(n as int, expired[k], j, bin, now_ms));
                }
            }
            assert forall|timer: Timer<T>, i: int, bin: int| #[trigger]
                self.leaves(n as int, timer, i, bin, now_ms) implies expired.contains(timer) by {
                if i < j {
                    assert(self.leaves(m as int, timer, i, bin, now_ms));
                    assert(before.expired.contains(timer));
                } else {
                    assert(leaves_bin(before, array, count as int, all, now_ms, timer, bin));
                }
            }
        }
    }
}

/// Whether a timer is among those which expire in a bin.
spec fn leaves_bin<T>(
    before: Expiry<T>,
    array: ArrayState,
    count: int,
    all: bool,
    now_ms: u64,
    timer: Timer<T>,
    bin: int,
) -> bool {
    &&& array.start <= bin < array.start + array.size
    &&& is_passed(array, count, bin)
    &&& before.slots.bins[bin].contains(timer)
    &&& all || timer.timeout_time_ms <= now_ms
}

proof fn lemma_bins_expired<T>(
    before: Expiry<T>,
    array: ArrayState,
    count: nat,
    all: bool,
    now_ms: u64,
)
    requires
        array.wf(),
        count <= array.size,
        array.start + array.size <= before.slots.bins.len(),
    ensures
        ({
            let expired = before.after_bins(array, count, all, now_ms).expired;
            &&& forall|k: int|
                0 <= k < expired.len() ==> before.expired.contains(#[trigger] expired[k]) || exists|
                    bin: int,
                | #[trigger]
                    leaves_bin(before, array, count as int, all, now_ms, expired[k], bin)
            &&& forall|timer: Timer<T>|
                before.expired.contains(timer) ==> #[trigger] expired.contains(timer)
            &&& forall|timer: Timer<T>, bin: int| #[trigger]
                leaves_bin(before, array, count as int, all, now_ms, timer, bin)
                    ==> expired.contains(timer)
        }),
    decreases count,
{
    let expired = before.after_bins(array, count, all, now_ms).expired;
    if count > 0 {
        let m = (count - 1) as nat;
        lemma_bins_expired(before, array, m, all, now_ms);
        lemma_after_bins(before, array, m, all, now_ms);
        let middle = before.after_bins(array, m, all, now_ms);
        let last = array.bin(array.next + count - 1);
        lemma_bin_range(array, array.next + count - 1);
        assert(!is_passed(array, m as int, last)) by {
            if is_passed(array, m as int, last) {
                let k = choose|k: int| 0 <= k < m && #[trigger] array.bin(array.next + k) == last;
                lemma_mod_distinct(array.next + k, array.next + count - 1, array.size);
            }
        }
        let timers = before.slots.bins[last];
        assert(middle.slots.bins[last] == timers);
        lemma_pending(timers, now_ms);
        let new = if all {
            timers
        } else {
            due(timers, now_ms)
        };
        assert(expired == middle.expired + new);
        assert(array.bin(array.next + (count - 1)) == last);
        assert(is_passed(array, count as int, last));
        assert forall|k: int| 0 <= k < expired.len() implies before.expired.contains(
            #[trigger] expired[k],
        ) || exists|bin: int| #[trigger]
            leaves_bin(before, array, count as int, all, now_ms, expired[k], bin) by {
            if k < middle.expired.len() {
                assert(expired[k] == middle.expired[k]);
                if !before.expired.contains(expired[k]) {
                    let bin = choose|bin: int| #[trigger]
                        leaves_bin(before, array, m as int, all, now_ms, middle.expired[k], bin);
                    let j = choose|j: int| 0 <= j < m && #[trigger] array.bin(array.next + j) == bin;
                    assert(array.bin(array.next + j) == bin);
                    assert(leaves_bin(before, array, count as int, all, now_ms, expired[k], bin));
                }
            } else {
                assert(expired[k] == new[k - middle.expired.len()]);
                assert(timers.contains(expired[k]));
                assert(leaves_bin(before, array, count as int, all, now_ms, expired[k], last));
            }
        }
        assert forall|timer: Timer<T>| middle.expired.contains(timer) || new.contains(
            timer,
        ) implies #[trigger] expired.contains(timer) by {
            if middle.expired.contains(timer) {
                let k = choose|k: int| 0 <= k < middle.expired.len() && middle.expired[k] == timer;
                assert(expired[k] == timer);
            } else {
                let k = choose|k: int| 0 <= k < new.len() && new[k] == timer;
                assert(expired[middle.expired.len() + k] == timer);
            }
        }
        assert forall|timer: Timer<T>, bin: int| #[trigger]
            leaves_bin(before, array, count as int, all, now_ms, timer, bin) implies expired.contains(
            timer,
        ) by {
            if bin == last {
                let k = choose|k: int| 0 <= k < timers.len() && timers[k] == timer;
                assert(timers[k] == timer);
                assert(new.contains(timer));
            } else {
                let k = choose|k: int| 0 <= k < count && #[trigger] array.bin(array.next + k) == bin;
                assert(k < m);
                assert(leaves_bin(before, array, m as int, all, now_ms, timer, bin));
            }
        }
    }
}

/// A timer which an array reaches is put into a bin of this array, or of one before it. (The bins
/// of the first arrays are the finest.)
pub proof fn law_near_timers_get_fine_bins<T>(
    wheel: WheelState<T>,
    timeout_time_ms: u64,
    data: T,
    i: int,
) -> (j: int)
    requires
        wheel.wf(),
        wheel.slots.has_room(),
        0 <= i < wheel.arrays.len(),
        wheel.arrays[i].reaches(wheel.arrays[i].interval(timeout_time_ms)),
    ensures
        0 <= j <= i,
        ({
            let after = wheel.after_set(timeout_time_ms, data);
            let array = wheel.arrays[j];
            exists|bin: int|
                {
                    &&& array.start <= bin < array.start + array.size
                    &&& #[trigger] after.slots.bins[bin] == wheel.slots.bins[bin].push(
                        Timer { id: wheel.slots.next_id(), timeout_time_ms, data },
                    )
                }
        }),
{
    let j = lemma_bin_from(wheel, 0, i, timeout_time_ms);
    let bin = wheel.bin_from(0, timeout_time_ms);
    wheel.lemma_array_end(j);
    let after = wheel.after_set(timeout_time_ms, data);
    assert(after.slots.bins[bin] == wheel.slots.bins[bin].push(
        Timer { id: wheel.slots.next_id(), timeout_time_ms, data },
    ));
    j
}

proof fn lemma_bin_from<T>(wheel: WheelState<T>, k: int, i: int, timeout_time_ms: u64) -> (j: int)
    requires
        wheel.wf(),
        0 <= k <= i < wheel.arrays.len(),
        wheel.arrays[i].reaches(wheel.arrays[i].interval(timeout_time_ms)),
    ensures
        k <= j <= i,
        wheel.arrays[j].start <= wheel.bin_from(k, timeout_time_ms) < wheel.arrays[j].start
            + wheel.arrays[j].size,
    decreases i - k,
{
    let array = wheel.arrays[k];
    let interval = array.interval(timeout_time_ms);
    assert(array.wf());
    if k >= wheel.arrays.len() - 1 || array.reaches(interval) {
        lemma_mod_bound(interval, array.size);
        k
    } else {
        lemma_bin_from(wheel, k + 1, i, timeout_time_ms)
    }
}

/// No timer expires before its time.
pub proof fn law_never_early<T>(wheel: WheelState<T>, now_ms: u64, k: int)
    requires
        wheel.wf(),
        wheel.last_step_time_ms <= now_ms,
        0 <= k < wheel.expiry(now_ms).expired.len(),
    ensures
        wheel.expiry(now_ms).expired[k].timeout_time_ms <= now_ms,
{
    let timer = wheel.expiry(now_ms).expired[k];
    wheel.lemma_expired(wheel.arrays.len(), now_ms);
    let (i, bin) = choose|i: int, bin: int| #[trigger]
        wheel.leaves(wheel.arrays.len() as int, timer, i, bin, now_ms);
    let array = wheel.arrays[i];
    assert(array.wf());
    let j = choose|j: int| 0 <= j < wheel.slots.bins[bin].len() && wheel.slots.bins[bin][j] == timer;
    assert(wheel.is_placed(wheel.slots.bins[bin][j], i, bin));
    if !wheel.is_last(i) {
        let m = choose|m: int|
            0 <= m < array.passed(now_ms) && #[trigger] array.bin(array.next + m) == bin;
        let interval = array.interval(timer.timeout_time_ms);
        wheel.lemma_passed(i, now_ms);
        if interval < array.next + m {
            lemma_mod_distinct(interval, array.next + m, array.size);
        } else if interval > array.next + m {
            lemma_mod_distinct(array.next + m, interval, array.size);
        }
        if timer.timeout_time_ms > now_ms {
            lemma_div_is_ordered(now_ms as int, timer.timeout_time_ms as int, array.ms_per_bin);
        }
    }
}

/// A timer which has not expired after a step is due in the interval of its array in which the step
/// took place, or later.
pub proof fn law_never_late<T>(wheel: WheelState<T>, now_ms: u64, i: int, bin: int, k: int)
    requires
        wheel.wf(),
        wheel.last_step_time_ms <= now_ms,
        0 <= i < wheel.arrays.len(),
        wheel.arrays[i].start <= bin < wheel.arrays[i].start + wheel.arrays[i].size,
        0 <= k < wheel.after_step(now_ms).slots.bins[bin].len(),
    ensures
        now_ms < wheel.after_step(now_ms).slots.bins[bin][k].timeout_time_ms
            + wheel.arrays[i].ms_per_bin,
{
    let timer = wheel.after_step(now_ms).slots.bins[bin][k];
    let array = wheel.arrays[i];
    assert(array.wf());
    wheel.lemma_timer_left(i, bin, k, now_ms);
    let (t, n, m) = (timer.timeout_time_ms as int, now_ms as int, array.ms_per_bin);
    lemma_fundamental_div_mod(t, m);
    lemma_fundamental_div_mod(n, m);
    lemma_mod_bound(t, m);
    lemma_mod_bound(n, m);
    assert(n < t + m) by (nonlinear_arith)
        requires
            t == m * (t / m) + t % m,
            n == m * (n / m) + n % m,
            0 <= t % m,
            n % m < m,
            n / m <= t / m,
            m > 0,
    ;
}

/// Each timer either stays where it is, or expires, and not both.
pub proof fn law_stays_or_expires<T>(wheel: WheelState<T>, now_ms: u64, bin: int, k: int)
    requires
        wheel.wf(),
        wheel.last_step_time_ms <= now_ms,
        0 <= bin < wheel.slots.bins.len(),
        0 <= k < wheel.slots.bins[bin].len(),
    ensures
        wheel.after_step(now_ms).slots.bins[bin].contains(wheel.slots.bins[bin][k])
            != wheel.expiry(now_ms).expired.contains(wheel.slots.bins[bin][k]),
{
    let timer = wheel.slots.bins[bin][k];
    let i = wheel.lemma_array_of(bin);
    let array = wheel.arrays[i];
    wheel.lemma_expired(wheel.arrays.len(), now_ms);
    wheel.lemma_after_arrays(wheel.arrays.len(), now_ms);
    lemma_pending(wheel.slots.bins[bin], now_ms);
    let expired = wheel.expiry(now_ms).expired;
    let left = wheel.after_step(now_ms).slots.bins[bin];
    let n = wheel.arrays.len() as int;
    assert(left == if is_passed(array, array.passed(now_ms), bin) {
        rest_of(wheel.slots.bins[bin], !wheel.is_last(i), now_ms)
    } else {
        wheel.slots.bins[bin]
    });
    if expired.contains(timer) {
        let e = choose|e: int| 0 <= e < expired.len() && expired[e] == timer;
        let (i2, bin2) = choose|i2: int, bin2: int| #[trigger]
            wheel.leaves(n, expired[e], i2, bin2, now_ms);
        let k2 = choose|k2: int|
            0 <= k2 < wheel.slots.bins[bin2].len() && wheel.slots.bins[bin2][k2] == timer;
        wheel.lemma_array_end(i2);
        assert(wheel.slots.is_at(timer.id, bin, k) && wheel.slots.is_at(timer.id, bin2, k2));
        if i < i2 {
            assert(wheel.arrays[i].start + wheel.arrays[i].size <= wheel.arrays[i2].start);
        } else if i2 < i {
            assert(wheel.arrays[i2].start + wheel.arrays[i2].size <= wheel.arrays[i].start);
        }
        if left.contains(timer) {
            let l = choose|l: int| 0 <= l < left.len() && left[l] == timer;
            assert(left[l].timeout_time_ms > now_ms);
        }
    } else {
        assert(!wheel.leaves(n, timer, i, bin, now_ms));
        assert(wheel.slots.bins[bin][k] == timer);
    }
}

impl<T> WheelState<T> {
    /// Each bin is in some array.
    pub(crate) proof fn lemma_array_of(self, bin: int) -> (i: int)
        requires
            self.has_arrays(),
            self.is_gapless(),
            0 <= bin < self.slots.bins.len(),
        ensures
            0 <= i < self.arrays.len(),
            self.arrays[i].start <= bin < self.arrays[i].start + self.arrays[i].size,
    {
        self.lemma_array_before(self.arrays.len() as int, bin)
    }

    proof fn lemma_array_before(self, n: int, bin: int) -> (i: int)
        requires
            self.has_arrays(),
            self.is_gapless(),
            0 < n <= self.arrays.len(),
            0 <= bin < self.arrays[n - 1].start + self.arrays[n - 1].size,
        ensures
            0 <= i < self.arrays.len(),
            self.arrays[i].start <= bin < self.arrays[i].start + self.arrays[i].size,
        decreases n,
    {
        if self.arrays[n - 1].start <= bin {
            n - 1
        } else {
            assert(self.arrays[n - 2].start + self.arrays[n - 2].size == self.arrays[n - 1].start);
            self.lemma_array_before(n - 1, bin)
        }
    }
}

impl<T> WheelState<T> {
    /// Whether all arrays are up to date with the last step.
    pub open spec fn is_current(self) -> bool {
        forall|i: int|
            0 <= i < self.arrays.len() ==> (#[trigger] self.arrays[i]).next
                == self.arrays[i].interval(self.last_step_time_ms)
    }

    /// A bin which is not empty is not later than the first one.
    proof fn lemma_end_from(self, array: ArrayState, k: int, m: int)
        requires
            array.wf(),
            0 <= k <= m < array.size,
            self.slots.bins[array.bin(array.next + m)].len() > 0,
        ensures
            self.end_from(array, k) matches Some(end) && end <= (array.interval(
                self.last_step_time_ms,
            ) + m + 1) * array.ms_per_bin,
        decreases m - k,
    {
        if self.slots.bins[array.bin(array.next + k)].len() > 0 {
            let base = array.interval(self.last_step_time_ms);
            let ms = array.ms_per_bin;
            assert((base + k + 1) * ms <= (base + m + 1) * ms) by (nonlinear_arith)
                requires
                    k <= m,
                    ms > 0,
            ;
        } else {
            self.lemma_end_from(array, k + 1, m);
        }
    }

    proof fn lemma_next_expiration(self, n: int, i: int)
        requires
            0 <= i < n <= self.arrays.len(),
        ensures
            self.end_from(self.arrays[i], 0) matches Some(end) ==> (self.next_expiration(
                n,
            ) matches Some(earliest) && earliest <= end),
        decreases n,
    {
        if i < n - 1 {
            self.lemma_next_expiration(n - 1, i);
        }
    }

    /// As long as all bins whose interval has passed are empty, nothing expires.
    proof fn lemma_nothing_expires(self, n: nat, now_ms: u64)
        requires
            self.has_arrays(),
            self.last_step_time_ms <= now_ms,
            n <= self.arrays.len(),
            forall|i: int, k: int|
                0 <= i < self.arrays.len() && 0 <= k < self.arrays[i].passed(now_ms)
                    ==> #[trigger] self.slots.bins[self.arrays[i].bin(self.arrays[i].next + k)].len()
                    == 0,
        ensures
            ({
                let start = Expiry { slots: self.slots, expired: Seq::empty() };
                start.after_arrays(self.arrays, n, now_ms).expired.len() == 0
            }),
    {
        let start = Expiry { slots: self.slots, expired: Seq::empty() };
        self.lemma_expired(n, now_ms);
        let expired = start.after_arrays(self.arrays, n, now_ms).expired;
        if expired.len() > 0 {
            assert(self.leaves_anywhere(n as int, expired[0], now_ms));
            let (i, bin) = choose|i: int, bin: int| #[trigger]
                self.leaves(n as int, expired[0], i, bin, now_ms);
            let array = self.arrays[i];
            let k = choose|k: int|
                0 <= k < array.passed(now_ms) && #[trigger] array.bin(array.next + k) == bin;
            assert(self.slots.bins[self.arrays[i].bin(self.arrays[i].next + k)].len() == 0);
        }
    }
}

/// Nothing expires before the next time of expiration.
pub proof fn law_next_expiration<T>(wheel: WheelState<T>, now_ms: u64)
    requires
        wheel.wf(),
        wheel.is_current(),
        wheel.last_step_time_ms <= now_ms,
        wheel.next_expiration(wheel.arrays.len() as int) matches Some(time_ms) ==> now_ms < time_ms,
    ensures
        wheel.expiry(now_ms).expired.len() == 0,
{
    assert forall|i: int, k: int|
        0 <= i < wheel.arrays.len() && 0 <= k < wheel.arrays[i].passed(
            now_ms,
        ) implies #[trigger] wheel.slots.bins[wheel.arrays[i].bin(wheel.arrays[i].next + k)].len()
        == 0 by {
        let array = wheel.arrays[i];
        assert(array.wf());
        if wheel.slots.bins[array.bin(array.next + k)].len() > 0 {
            wheel.lemma_passed(i, now_ms);
            wheel.lemma_end_from(array, 0, k);
            wheel.lemma_next_expiration(wheel.arrays.len() as int, i);
            let (n, m) = (now_ms as int, array.ms_per_bin);
            lemma_fundamental_div_mod(n, m);
            lemma_mod_bound(n, m);
            assert((array.next + k + 1) * m <= n) by (nonlinear_arith)
                requires
                    n == m * (n / m) + n % m,
                    n % m >= 0,
                    array.next + k + 1 <= n / m,
                    m > 0,
            ;
        }
    }
    wheel.lemma_nothing_expires(wheel.arrays.len(), now_ms);
}

impl<T> WheelState<T> {
    /// The first bin of an array which is not empty.
    proof fn lemma_end_is_reached(self, array: ArrayState, k: int, end: int) -> (m: int)
        requires
            array.wf(),
            0 <= k <= array.size,
            self.end_from(array, k) == Some(end),
        ensures
            k <= m < array.size,
            self.slots.bins[array.bin(array.next + m)].len() > 0,
            end == (array.interval(self.last_step_time_ms) + m + 1) * array.ms_per_bin,
        decreases array.size - k,
    {
        if self.slots.bins[array.bin(array.next + k)].len() > 0 {
            k
        } else {
            self.lemma_end_is_reached(array, k + 1, end)
        }
    }

    /// The array whose bin is the first to expire.
    proof fn lemma_expiration_is_reached(self, n: int, end: int) -> (i: int)
        requires
            n <= self.arrays.len(),
            self.next_expiration(n) == Some(end),
        ensures
            0 <= i < n,
            self.end_from(self.arrays[i], 0) == Some(end),
        decreases n,
    {
        if self.end_from(self.arrays[n - 1], 0) == Some(end) {
            n - 1
        } else {
            self.lemma_expiration_is_reached(n - 1, end)
        }
    }

    /// Whether all timers are due before the last array comes full circle.
    pub open spec fn is_within_reach(self) -> bool {
        let last = self.arrays.last();
        forall|bin: int, k: int|
            0 <= bin < self.slots.bins.len() && 0 <= k < self.slots.bins[bin].len() ==> (
            #[trigger] self.slots.bins[bin][k]).timeout_time_ms < self.last_step_time_ms + (
            last.size - 1) * last.ms_per_bin
    }
}

/// A time which lies less than some intervals ahead lies in one of these intervals, or the one
/// after them.
proof fn lemma_intervals_ahead(last_ms: int, time_ms: int, n: int, m: int)
    requires
        m > 0,
        0 <= last_ms,
        time_ms < last_ms + n * m,
    ensures
        time_ms / m <= last_ms / m + n,
{
    lemma_fundamental_div_mod(last_ms, m);
    lemma_fundamental_div_mod(time_ms, m);
    lemma_mod_bound(last_ms, m);
    lemma_mod_bound(time_ms, m);
    let (a, b) = (last_ms / m, time_ms / m);
    assert(b <= a + n) by (nonlinear_arith)
        requires
            m > 0,
            last_ms == m * a + last_ms % m,
            time_ms == m * b + time_ms % m,
            last_ms % m < m,
            0 <= time_ms % m,
            time_ms < last_ms + n * m,
    ;
}

/// The next time of expiration lies ahead. A step to it lets a timer expire, if all timers are due
/// before the last array comes full circle. (Otherwise the bin may hold timers for later rounds
/// only.)
pub proof fn law_expiration_comes<T>(wheel: WheelState<T>, time_ms: u64)
    requires
        wheel.wf(),
        wheel.is_current(),
        wheel.next_expiration(wheel.arrays.len() as int) == Some(time_ms as int),
    ensures
        wheel.last_step_time_ms < time_ms,
        wheel.is_within_reach() ==> wheel.expiry(time_ms).expired.len() > 0,
{
    let n = wheel.arrays.len() as int;
    let i = wheel.lemma_expiration_is_reached(n, time_ms as int);
    let array = wheel.arrays[i];
    assert(array.wf());
    let k = wheel.lemma_end_is_reached(array, 0, time_ms as int);
    let (t, l, m) = (time_ms as int, wheel.last_step_time_ms as int, array.ms_per_bin);
    let base = array.next;
    assert(base == l / m);
    lemma_fundamental_div_mod(l, m);
    lemma_mod_bound(l, m);
    assert(l < t) by (nonlinear_arith)
        requires
            t == (base + k + 1) * m,
            l == m * base + l % m,
            l % m < m,
            k >= 0,
            m > 0,
    ;
    lemma_fundamental_div_mod_converse(t, m, base + k + 1, 0);
    assert(array.interval(time_ms) == base + k + 1);
    assert(k < array.passed(time_ms));
    let bin = array.bin(base + k);
    wheel.lemma_bin_fits(i, base + k);
    wheel.lemma_array_end(i);
    lemma_bin_range(array, base + k);
    if wheel.is_within_reach() {
        let timer = wheel.slots.bins[bin][0];
        assert(wheel.is_placed(timer, i, bin));
        if wheel.is_last(i) {
            let interval = array.interval(timer.timeout_time_ms);
            lemma_intervals_ahead(l, timer.timeout_time_ms as int, array.size - 1, m);
            if interval < base + k {
                lemma_mod_distinct(interval, base + k, array.size);
            } else if interval > base + k {
                lemma_mod_distinct(base + k, interval, array.size);
            }
            let d = timer.timeout_time_ms as int;
            lemma_fundamental_div_mod(d, m);
            lemma_mod_bound(d, m);
            assert(d < t) by (nonlinear_arith)
                requires
                    t == (base + k + 1) * m,
                    d == m * (base + k) + d % m,
                    d % m < m,
                    m > 0,
            ;
        }
        assert(wheel.slots.bins[bin].contains(timer));
        assert(is_passed(array, array.passed(time_ms), bin));
        assert(wheel.leaves(n, timer, i, bin, time_ms));
        wheel.lemma_expired(n as nat, time_ms);
    }
}

/// Once all timers are gone, no expiration is expected.
pub proof fn law_no_expiration<T>(wheel: WheelState<T>)
    requires
        wheel.wf(),
    ensures
        (wheel.next_expiration(wheel.arrays.len() as int) is None) <==> (forall|bin: int|
            0 <= bin < wheel.slots.bins.len() ==> (#[trigger] wheel.slots.bins[bin]).len() == 0),
{
    let n = wheel.arrays.len() as int;
    if wheel.next_expiration(n) is None {
        assert forall|bin: int| 0 <= bin < wheel.slots.bins.len() implies (
        #[trigger] wheel.slots.bins[bin]).len() == 0 by {
            let i = wheel.lemma_array_of(bin);
            let array = wheel.arrays[i];
            assert(array.wf());
            let offset = bin - array.start;
            let k = lemma_mod_occurs(
                array.next,
                array.next + (offset - array.next) % array.size,
                array.size,
            );
            lemma_offset(array, offset);
            assert(array.bin(array.next + k) == bin);
            if wheel.slots.bins[bin].len() > 0 {
                wheel.lemma_end_from(array, 0, k);
                wheel.lemma_next_expiration(n, i);
            }
        }
    }
    if forall|bin: int|
        0 <= bin < wheel.slots.bins.len() ==> (#[trigger] wheel.slots.bins[bin]).len() == 0 {
        wheel.lemma_none(n);
    }
}

proof fn lemma_offset(array: ArrayState, offset: int)
    requires
        array.wf(),
        0 <= offset < array.size,
    ensures
        array.next <= array.next + (offset - array.next) % array.size,
        (array.next + (offset - array.next) % array.size) % array.size == offset,
{
    let d = offset - array.next;
    let m = array.size;
    lemma_mod_bound(d, m);
    lemma_fundamental_div_mod(d, m);
    let q = -(d / m);
    assert(array.next + d % m == q * m + offset) by (nonlinear_arith)
        requires
            d == m * (d / m) + d % m,
            d == offset - array.next,
            q == -(d / m),
    ;
    lemma_fundamental_div_mod_converse(array.next + d % m, m, q, offset);
}

impl<T> WheelState<T> {
    proof fn lemma_none(self, n: int)
        requires
            self.has_arrays(),
            n <= self.arrays.len(),
            forall|bin: int|
                0 <= bin < self.slots.bins.len() ==> (#[trigger] self.slots.bins[bin]).len() == 0,
        ensures
            self.next_expiration(n) is None,
        decreases n,
    {
        if n > 0 {
            self.lemma_none(n - 1);
            self.lemma_array_end(n - 1);
            self.lemma_end_none(n - 1, 0);
        }
    }

    proof fn lemma_end_none(self, i: int, k: int)
        requires
            self.has_arrays(),
            0 <= i < self.arrays.len(),
            0 <= k,
            self.arrays[i].start + self.arrays[i].size <= self.slots.bins.len(),
            forall|bin: int|
                0 <= bin < self.slots.bins.len() ==> (#[trigger] self.slots.bins[bin]).len() == 0,
        ensures
            self.end_from(self.arrays[i], k) is None,
        decreases self.arrays[i].size - k,
    {
        let array = self.arrays[i];
        if k < array.size {
            lemma_bin_range(array, array.next + k);
            self.lemma_end_none(i, k + 1);
        }
    }
}

impl<T> WheelState<T> {
    pub(crate) proof fn lemma_bin_fits(self, i: int, interval: int)
        requires
            self.has_arrays(),
            0 <= i < self.arrays.len(),
        ensures
            0 <= self.arrays[i].bin(interval) < self.slots.bins.len(),
    {
        self.lemma_array_end(i);
        lemma_bin_range(self.arrays[i], interval);
    }

    /// The end of any interval which has a bin of its own is a valid time.
    pub(crate) proof fn lemma_end_fits(self, i: int, k: int)
        requires
            self.wf(),
            0 <= i < self.arrays.len(),
            0 <= k < self.arrays[i].size,
        ensures
            self.arrays[i].next + self.arrays[i].size < u64::MAX,
            0 <= (self.arrays[i].interval(self.last_step_time_ms) + k + 1)
                * self.arrays[i].ms_per_bin < u64::MAX,
            0 <= self.arrays[i].interval(self.last_step_time_ms) + k + 1 < u64::MAX,
    {
        let array = self.arrays[i];
        assert(array.wf());
        let (n, m) = (self.last_step_time_ms as int, array.ms_per_bin);
        lemma_fundamental_div_mod(n, m);
        lemma_mod_bound(n, m);
        assert(0 <= n / m <= n && (n / m + k + 1) * m <= n + 0x4000_0000_0000_0000 && 0 <= (n / m
            + k + 1) * m) by (nonlinear_arith)
            requires
                n == m * (n / m) + n % m,
                0 <= n % m,
                n >= 0,
                1 <= m <= 0x8000_0000,
                0 <= k < 0x8000_0000,
        ;
    }

    /// The new timer is in the right place too.
    pub(crate) proof fn lemma_set_places(self, timeout_time_ms: u64, data: T)
        requires
            self.wf(),
            self.last_step_time_ms <= timeout_time_ms,
        ensures
            0 <= self.bin_from(0, timeout_time_ms) < self.slots.bins.len(),
            self.after_set(timeout_time_ms, data).has_arrays(),
            self.after_set(timeout_time_ms, data).has_places(),
    {
        let (j, interval) = self.lemma_bin_from(0, timeout_time_ms);
        self.lemma_bin_fits(j, interval);
        let after = self.after_set(timeout_time_ms, data);
        let home = self.bin_from(0, timeout_time_ms);
        assert(after.arrays == self.arrays);
        assert forall|i: int, bin: int, k: int|
            #![trigger after.arrays[i], after.slots.bins[bin][k]]
            0 <= i < after.arrays.len() && after.arrays[i].start <= bin < after.arrays[i].start
                + after.arrays[i].size && 0 <= k < after.slots.bins[bin].len() implies after.is_placed(
            after.slots.bins[bin][k],
            i,
            bin,
        ) by {
            self.lemma_array_end(i);
            if bin == home && k == self.slots.bins[bin].len() {
                lemma_bin_range(self.arrays[j], interval);
                if i < j {
                    assert(self.arrays[i].start + self.arrays[i].size <= self.arrays[j].start);
                } else if j < i {
                    assert(self.arrays[j].start + self.arrays[j].size <= self.arrays[i].start);
                }
            } else {
                assert(self.is_placed(self.slots.bins[bin][k], i, bin));
            }
        }
    }

    /// The array in which a timer is put.
    proof fn lemma_bin_from(self, i: int, timeout_time_ms: u64) -> (r: (int, int))
        requires
            self.has_arrays(),
            self.last_step_time_ms <= timeout_time_ms,
            0 <= i < self.arrays.len(),
        ensures
            i <= r.0 < self.arrays.len(),
            r.1 == self.arrays[r.0].interval(timeout_time_ms),
            self.bin_from(i, timeout_time_ms) == self.arrays[r.0].bin(r.1),
            self.arrays[r.0].next <= r.1,
            self.is_last(r.0) || self.arrays[r.0].reaches(r.1),
        decreases self.arrays.len() - i,
    {
        self.lemma_passed(i, timeout_time_ms);
        let array = self.arrays[i];
        let interval = array.interval(timeout_time_ms);
        if i >= self.arrays.len() - 1 || array.reaches(interval) {
            (i, interval)
        } else {
            self.lemma_bin_from(i + 1, timeout_time_ms)
        }
    }

    pub(crate) proof fn lemma_unset_places(self, bin: int, i: int)
        requires
            self.has_arrays(),
            self.has_places(),
            0 <= bin < self.slots.bins.len(),
            0 <= i < self.slots.bins[bin].len(),
        ensures
            ({
                let after = WheelState { slots: self.slots.after_unset(bin, i), ..self };
                after.has_arrays() && after.has_places()
            }),
    {
        let after = WheelState { slots: self.slots.after_unset(bin, i), ..self };
        assert forall|a: int, b: int, k: int|
            #![trigger after.arrays[a], after.slots.bins[b][k]]
            0 <= a < after.arrays.len() && after.arrays[a].start <= b < after.arrays[a].start
                + after.arrays[a].size && 0 <= k < after.slots.bins[b].len() implies after.is_placed(
            after.slots.bins[b][k],
            a,
            b,
        ) by {
            self.lemma_array_end(a);
            if b == bin && k >= i {
                assert(self.is_placed(self.slots.bins[b][k + 1], a, b));
            } else {
                assert(self.is_placed(self.slots.bins[b][k], a, b));
            }
        }
    }
}

} // verus!
