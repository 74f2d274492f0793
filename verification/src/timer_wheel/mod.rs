//! A timer wheel: timers are kept in bins, which are coarser the further away their time is.
//!
//! For array sizes of 8, bin sizes of 4, 16, and 64 ms:
//!
//! ```text
//!  t (4ms) ->
//!
//!  xxxxxxxx
//!  x---x---x---x---x---x---x---x---
//!  x---------------x---------------x---------------x--------------- ...
//! ```

use vstd::arithmetic::div_mod::lemma_mod_bound;
use vstd::arithmetic::power2::pow2;
use vstd::prelude::*;

pub mod ledger;
pub mod model;
pub mod slots;

use crate::bits::{bit, lemma_no_bits};
use model::{is_time, ArrayState, Expiry, WheelState};
use slots::{data_of, Slots, Timer};

verus! {

/// Refers to a timer which has been set.
#[derive(Debug)]
pub struct TimerId {
    idx: u32,
}

impl Clone for TimerId {
    fn clone(&self) -> (id: Self)
        ensures
            id == *self,
    {
        Self { idx: self.idx }
    }
}

impl View for TimerId {
    type V = u32;

    closed spec fn view(&self) -> u32 {
        self.idx
    }
}

/// The bins of one array.
#[derive(Clone, Copy)]
pub struct ArrayConfig {
    /// How many bins there are. This must be a power of two.
    pub size: u32,
    /// How much time each bin covers, in milliseconds. This must be a power of two.
    pub ms_per_bin: u32,
}

/// Whether a number is a power of two.
pub open spec fn is_power(x: u32) -> bool {
    x != 0 && (x - 1) as u32 & x == 0
}

/// Whether a number is a power of two.
pub fn is_power_of_two(x: u32) -> (result: bool)
    ensures
        result == is_power(x),
{
    x != 0 && (x - 1) & x == 0
}

proof fn lemma_power(x: u32, i: u32)
    requires
        is_power(x),
        i < 32,
        bit(x, i),
    ensures
        x == pow2(i as nat),
{
    assert((x - 1) as u32 & x == 0 && (x >> i) & 1 == 1 && i < 32 && x != 0 ==> x == 1u32 << i)
        by (bit_vector);
    vstd::bits::lemma_u32_pow2_no_overflow(i as nat);
    vstd::bits::lemma_u32_shl_is_mul(1, i);
}

/// A power of two is two to some power.
proof fn lemma_log2(x: u32) -> (i: u32)
    requires
        is_power(x),
    ensures
        i < 32,
        x == pow2(i as nat),
{
    if forall|i: u32| i < 32 ==> !bit(x, i) {
        lemma_no_bits(x);
    }
    let i = choose|i: u32| i < 32 && bit(x, i);
    lemma_power(x, i);
    i
}

/// A mask leaves the remainder.
proof fn lemma_mask(x: u64, size: u32)
    requires
        is_power(size),
    ensures
        x & ((size - 1) as u64) == x as int % size as int,
{
    let n = lemma_log2(size) as nat;
    vstd::bits::lemma_u64_low_bits_mask_is_mod(x, n);
    assert(vstd::bits::low_bits_mask(n) == pow2(n) - 1);
}

fn compute_array_params(size: u32, ms_per_bin: u32) -> (params: (u64, u64))
    requires
        is_power(size),
        is_power(ms_per_bin),
    ensures
        params.0 == size - 1,
        params.1 < 32,
        pow2(params.1 as nat) == ms_per_bin,
{
    let mask: u64 = (size - 1) as u64;
    let mut i: u32 = 0;
    while (ms_per_bin >> i) & 1 == 0
        invariant
            i < 32,
            is_power(ms_per_bin),
            forall|j: u32| j < i ==> !bit(ms_per_bin, j),
        decreases 32 - i,
    {
        assert(!bit(ms_per_bin, i));
        proof {
            if i == 31 {
                lemma_no_bits(ms_per_bin);
            }
        }
        i += 1;
    }
    let ghost found = ms_per_bin >> i;
    assert(found & 1 != 0 ==> found & 1 == 1) by (bit_vector);
    proof {
        lemma_power(ms_per_bin, i);
    }
    (mask, i as u64)
}

struct Array {
    start_idx: u32,
    bin_time_mask: u64,
    bin_time_shift: u64,
    size: u64,
    next_abs_bin_idx: u64,
}

impl Array {
    spec fn view(&self) -> ArrayState {
        ArrayState {
            start: self.start_idx as int,
            size: self.size as int,
            ms_per_bin: pow2(self.bin_time_shift as nat) as int,
            next: self.next_abs_bin_idx as int,
        }
    }

    spec fn wf(&self) -> bool {
        &&& self.view().wf()
        &&& is_power(self.size as u32)
        &&& self.bin_time_mask == self.size - 1
        &&& self.bin_time_shift < 32
        &&& self.start_idx + self.size <= u32::MAX
    }

    fn new(start_idx: u32, config: ArrayConfig) -> (array: Self)
        requires
            is_power(config.size),
            is_power(config.ms_per_bin),
            start_idx + config.size <= u32::MAX,
        ensures
            array.wf(),
            array.view() == (ArrayState {
                start: start_idx as int,
                size: config.size as int,
                ms_per_bin: config.ms_per_bin as int,
                next: 0,
            }),
    {
        let (bin_time_mask, bin_time_shift) = compute_array_params(config.size, config.ms_per_bin);
        proof {
            let (size, ms) = (config.size, config.ms_per_bin);
            assert((size - 1) as u32 & size == 0 && size != 0 ==> size <= 0x8000_0000) by (bit_vector);
            assert((ms - 1) as u32 & ms == 0 && ms != 0 ==> ms <= 0x8000_0000) by (bit_vector);
        }
        Self {
            start_idx,
            bin_time_mask,
            bin_time_shift,
            size: config.size as u64,
            next_abs_bin_idx: 0,
        }
    }

    /// The interval in which a time lies.
    fn interval(&self, time_ms: u64) -> (interval: u64)
        requires
            self.wf(),
        ensures
            interval == self.view().interval(time_ms),
    {
        proof {
            vstd::bits::lemma_u64_shr_is_div(time_ms, self.bin_time_shift);
        }
        time_ms >> self.bin_time_shift
    }

    /// The bin for an interval.
    fn bin(&self, interval: u64) -> (bin: u32)
        requires
            self.wf(),
        ensures
            bin == self.view().bin(interval as int),
            self.view().start <= bin < self.view().start + self.view().size,
    {
        proof {
            lemma_mask(interval, self.size as u32);
            lemma_mod_bound(interval as int, self.size as int);
        }
        self.start_idx + (interval & self.bin_time_mask) as u32
    }
}

/// How many bins some arrays have.
pub open spec fn bin_count(configs: Seq<ArrayConfig>) -> int
    decreases configs.len(),
{
    if configs.len() == 0 {
        0
    } else {
        bin_count(configs.drop_last()) + configs.last().size
    }
}

/// Whether a wheel can be made of these arrays.
pub open spec fn is_valid(configs: Seq<ArrayConfig>) -> bool {
    &&& configs.len() > 0
    &&& forall|i: int|
        0 <= i < configs.len() ==> is_power((#[trigger] configs[i]).size) && is_power(
            configs[i].ms_per_bin,
        )
    &&& bin_count(configs) <= u32::MAX
}

/// The array which a configuration comes to.
pub open spec fn new_array(configs: Seq<ArrayConfig>, i: int) -> ArrayState {
    ArrayState {
        start: bin_count(configs.take(i)),
        size: configs[i].size as int,
        ms_per_bin: configs[i].ms_per_bin as int,
        next: 0,
    }
}

proof fn lemma_bin_count(configs: Seq<ArrayConfig>, i: int)
    requires
        0 <= i <= configs.len(),
    ensures
        0 <= bin_count(configs.take(i)) <= bin_count(configs),
        i < configs.len() ==> bin_count(configs.take(i + 1)) == bin_count(configs.take(i))
            + configs[i].size,
    decreases configs.len() - i,
{
    if i < configs.len() {
        assert(configs.take(i + 1).drop_last() =~= configs.take(i));
        lemma_bin_count(configs, i + 1);
        lemma_bin_count_nonnegative(configs.take(i));
    } else {
        assert(configs.take(i) =~= configs);
        lemma_bin_count_nonnegative(configs);
    }
}

proof fn lemma_bin_count_nonnegative(configs: Seq<ArrayConfig>)
    ensures
        0 <= bin_count(configs),
    decreases configs.len(),
{
    if configs.len() > 0 {
        lemma_bin_count_nonnegative(configs.drop_last());
    }
}

proof fn lemma_bin_count_increases(configs: Seq<ArrayConfig>, i: int, j: int)
    requires
        0 <= i < j <= configs.len(),
    ensures
        bin_count(configs.take(i)) + configs[i].size <= bin_count(configs.take(j)),
    decreases j - i,
{
    lemma_bin_count(configs, j - 1);
    if i < j - 1 {
        lemma_bin_count_increases(configs, i, j - 1);
    }
}

/// Timers by the time at which they expire.
pub struct TimerWheel<T> {
    arrays: Vec<Array>,
    slots: Slots<T>,
    last_step_time_ms: u64,
}

impl<T> View for TimerWheel<T> {
    type V = WheelState<T>;

    closed spec fn view(&self) -> WheelState<T> {
        WheelState {
            arrays: self.arrays@.map_values(|array: Array| array.view()),
            slots: self.slots@,
            last_step_time_ms: self.last_step_time_ms,
        }
    }
}

impl<T> TimerWheel<T> {
    pub closed spec fn inv(&self) -> bool {
        &&& self.slots.inv()
        &&& forall|i: int| 0 <= i < self.arrays@.len() ==> (#[trigger] self.arrays@[i]).wf()
    }

    pub open spec fn wf(&self) -> bool {
        self.inv() && self@.wf()
    }

    pub fn new(array_config: &[ArrayConfig], now_ms: u64) -> (wheel: Self)
        requires
            is_valid(array_config@),
            is_time(now_ms),
        ensures
            wheel.wf(),
            wheel@.arrays == Seq::new(
                array_config@.len(),
                |i: int| new_array(array_config@, i),
            ),
            wheel@.slots.bins == Seq::new(
                bin_count(array_config@) as nat,
                |bin: int| Seq::<Timer<T>>::empty(),
            ),
            wheel@.slots.free == Seq::<u32>::empty(),
            wheel@.slots.slot_count == bin_count(array_config@),
            wheel@.last_step_time_ms == now_ms,
            now_ms == 0 ==> wheel@.is_current(),
    {
        let ghost configs = array_config@;
        let mut total_bin_count: u32 = 0;
        let mut arrays: Vec<Array> = Vec::new();

        let mut i: usize = 0;
        while i < array_config.len()
            invariant
                i <= configs.len(),
                configs == array_config@,
                is_valid(configs),
                total_bin_count == bin_count(configs.take(i as int)),
                arrays@.len() == i,
                forall|j: int|
                    0 <= j < i ==> (#[trigger] arrays@[j]).wf() && arrays@[j].view() == new_array(
                        configs,
                        j,
                    ),
            decreases configs.len() - i,
        {
            let config = array_config[i];
            proof {
                lemma_bin_count(configs, i as int);
                lemma_bin_count(configs, i + 1);
            }
            arrays.push(Array::new(total_bin_count, config));
            total_bin_count += config.size;
            i += 1;
        }
        assert(configs.take(i as int) =~= configs);

        let wheel = Self { arrays, slots: Slots::new(total_bin_count), last_step_time_ms: now_ms };
        proof {
            let state = wheel@;
            assert(state.arrays =~= Seq::new(configs.len(), |i: int| new_array(configs, i)));
            assert(configs.take(0) =~= Seq::empty());
            lemma_bin_count(configs, configs.len() - 1);
            assert forall|i: int, j: int| 0 <= i < j < state.arrays.len() implies (
            #[trigger] state.arrays[i]).start + state.arrays[i].size <= (
            #[trigger] state.arrays[j]).start by {
                lemma_bin_count_increases(configs, i, j);
            }
            assert forall|i: int| 0 < i < state.arrays.len() implies (
            #[trigger] state.arrays[i]).start == state.arrays[i - 1].start + state.arrays[i
                - 1].size by {
                lemma_bin_count(configs, i - 1);
            }
            assert forall|i: int| 0 <= i < state.arrays.len() implies {
                &&& (#[trigger] state.arrays[i]).wf()
                &&& state.arrays[i].next <= state.arrays[i].interval(state.last_step_time_ms)
            } by {
                assert(wheel.arrays@[i].wf());
                vstd::arithmetic::div_mod::lemma_div_pos_is_pos(
                    now_ms as int,
                    state.arrays[i].ms_per_bin,
                );
            }
            wheel.slots.lemma_unique_ids();
            assert(wheel.inv());
            assert(state.arrays[0].start == 0);
            assert(state.arrays.last().start + state.arrays.last().size == state.slots.bins.len());
            assert(state.has_arrays());
            assert(state.is_gapless());
            assert(state.has_places());
        }
        wheel
    }

    /// The bin for a timer.
    fn find_timer_bin(&self, timeout_time_ms: u64) -> (bin: u32)
        requires
            self.wf(),
            self@.last_step_time_ms <= timeout_time_ms,
        ensures
            bin == self@.bin_from(0, timeout_time_ms),
    {
        let mut array_idx: usize = 0;
        while array_idx < self.arrays.len() - 1
            invariant
                self.wf(),
                self@.arrays.len() == self.arrays@.len(),
                self@.last_step_time_ms <= timeout_time_ms,
                array_idx <= self.arrays@.len() - 1,
                self@.bin_from(0, timeout_time_ms) == self@.bin_from(
                    array_idx as int,
                    timeout_time_ms,
                ),
            decreases self.arrays@.len() - array_idx,
        {
            let array = &self.arrays[array_idx];
            assert(self@.arrays[array_idx as int] == array.view());
            proof {
                self@.lemma_passed(array_idx as int, timeout_time_ms);
            }
            let abs_bin_idx: u64 = array.interval(timeout_time_ms);
            let abs_idx_diff: u64 = abs_bin_idx - array.next_abs_bin_idx;

            // Bins in the lower arrays must not alias, so ensure that the absolute bin index is
            // not further ahead than the array size
            if abs_idx_diff < array.size {
                return array.bin(abs_bin_idx);
            }
            array_idx += 1;
        }
        let array = &self.arrays[array_idx];
        assert(self@.arrays[array_idx as int] == array.view());
        let abs_bin_idx: u64 = array.interval(timeout_time_ms);
        array.bin(abs_bin_idx)
    }

    /// Whether there is room for another timer.
    pub fn can_set_timer(&self) -> (result: bool)
        requires
            self.wf(),
        ensures
            result == self@.slots.has_room(),
    {
        self.slots.has_room()
    }

    /// Sets a timer, which must not be in the past.
    pub fn set_timer(&mut self, timeout_time_ms: u64, handler_data: T) -> (id: TimerId)
        requires
            old(self).wf(),
            old(self)@.last_step_time_ms <= timeout_time_ms,
            old(self)@.slots.has_room(),
        ensures
            final(self).wf(),
            final(self)@ == old(self)@.after_set(timeout_time_ms, handler_data),
            id@ == old(self)@.slots.next_id(),
    {
        let sentinel_idx: u32 = self.find_timer_bin(timeout_time_ms);
        proof {
            self@.lemma_set_places(timeout_time_ms, handler_data);
        }
        let idx: u32 = self.slots.set(sentinel_idx, timeout_time_ms, handler_data);
        proof {
            self.slots.lemma_unique_ids();
            assert(self@ == old(self)@.after_set(timeout_time_ms, handler_data));
        }
        TimerId { idx }
    }

    /// Whether a timer is set.
    pub fn is_set(&self, timer_id: &TimerId) -> (result: bool)
        requires
            self.wf(),
        ensures
            result == self@.slots.is_set(timer_id@),
    {
        self.slots.is_set(timer_id.idx)
    }

    /// Unsets a timer, which must be set.
    pub fn unset_timer(&mut self, timer_id: TimerId)
        requires
            old(self).wf(),
            old(self)@.slots.is_set(timer_id@),
        ensures
            final(self).wf(),
            forall|bin: int, i: int| #[trigger]
                old(self)@.slots.is_at(timer_id@, bin, i) ==> final(self)@ == (WheelState {
                    slots: old(self)@.slots.after_unset(bin, i),
                    ..old(self)@
                }),
    {
        self.slots.unset(timer_id.idx);
        proof {
            self.slots.lemma_unique_ids();
            let (bin, i) = choose|bin: int, i: int| old(self)@.slots.is_at(timer_id@, bin, i);
            old(self)@.lemma_unset_places(bin, i);
        }
    }

    /// The time at which the next bin expires, if any is not empty.
    pub fn next_expiration_time_ms(&self) -> (time_ms: Option<u64>)
        requires
            self.wf(),
        ensures
            match self@.next_expiration(self@.arrays.len() as int) {
                Some(end) => time_ms == Some(end as u64) && 0 <= end <= u64::MAX,
                None => time_ms is None,
            },
    {
        let mut min_time_ms: Option<u64> = None;

        let mut array_idx: usize = 0;
        while array_idx < self.arrays.len()
            invariant
                self.wf(),
                array_idx <= self.arrays@.len(),
                match self@.next_expiration(array_idx as int) {
                    Some(end) => min_time_ms == Some(end as u64) && 0 <= end <= u64::MAX,
                    None => min_time_ms is None,
                },
            decreases self.arrays@.len() - array_idx,
        {
            let end_time_ms = self.array_expiration_time_ms(array_idx);
            min_time_ms =
            match (min_time_ms, end_time_ms) {
                (Some(a), Some(b)) => Some(
                    if b < a {
                        b
                    } else {
                        a
                    },
                ),
                (Some(a), None) => Some(a),
                (None, b) => b,
            };
            array_idx += 1;
        }
        min_time_ms
    }

    /// The time at which the next bin of an array expires, if any is not empty.
    fn array_expiration_time_ms(&self, array_idx: usize) -> (time_ms: Option<u64>)
        requires
            self.wf(),
            array_idx < self.arrays@.len(),
        ensures
            match self@.end_from(self@.arrays[array_idx as int], 0) {
                Some(end) => time_ms == Some(end as u64) && 0 <= end <= u64::MAX,
                None => time_ms is None,
            },
    {
        let array = &self.arrays[array_idx];
        let ghost state = array.view();
        assert(self@.arrays[array_idx as int] == state);
        let base: u64 = array.interval(self.last_step_time_ms);
        let mut i: u64 = 0;
        while i < array.size
            invariant
                self.wf(),
                array.wf(),
                state == array.view(),
                array_idx < self.arrays@.len(),
                self@.arrays[array_idx as int] == state,
                base == state.interval(self@.last_step_time_ms),
                i <= array.size,
                self@.end_from(state, 0) == self@.end_from(state, i as int),
            decreases array.size - i,
        {
            proof {
                self@.lemma_end_fits(array_idx as int, i as int);
                self@.lemma_bin_fits(array_idx as int, state.next + i);
                vstd::bits::lemma_u64_shl_is_mul((base + i + 1) as u64, array.bin_time_shift);
            }
            let abs_bin_idx: u64 = array.next_abs_bin_idx + i;

            if !self.slots.is_empty(array.bin(abs_bin_idx)) {
                // This bin is not empty and expires at the start of the following bin
                return Some((base + i + 1) << array.bin_time_shift);
            }
            i += 1;
        }
        None
    }

    /// Lets all timers expire whose time has come, as far as bins tell.
    pub fn step(&mut self, time_now_ms: u64, entries_out: &mut Vec<T>)
        requires
            old(self).wf(),
            old(self)@.last_step_time_ms <= time_now_ms,
            is_time(time_now_ms),
        ensures
            final(self).wf(),
            final(self)@ == old(self)@.after_step(time_now_ms),
            final(self)@.is_current(),
            final(entries_out)@ == old(entries_out)@ + data_of(
                old(self)@.expiry(time_now_ms).expired,
            ),
    {
        let ghost before = self@;
        let ghost start = Expiry { slots: self@.slots, expired: Seq::empty() };
        let ghost out = entries_out@;
        assert(out + data_of(Seq::<Timer<T>>::empty()) =~= out);

        let array_count: usize = self.arrays.len();
        let mut array_idx: usize = 0;
        while array_idx < array_count
            invariant
                array_idx <= array_count,
                array_count == self.arrays@.len(),
                before.arrays.len() == array_count,
                before.wf(),
                before.last_step_time_ms <= time_now_ms,
                is_time(time_now_ms),
                start == (Expiry { slots: before.slots, expired: Seq::empty() }),
                self.inv(),
                self.slots@ == start.after_arrays(
                    before.arrays,
                    array_idx as nat,
                    time_now_ms,
                ).slots,
                self.slots@.bins.len() == before.slots.bins.len(),
                entries_out@ == out + data_of(
                    start.after_arrays(before.arrays, array_idx as nat, time_now_ms).expired,
                ),
                forall|i: int|
                    0 <= i < array_count ==> (#[trigger] self.arrays@[i]).view() == if i
                        < array_idx {
                        before.arrays[i].after_step(time_now_ms)
                    } else {
                        before.arrays[i]
                    },
            decreases array_count - array_idx,
        {
            let ghost e = start.after_arrays(before.arrays, array_idx as nat, time_now_ms);
            let ghost array = before.arrays[array_idx as int];
            assert(self.arrays@[array_idx as int].view() == array);
            proof {
                before.lemma_passed(array_idx as int, time_now_ms);
            }
            let time_now_idx: u64 = self.arrays[array_idx].interval(time_now_ms);
            self.expire_bins(
                array_idx,
                time_now_idx,
                time_now_ms,
                entries_out,
                Ghost(e),
                Ghost(out),
            );
            self.arrays[array_idx].next_abs_bin_idx = time_now_idx;
            array_idx += 1;
        }
        self.last_step_time_ms = time_now_ms;
        proof {
            assert(self@.arrays =~= before.after_step(time_now_ms).arrays);
            before.lemma_step_places(time_now_ms);
            self.slots.lemma_unique_ids();
        }
    }

    /// Lets the bins of an array expire whose time has passed.
    fn expire_bins(
        &mut self,
        array_idx: usize,
        time_now_idx: u64,
        time_now_ms: u64,
        entries_out: &mut Vec<T>,
        Ghost(e): Ghost<Expiry<T>>,
        Ghost(out): Ghost<Seq<T>>,
    )
        requires
            old(self).inv(),
            array_idx < old(self).arrays@.len(),
            old(self).slots@ == e.slots,
            old(entries_out)@ == out + data_of(e.expired),
            ({
                let array = old(self).arrays@[array_idx as int].view();
                &&& array.start + array.size <= old(self).slots@.bins.len()
                &&& time_now_idx == array.interval(time_now_ms)
                &&& array.next <= time_now_idx
                &&& array.next + array.size <= u64::MAX
            }),
        ensures
            final(self).inv(),
            final(self).arrays@ == old(self).arrays@,
            final(self).last_step_time_ms == old(self).last_step_time_ms,
            final(self).slots@.bins.len() == old(self).slots@.bins.len(),
            ({
                let array = old(self).arrays@[array_idx as int].view();
                let after = e.after_bins(
                    array,
                    array.passed(time_now_ms) as nat,
                    array_idx + 1 < old(self).arrays@.len(),
                    time_now_ms,
                );
                &&& final(self).slots@ == after.slots
                &&& final(entries_out)@ == out + data_of(after.expired)
            }),
    {
        let array_count: usize = self.arrays.len();
        let next: u64 = self.arrays[array_idx].next_abs_bin_idx;
        let size: u64 = self.arrays[array_idx].size;
        let all: bool = array_idx < array_count - 1;
        let end_idx: u64 = if time_now_idx < next + size {
            time_now_idx
        } else {
            next + size
        };
        let ghost arrays = self.arrays@;
        let ghost array = arrays[array_idx as int].view();
        let mut bin_idx: u64 = next;
        while bin_idx < end_idx
            invariant
                self.inv(),
                self.arrays@ == arrays,
                self.last_step_time_ms == old(self).last_step_time_ms,
                array_idx < arrays.len(),
                array == arrays[array_idx as int].view(),
                all == (array_idx + 1 < arrays.len()),
                next == array.next,
                next <= bin_idx <= end_idx,
                array.start + array.size <= self.slots@.bins.len(),
                self.slots@.bins.len() == old(self).slots@.bins.len(),
                self.slots@ == e.after_bins(
                    array,
                    (bin_idx - next) as nat,
                    all,
                    time_now_ms,
                ).slots,
                entries_out@ == out + data_of(
                    e.after_bins(array, (bin_idx - next) as nat, all, time_now_ms).expired,
                ),
            decreases end_idx - bin_idx,
        {
            assert(self.arrays@[array_idx as int].wf());
            let sentinel_timer_idx: u32 = self.arrays[array_idx].bin(bin_idx);
            let ghost before = e.after_bins(array, (bin_idx - next) as nat, all, time_now_ms);
            assert(array.next + ((bin_idx - next) as nat + 1) - 1 == bin_idx);
            if all {
                self.slots.expire_all(sentinel_timer_idx, entries_out);
            } else {
                self.slots.expire_expired(sentinel_timer_idx, entries_out, time_now_ms);
            }
            proof {
                let after = before.after_bin(sentinel_timer_idx as int, all, time_now_ms);
                assert(after == e.after_bins(
                    array,
                    (bin_idx + 1 - next) as nat,
                    all,
                    time_now_ms,
                ));
                assert(entries_out@ =~= out + data_of(after.expired));
            }
            bin_idx += 1;
        }
    }
}

} // verus!
