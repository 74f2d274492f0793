//! Timers in bins, each of which is a list that is linked in both directions.

use vstd::prelude::*;

verus! {

/// A timer which has been set.
pub struct Timer<T> {
    pub id: u32,
    pub timeout_time_ms: u64,
    pub data: T,
}

#[derive(Clone, Copy)]
struct TimerEntry {
    next_idx: u32,
    prev_idx: u32,
    timeout_time_ms: u64,
}

/// Bins of timers. The first entries are the sentinels of the bins, one for each. All others are
/// timers, or free.
pub struct Slots<T> {
    timer_data: Vec<Option<T>>,
    timer_entries: Vec<TimerEntry>,
    free_list: Vec<u32>,
    // The indices of the timers in each bin, in order
    lists: Ghost<Seq<Seq<u32>>>,
    // The bin in which each timer is, if any
    homes: Ghost<Seq<int>>,
}

/// What some [`Slots`] hold.
#[verifier::ext_equal]
pub struct SlotsState<T> {
    /// The timers in each bin, in the order in which they have been set.
    pub bins: Seq<Seq<Timer<T>>>,
    /// Numbers which can be given to timers again.
    pub free: Seq<u32>,
    /// The smallest number which has not been given to any timer or bin yet.
    pub slot_count: nat,
}

impl<T> SlotsState<T> {
    /// The number which the next timer will be given.
    pub open spec fn next_id(self) -> u32 {
        if self.free.len() > 0 {
            self.free.last()
        } else {
            self.slot_count as u32
        }
    }

    /// Whether there is a number left for another timer.
    pub open spec fn has_room(self) -> bool {
        self.free.len() > 0 || self.slot_count <= u32::MAX
    }

    /// Whether a timer is the one in a given place.
    pub open spec fn is_at(self, id: u32, bin: int, i: int) -> bool {
        0 <= bin < self.bins.len() && 0 <= i < self.bins[bin].len() && self.bins[bin][i].id == id
    }

    /// Whether a timer is set.
    pub open spec fn is_set(self, id: u32) -> bool {
        exists|bin: int, i: int| self.is_at(id, bin, i)
    }

    /// No two timers have the same number.
    pub open spec fn has_unique_ids(self) -> bool {
        forall|id: u32, bin_a: int, a: int, bin_b: int, b: int| #[trigger]
            self.is_at(id, bin_a, a) && #[trigger] self.is_at(id, bin_b, b) ==> bin_a == bin_b && a
                == b
    }

    pub open spec fn after_set(self, bin: int, timeout_time_ms: u64, data: T) -> SlotsState<T> {
        SlotsState {
            bins: self.bins.update(
                bin,
                self.bins[bin].push(Timer { id: self.next_id(), timeout_time_ms, data }),
            ),
            free: if self.free.len() > 0 {
                self.free.drop_last()
            } else {
                self.free
            },
            slot_count: if self.free.len() > 0 {
                self.slot_count
            } else {
                self.slot_count + 1
            },
        }
    }

    /// The state once a whole bin has expired.
    pub open spec fn after_expire_all(self, bin: int) -> SlotsState<T> {
        SlotsState {
            bins: self.bins.update(bin, Seq::empty()),
            free: self.free + ids_of(self.bins[bin]),
            ..self
        }
    }

    /// The state once those timers of a bin have expired whose time has come.
    pub open spec fn after_expire_expired(self, bin: int, now_ms: u64) -> SlotsState<T> {
        SlotsState {
            bins: self.bins.update(bin, pending(self.bins[bin], now_ms)),
            free: self.free + ids_of(due(self.bins[bin], now_ms)),
            ..self
        }
    }

    pub open spec fn after_unset(self, bin: int, i: int) -> SlotsState<T> {
        SlotsState {
            bins: self.bins.update(bin, self.bins[bin].remove(i)),
            free: self.free.push(self.bins[bin][i].id),
            ..self
        }
    }
}

/// The timers which have expired, in order.
pub open spec fn due<T>(timers: Seq<Timer<T>>, now_ms: u64) -> Seq<Timer<T>>
    decreases timers.len(),
{
    if timers.len() == 0 {
        Seq::empty()
    } else if timers.last().timeout_time_ms <= now_ms {
        due(timers.drop_last(), now_ms).push(timers.last())
    } else {
        due(timers.drop_last(), now_ms)
    }
}

/// The timers which have not expired, in order.
pub open spec fn pending<T>(timers: Seq<Timer<T>>, now_ms: u64) -> Seq<Timer<T>>
    decreases timers.len(),
{
    if timers.len() == 0 {
        Seq::empty()
    } else if timers.last().timeout_time_ms <= now_ms {
        pending(timers.drop_last(), now_ms)
    } else {
        pending(timers.drop_last(), now_ms).push(timers.last())
    }
}

pub open spec fn ids_of<T>(timers: Seq<Timer<T>>) -> Seq<u32> {
    timers.map_values(|timer: Timer<T>| timer.id)
}

pub open spec fn data_of<T>(timers: Seq<Timer<T>>) -> Seq<T> {
    timers.map_values(|timer: Timer<T>| timer.data)
}

/// The index before the timer at position `p` of a list, where the sentinel is at both ends.
spec fn node(bin: int, list: Seq<u32>, p: int) -> int {
    if 0 < p <= list.len() {
        list[p - 1] as int
    } else {
        bin
    }
}

/// Whether the entry at position `p` and the next one refer to each other.
spec fn is_linked(entries: Seq<TimerEntry>, bin: int, list: Seq<u32>, p: int) -> bool {
    &&& entries[node(bin, list, p)].next_idx == node(bin, list, p + 1)
    &&& entries[node(bin, list, p + 1)].prev_idx == node(bin, list, p)
}

/// Whether the entries of a bin form a ring.
spec fn is_ring(entries: Seq<TimerEntry>, bin: int, list: Seq<u32>) -> bool {
    forall|p: int| 0 <= p <= list.len() ==> #[trigger] is_linked(entries, bin, list, p)
}

proof fn lemma_ring_frame(
    before: Seq<TimerEntry>,
    after: Seq<TimerEntry>,
    bin: int,
    list: Seq<u32>,
)
    requires
        is_ring(before, bin, list),
        before[bin].next_idx == after[bin].next_idx,
        before[bin].prev_idx == after[bin].prev_idx,
        forall|p: int|
            0 <= p < list.len() ==> {
                &&& after[(#[trigger] list[p]) as int].next_idx == before[list[p] as int].next_idx
                &&& after[list[p] as int].prev_idx == before[list[p] as int].prev_idx
            },
    ensures
        is_ring(after, bin, list),
{
    assert forall|p: int| 0 <= p <= list.len() implies #[trigger] is_linked(
        after,
        bin,
        list,
        p,
    ) by {
        assert(is_linked(before, bin, list, p));
        if p > 0 {
            let _ = list[p - 1];
        }
        if p < list.len() {
            let _ = list[p];
        }
    }
}

/// Adding an index between the last one and the sentinel gives a longer ring.
proof fn lemma_ring_push(
    before: Seq<TimerEntry>,
    after: Seq<TimerEntry>,
    bin: int,
    list: Seq<u32>,
    idx: u32,
)
    requires
        is_ring(before, bin, list),
        list.no_duplicates(),
        !list.contains(idx),
        forall|p: int| 0 <= p < list.len() ==> (#[trigger] list[p]) != bin,
        bin != idx,
        ({
            let last = node(bin, list, list.len() as int);
            &&& after[last].next_idx == idx
            &&& after[idx as int].prev_idx == last
            &&& after[bin].prev_idx == idx
            &&& after[idx as int].next_idx == bin
            &&& last != bin ==> after[bin].next_idx == before[bin].next_idx && after[last].prev_idx
                == before[last].prev_idx
            &&& forall|p: int|
                0 <= p < list.len() - 1 ==> after[(#[trigger] list[p]) as int]
                    == before[list[p] as int]
        }),
    ensures
        is_ring(after, bin, list.push(idx)),
{
    let longer = list.push(idx);
    let n = list.len() as int;
    assert(is_linked(before, bin, list, n));
    assert forall|p: int| 0 <= p <= longer.len() implies #[trigger] is_linked(
        after,
        bin,
        longer,
        p,
    ) by {
        if p < n {
            assert(is_linked(before, bin, list, p));
            assert(node(bin, longer, p) == node(bin, list, p));
            assert(node(bin, longer, p + 1) == node(bin, list, p + 1));
            if 0 < p {
                let _ = list[p - 1];
            }
            let _ = list[p];
            if p + 1 == n {
                assert(node(bin, list, n) == list[n - 1]);
            }
        } else if p == n {
            assert(node(bin, longer, n) == node(bin, list, n));
            assert(node(bin, longer, n + 1) == idx);
        } else {
            assert(node(bin, longer, n + 1) == idx);
            assert(node(bin, longer, n + 2) == bin);
        }
    }
}

/// Taking an index out gives a shorter ring.
proof fn lemma_ring_remove(
    before: Seq<TimerEntry>,
    after: Seq<TimerEntry>,
    bin: int,
    list: Seq<u32>,
    i: int,
)
    requires
        is_ring(before, bin, list),
        list.no_duplicates(),
        0 <= i < list.len(),
        forall|p: int| 0 <= p < list.len() ==> (#[trigger] list[p]) != bin,
        ({
            let left = node(bin, list, i);
            let right = node(bin, list, i + 2);
            &&& after[left].next_idx == right
            &&& after[right].prev_idx == left
            &&& left != right ==> after[left].prev_idx == before[left].prev_idx
                && after[right].next_idx == before[right].next_idx
            &&& i > 0 && i + 1 < list.len() ==> after[bin] == before[bin]
            &&& forall|p: int|
                0 <= p < list.len() && p != i && p != i - 1 && p != i + 1 ==> after[(
                #[trigger] list[p]) as int] == before[list[p] as int]
        }),
    ensures
        is_ring(after, bin, list.remove(i)),
{
    let shorter = list.remove(i);
    let n = list.len() as int;
    assert(is_linked(before, bin, list, i));
    assert(is_linked(before, bin, list, i + 1));
    assert forall|p: int| 0 <= p <= shorter.len() implies #[trigger] is_linked(
        after,
        bin,
        shorter,
        p,
    ) by {
        if p < i {
            assert(node(bin, shorter, p) == node(bin, list, p));
            assert(node(bin, shorter, p + 1) == node(bin, list, p + 1));
            assert(is_linked(before, bin, list, p));
            if 0 < p {
                assert(list[p - 1] != list[i]);
                assert(i + 1 < n ==> list[p - 1] != list[i + 1]);
            }
            let _ = list[p];
        } else if p == i {
            assert(node(bin, shorter, p) == node(bin, list, p));
            assert(node(bin, shorter, p + 1) == node(bin, list, p + 2));
        } else {
            assert(node(bin, shorter, p) == node(bin, list, p + 1));
            assert(node(bin, shorter, p + 1) == node(bin, list, p + 2));
            assert(is_linked(before, bin, list, p + 1));
            let _ = list[p];
            if p + 1 < n {
                let _ = list[p + 1];
            }
        }
    }
}

impl<T> Slots<T> {
    spec fn timer(&self, idx: u32) -> Timer<T> {
        Timer {
            id: idx,
            timeout_time_ms: self.timer_entries@[idx as int].timeout_time_ms,
            data: self.timer_data@[idx as int]->0,
        }
    }

    spec fn timers(&self, list: Seq<u32>) -> Seq<Timer<T>> {
        list.map_values(|idx: u32| self.timer(idx))
    }

    spec fn is_timer_index(&self, idx: u32) -> bool {
        self.lists@.len() <= idx < self.timer_entries@.len()
    }

    /// Whether an index stands in the list of the bin in which it is said to be.
    spec fn is_member(&self, bin: int, idx: u32) -> bool {
        self.is_timer_index(idx) && self.homes@[idx as int] == bin
    }

    spec fn has_home(&self, idx: int) -> bool {
        let home = self.homes@[idx];
        &&& (home >= 0) == (self.timer_data@[idx] is Some)
        &&& home >= 0 ==> home < self.lists@.len() && self.lists@[home].contains(idx as u32)
    }

    spec fn is_free(&self, idx: u32) -> bool {
        self.is_timer_index(idx) && self.homes@[idx as int] < 0
    }

    spec fn is_bin(&self, bin: int) -> bool {
        &&& is_ring(self.timer_entries@, bin, self.lists@[bin])
        &&& self.lists@[bin].no_duplicates()
        &&& forall|p: int|
            0 <= p < self.lists@[bin].len() ==> self.is_member(
                bin,
                #[trigger] self.lists@[bin][p],
            )
    }

    pub closed spec fn inv(&self) -> bool {
        &&& self.timer_entries@.len() == self.timer_data@.len()
        &&& self.timer_entries@.len() == self.homes@.len()
        &&& self.timer_entries@.len() <= u32::MAX + 1
        &&& self.lists@.len() <= self.timer_entries@.len()
        &&& forall|bin: int| 0 <= bin < self.lists@.len() ==> #[trigger] self.is_bin(bin)
        &&& forall|idx: int| 0 <= idx < self.homes@.len() ==> #[trigger] self.has_home(idx)
        &&& forall|i: int|
            0 <= i < self.free_list@.len() ==> self.is_free(#[trigger] self.free_list@[i])
        &&& self.free_list@.no_duplicates()
    }
}

impl<T> View for Slots<T> {
    type V = SlotsState<T>;

    closed spec fn view(&self) -> SlotsState<T> {
        SlotsState {
            bins: self.lists@.map_values(|list: Seq<u32>| self.timers(list)),
            free: self.free_list@,
            slot_count: self.timer_entries@.len(),
        }
    }
}

impl<T> Slots<T> {
    pub proof fn lemma_unique_ids(&self)
        requires
            self.inv(),
        ensures
            self@.has_unique_ids(),
    {
        assert forall|id: u32, bin_a: int, a: int, bin_b: int, b: int| #[trigger]
            self@.is_at(id, bin_a, a) && #[trigger] self@.is_at(id, bin_b, b) implies bin_a == bin_b
            && a == b by {
            assert(self.is_bin(bin_a) && self.is_bin(bin_b));
            assert(self.lists@[bin_a][a] == id && self.lists@[bin_b][b] == id);
            assert(self.is_member(bin_a, self.lists@[bin_a][a]));
            assert(self.is_member(bin_b, self.lists@[bin_b][b]));
        }
    }

    proof fn lemma_list(&self, bin: int)
        requires
            self.inv(),
            0 <= bin < self@.bins.len(),
        ensures
            self.lists@.len() == self@.bins.len(),
            self.is_bin(bin),
            self.lists@[bin].len() == self@.bins[bin].len(),
            forall|p: int|
                0 <= p < self.lists@[bin].len() ==> {
                    &&& (#[trigger] self.lists@[bin][p]) != bin
                    &&& self@.bins[bin][p] == self.timer(self.lists@[bin][p])
                    &&& self@.is_at(self.lists@[bin][p], bin, p)
                    &&& self.lists@[bin][p] < self.timer_entries@.len()
                },
    {
        assert(self.is_bin(bin));
        assert forall|p: int| 0 <= p < self.lists@[bin].len() implies {
            &&& (#[trigger] self.lists@[bin][p]) != bin
            &&& self@.bins[bin][p] == self.timer(self.lists@[bin][p])
            &&& self@.is_at(self.lists@[bin][p], bin, p)
            &&& self.lists@[bin][p] < self.timer_entries@.len()
        } by {
            assert(self.is_member(bin, self.lists@[bin][p]));
        }
    }

    /// Empty bins.
    pub fn new(bin_count: u32) -> (slots: Self)
        ensures
            slots.inv(),
            slots@.bins == Seq::new(bin_count as nat, |bin: int| Seq::<Timer<T>>::empty()),
            slots@.free == Seq::<u32>::empty(),
            slots@.slot_count == bin_count,
    {
        let mut timer_data: Vec<Option<T>> = Vec::new();
        let mut timer_entries: Vec<TimerEntry> = Vec::new();
        let mut idx: u32 = 0;
        while idx < bin_count
            invariant
                idx <= bin_count,
                timer_data@.len() == idx,
                timer_entries@.len() == idx,
                forall|i: int| 0 <= i < idx ==> (#[trigger] timer_data@[i]) is None,
                forall|i: int|
                    0 <= i < idx ==> (#[trigger] timer_entries@[i]).next_idx == i
                        && timer_entries@[i].prev_idx == i,
            decreases bin_count - idx,
        {
            timer_data.push(None);
            timer_entries.push(TimerEntry { next_idx: idx, prev_idx: idx, timeout_time_ms: 0 });
            idx += 1;
        }
        let slots = Self {
            timer_data,
            timer_entries,
            free_list: Vec::new(),
            lists: Ghost(Seq::new(bin_count as nat, |bin: int| Seq::empty())),
            homes: Ghost(Seq::new(bin_count as nat, |bin: int| -1int)),
        };
        proof {
            assert forall|bin: int| 0 <= bin < slots.lists@.len() implies #[trigger] slots.is_bin(
                bin,
            ) by {
                assert(slots.lists@[bin] =~= Seq::empty());
                assert(is_linked(slots.timer_entries@, bin, slots.lists@[bin], 0));
            }
            assert forall|bin: int| 0 <= bin < slots.lists@.len() implies #[trigger] slots@.bins[bin]
                == Seq::<Timer<T>>::empty() by {
                assert(slots.timers(slots.lists@[bin]) =~= Seq::empty());
            }
            assert(slots@.bins =~= Seq::new(
                bin_count as nat,
                |bin: int| Seq::<Timer<T>>::empty(),
            ));
        }
        slots
    }

    /// Whether a bin is empty.
    pub fn is_empty(&self, bin: u32) -> (empty: bool)
        requires
            self.inv(),
            bin < self@.bins.len(),
        ensures
            empty == (self@.bins[bin as int].len() == 0),
    {
        proof {
            let list = self.lists@[bin as int];
            assert(self.is_bin(bin as int));
            assert(is_linked(self.timer_entries@, bin as int, list, 0));
            if list.len() > 0 {
                assert(self.is_member(bin as int, list[0]));
            }
        }
        self.timer_entries[bin as usize].next_idx == bin
    }

    /// Whether a timer is set.
    pub fn is_set(&self, id: u32) -> (result: bool)
        requires
            self.inv(),
        ensures
            result == self@.is_set(id),
    {
        let result: bool = (id as usize) < self.timer_data.len() && self.timer_data[id as usize]
            .is_some();
        proof {
            if result {
                assert(self.has_home(id as int));
                let home = self.homes@[id as int];
                let i = choose|i: int|
                    0 <= i < self.lists@[home].len() && #[trigger] self.lists@[home][i] == id;
                assert(self@.is_at(id, home, i));
            } else if self@.is_set(id) {
                let (bin, i) = choose|bin: int, i: int| self@.is_at(id, bin, i);
                assert(self.is_bin(bin));
                assert(self.is_member(bin, self.lists@[bin][i]));
                assert(self.has_home(id as int));
            }
        }
        result
    }

    /// Whether there is a number left for another timer.
    pub fn has_room(&self) -> (result: bool)
        requires
            self.inv(),
        ensures
            result == self@.has_room(),
    {
        self.free_list.len() > 0 || self.timer_entries.len() <= u32::MAX as usize
    }

    /// Takes a number for a timer, and fills in its entry. The entry is not in any bin yet.
    fn allocate(&mut self, timeout_time_ms: u64, data: T) -> (idx: u32)
        requires
            old(self).inv(),
            old(self)@.has_room(),
        ensures
            idx == old(self)@.next_id(),
            final(self).lists@ == old(self).lists@,
            final(self).lists@.len() <= idx < final(self).timer_entries@.len(),
            final(self).timer_entries@.len() <= u32::MAX + 1,
            final(self).timer_entries@.len() == old(self)@.after_set(
                0,
                timeout_time_ms,
                data,
            ).slot_count,
            final(self).free_list@ == old(self)@.after_set(0, timeout_time_ms, data).free,
            final(self).timer_data@.len() == final(self).timer_entries@.len(),
            final(self).homes@.len() == final(self).timer_entries@.len(),
            final(self).timer_data@[idx as int] == Some(data),
            final(self).timer_entries@[idx as int].timeout_time_ms == timeout_time_ms,
            final(self).homes@[idx as int] == -1,
            idx < old(self).homes@.len() ==> old(self).homes@[idx as int] < 0,
            forall|i: int|
                #![trigger final(self).homes@[i]]
                #![trigger final(self).timer_data@[i]]
                #![trigger final(self).timer_entries@[i]]
                0 <= i < old(self).homes@.len() && i != idx ==> {
                    &&& final(self).homes@[i] == old(self).homes@[i]
                    &&& final(self).timer_data@[i] == old(self).timer_data@[i]
                    &&& final(self).timer_entries@[i] == old(self).timer_entries@[i]
                },
            old(self).homes@.len() <= final(self).homes@.len() <= old(self).homes@.len() + 1,
            !final(self).free_list@.contains(idx),
    {
        if let Some(timer_idx) = self.free_list.pop() {
            proof {
                let last = old(self).free_list@.len() - 1;
                assert(old(self).is_free(old(self).free_list@[last]));
                assert(self.free_list@ =~= old(self).free_list@.drop_last());
                if self.free_list@.contains(timer_idx) {
                    let i = choose|i: int|
                        0 <= i < self.free_list@.len() && #[trigger] self.free_list@[i]
                            == timer_idx;
                    assert(old(self).free_list@[i] == old(self).free_list@[last]);
                }
                self.homes@ = self.homes@.update(timer_idx as int, -1int);
            }
            // Update existing entry in the timer table
            self.timer_data[timer_idx as usize] = Some(data);
            let entry = self.timer_entries[timer_idx as usize];
            self.timer_entries[timer_idx as usize] = TimerEntry { timeout_time_ms, ..entry };
            timer_idx
        } else {
            proof {
                assert(self.free_list@.len() == 0);
            }
            let timer_idx: u32 = self.timer_data.len() as u32;
            // Create new entries in the timer table
            self.timer_data.push(Some(data));
            self.timer_entries.push(
                TimerEntry { next_idx: timer_idx, prev_idx: timer_idx, timeout_time_ms },
            );
            proof {
                self.homes@ = self.homes@.push(-1int);
            }
            timer_idx
        }
    }

    /// Adds a timer to the end of a bin.
    pub fn set(&mut self, bin: u32, timeout_time_ms: u64, data: T) -> (id: u32)
        requires
            old(self).inv(),
            old(self)@.has_room(),
            bin < old(self)@.bins.len(),
        ensures
            final(self).inv(),
            final(self)@ == old(self)@.after_set(bin as int, timeout_time_ms, data),
            id == old(self)@.next_id(),
    {
        let timer_idx: u32 = self.allocate(timeout_time_ms, data);

        let sentinel_prev_idx: u32 = self.timer_entries[bin as usize].prev_idx;
        let ghost list = self.lists@[bin as int];
        proof {
            assert(old(self).is_bin(bin as int));
            assert(is_linked(old(self).timer_entries@, bin as int, list, list.len() as int));
            assert(sentinel_prev_idx == node(bin as int, list, list.len() as int));
            if list.len() > 0 {
                assert(old(self).is_member(bin as int, list[list.len() - 1]));
            }
        }

        // sentinel.prev.next := timer
        self.timer_entries[sentinel_prev_idx as usize].next_idx = timer_idx;
        // timer.prev := sentinel.prev
        self.timer_entries[timer_idx as usize].prev_idx = sentinel_prev_idx;
        // sentinel.prev := timer
        self.timer_entries[bin as usize].prev_idx = timer_idx;
        // timer.next := sentinel
        self.timer_entries[timer_idx as usize].next_idx = bin;

        proof {
            self.lists@ = self.lists@.update(bin as int, list.push(timer_idx));
            self.homes@ = self.homes@.update(timer_idx as int, bin as int);
            self.lemma_set(*old(self), bin as int, timer_idx);
            assert forall|b: int| 0 <= b < self.lists@.len() implies #[trigger] self@.bins[b]
                == old(self)@.after_set(bin as int, timeout_time_ms, data).bins[b] by {
                assert(old(self).is_bin(b));
                assert forall|p: int| 0 <= p < old(self).lists@[b].len() implies self.timer(
                    #[trigger] old(self).lists@[b][p],
                ) == old(self).timer(old(self).lists@[b][p]) by {
                    assert(old(self).is_member(b, old(self).lists@[b][p]));
                }
                assert(self@.bins[b] =~= old(self)@.after_set(
                    bin as int,
                    timeout_time_ms,
                    data,
                ).bins[b]);
            }
            assert(self@.bins =~= old(self)@.after_set(bin as int, timeout_time_ms, data).bins);
        }
        timer_idx
    }

    proof fn lemma_set(self, before: Self, bin: int, idx: u32)
        requires
            before.inv(),
            0 <= bin < before.lists@.len(),
            before.lists@.len() <= idx < self.timer_entries@.len(),
            self.timer_data@.len() == self.timer_entries@.len(),
            self.homes@.len() == self.timer_entries@.len(),
            before.homes@.len() <= self.homes@.len() <= before.homes@.len() + 1,
            self.homes@.len() > before.homes@.len() ==> idx == before.homes@.len(),
            self.timer_entries@.len() <= u32::MAX + 1,
            idx < before.homes@.len() ==> before.homes@[idx as int] < 0,
            self.lists@ == before.lists@.update(bin, before.lists@[bin].push(idx)),
            self.homes@[idx as int] == bin,
            self.timer_data@[idx as int] is Some,
            self.free_list@.no_duplicates(),
            forall|i: int|
                0 <= i < self.free_list@.len() ==> before.free_list@.contains(
                    #[trigger] self.free_list@[i],
                ) && self.free_list@[i] != idx,
            ({
                let last = node(bin, before.lists@[bin], before.lists@[bin].len() as int);
                &&& self.timer_entries@[last].next_idx == idx
                &&& self.timer_entries@[idx as int].prev_idx == last
                &&& self.timer_entries@[bin].prev_idx == idx
                &&& self.timer_entries@[idx as int].next_idx == bin
                &&& last != bin ==> self.timer_entries@[bin].next_idx
                    == before.timer_entries@[bin].next_idx && self.timer_entries@[last].prev_idx
                    == before.timer_entries@[last].prev_idx
                &&& forall|i: int|
                    #![trigger self.homes@[i]]
                    #![trigger self.timer_data@[i]]
                    #![trigger self.timer_entries@[i]]
                    0 <= i < before.homes@.len() && i != idx ==> {
                        &&& self.homes@[i] == before.homes@[i]
                        &&& self.timer_data@[i] == before.timer_data@[i]
                        &&& i != bin && i != last ==> self.timer_entries@[i]
                            == before.timer_entries@[i]
                    }
            }),
        ensures
            self.inv(),
    {
        let list = before.lists@[bin];
        let last = node(bin, list, list.len() as int);
        assert(before.is_bin(bin));
        if list.len() > 0 {
            assert(before.is_member(bin, list[list.len() - 1]));
        }
        if list.contains(idx) {
            let p = choose|p: int| 0 <= p < list.len() && #[trigger] list[p] == idx;
            assert(before.is_member(bin, list[p]));
        }
        assert forall|b: int| 0 <= b < self.lists@.len() implies #[trigger] self.is_bin(b) by {
            assert(before.is_bin(b));
            let l = before.lists@[b];
            assert forall|p: int| 0 <= p < l.len() implies before.is_member(b, #[trigger] l[p])
                && l[p] != idx && self.homes@[l[p] as int] == b by {
                assert(before.is_member(b, l[p]));
            }
            if b == bin {
                lemma_ring_push(before.timer_entries@, self.timer_entries@, bin, list, idx);
                assert(self.lists@[b].no_duplicates());
            } else {
                lemma_ring_frame(before.timer_entries@, self.timer_entries@, b, l);
            }
        }
        assert forall|i: int| 0 <= i < self.homes@.len() implies #[trigger] self.has_home(i) by {
            if i == idx {
                assert(self.lists@[bin][list.len() as int] == idx);
            } else {
                assert(before.has_home(i));
                let home = before.homes@[i];
                if home >= 0 {
                    let p = choose|p: int|
                        0 <= p < before.lists@[home].len() && #[trigger] before.lists@[home][p]
                            == i as u32;
                    assert(self.lists@[home][p] == i as u32);
                }
            }
        }
        assert forall|i: int| 0 <= i < self.free_list@.len() implies self.is_free(
            #[trigger] self.free_list@[i],
        ) by {
            let j = choose|j: int|
                0 <= j < before.free_list@.len() && #[trigger] before.free_list@[j]
                    == self.free_list@[i];
            assert(before.is_free(before.free_list@[j]));
        }
    }

    /// Takes the timer at position `i` out of its bin.
    fn take(&mut self, timer_idx: u32, Ghost(bin): Ghost<int>, Ghost(i): Ghost<int>) -> (data: T)
        requires
            old(self).inv(),
            old(self)@.is_at(timer_idx, bin, i),
        ensures
            final(self).inv(),
            final(self)@ == old(self)@.after_unset(bin, i),
            final(self).lists@ == old(self).lists@.update(bin, old(self).lists@[bin].remove(i)),
            data == old(self)@.bins[bin][i].data,
    {
        let ghost list = self.lists@[bin];
        proof {
            assert(self.is_bin(bin));
            assert(list[i] == timer_idx);
            assert(self.is_member(bin, list[i]));
            assert(self.has_home(timer_idx as int));
            assert(is_linked(self.timer_entries@, bin, list, i));
            assert(is_linked(self.timer_entries@, bin, list, i + 1));
            if i > 0 {
                assert(self.is_member(bin, list[i - 1]));
            }
            if i + 1 < list.len() {
                assert(self.is_member(bin, list[i + 1]));
            }
        }
        let timer_next_idx: u32 = self.timer_entries[timer_idx as usize].next_idx;
        let timer_prev_idx: u32 = self.timer_entries[timer_idx as usize].prev_idx;

        // timer.prev.next := timer.next
        self.timer_entries[timer_prev_idx as usize].next_idx = timer_next_idx;
        // timer.next.prev := timer.prev
        self.timer_entries[timer_next_idx as usize].prev_idx = timer_prev_idx;
        // timer.next := timer
        self.timer_entries[timer_idx as usize].next_idx = timer_idx;
        // timer.prev := timer
        self.timer_entries[timer_idx as usize].prev_idx = timer_idx;

        let mut taken: Option<T> = None;
        std::mem::swap(&mut taken, &mut self.timer_data[timer_idx as usize]);
        self.free_list.push(timer_idx);

        proof {
            self.lists@ = self.lists@.update(bin, list.remove(i));
            self.homes@ = self.homes@.update(timer_idx as int, -1int);
            self.lemma_take(*old(self), bin, i);
            let goal = old(self)@.after_unset(bin, i);
            assert forall|b: int| 0 <= b < self.lists@.len() implies #[trigger] self@.bins[b]
                == goal.bins[b] by {
                assert(old(self).is_bin(b));
                assert forall|p: int| 0 <= p < self.lists@[b].len() implies self.timer(
                    #[trigger] self.lists@[b][p],
                ) == old(self).timer(self.lists@[b][p]) by {
                    assert(self.is_bin(b));
                    assert(self.is_member(b, self.lists@[b][p]));
                }
                assert(self@.bins[b] =~= goal.bins[b]);
            }
            assert(self@.bins =~= goal.bins);
        }
        taken.unwrap()
    }

    proof fn lemma_take(self, before: Self, bin: int, i: int)
        requires
            before.inv(),
            0 <= bin < before.lists@.len(),
            0 <= i < before.lists@[bin].len(),
            self.timer_entries@.len() == before.timer_entries@.len(),
            self.timer_data@.len() == before.timer_data@.len(),
            self.lists@ == before.lists@.update(bin, before.lists@[bin].remove(i)),
            self.free_list@ == before.free_list@.push(before.lists@[bin][i]),
            ({
                let list = before.lists@[bin];
                let idx = list[i] as int;
                let left = node(bin, list, i);
                let right = node(bin, list, i + 2);
                &&& self.homes@ == before.homes@.update(idx, -1int)
                &&& self.timer_data@ == before.timer_data@.update(idx, None)
                &&& self.timer_entries@[left].next_idx == right
                &&& self.timer_entries@[right].prev_idx == left
                &&& left != right ==> self.timer_entries@[left].prev_idx
                    == before.timer_entries@[left].prev_idx && self.timer_entries@[right].next_idx
                    == before.timer_entries@[right].next_idx
                &&& forall|k: int|
                    0 <= k < before.homes@.len() && k != idx && k != left && k != right ==> (
                    #[trigger] self.timer_entries@[k]) == before.timer_entries@[k]
            }),
        ensures
            self.inv(),
    {
        let list = before.lists@[bin];
        let idx = list[i];
        assert(before.is_bin(bin));
        assert(before.is_member(bin, list[i]));
        if i > 0 {
            assert(before.is_member(bin, list[i - 1]));
        }
        if i + 1 < list.len() {
            assert(before.is_member(bin, list[i + 1]));
        }
        assert forall|b: int| 0 <= b < self.lists@.len() implies #[trigger] self.is_bin(b) by {
            assert(before.is_bin(b));
            let l = before.lists@[b];
            assert forall|p: int| 0 <= p < l.len() implies before.is_member(b, #[trigger] l[p]) && (
            b != bin ==> l[p] != idx) by {
                assert(before.is_member(b, l[p]));
            }
            if b == bin {
                let left = node(bin, list, i);
                let right = node(bin, list, i + 2);
                assert forall|p: int|
                    0 <= p < list.len() && p != i && p != i - 1 && p != i
                        + 1 implies self.timer_entries@[(#[trigger] list[p]) as int]
                    == before.timer_entries@[list[p] as int] by {
                    assert(before.is_member(b, list[p]));
                    assert(list[p] != list[i]);
                    if i > 0 {
                        assert(list[p] != list[i - 1]);
                    }
                    if i + 1 < list.len() {
                        assert(list[p] != list[i + 1]);
                    }
                }
                lemma_ring_remove(before.timer_entries@, self.timer_entries@, bin, list, i);
                let shorter = list.remove(i);
                assert forall|p: int, q: int|
                    0 <= p < shorter.len() && 0 <= q < shorter.len() && p
                        != q implies shorter[p] != shorter[q] by {
                    let p1 = if p < i {
                        p
                    } else {
                        p + 1
                    };
                    let q1 = if q < i {
                        q
                    } else {
                        q + 1
                    };
                    assert(list[p1] != list[q1]);
                }
                assert forall|p: int| 0 <= p < shorter.len() implies self.is_member(
                    bin,
                    #[trigger] shorter[p],
                ) by {
                    let p1 = if p < i {
                        p
                    } else {
                        p + 1
                    };
                    assert(list[p1] != list[i]);
                    assert(before.is_member(bin, list[p1]));
                }
            } else {
                lemma_ring_frame(before.timer_entries@, self.timer_entries@, b, l);
            }
        }
        assert forall|k: int| 0 <= k < self.homes@.len() implies #[trigger] self.has_home(k) by {
            assert(before.has_home(k));
            let home = before.homes@[k];
            if k != idx && home >= 0 {
                let p = choose|p: int|
                    0 <= p < before.lists@[home].len() && #[trigger] before.lists@[home][p]
                        == k as u32;
                if home == bin {
                    if p < i {
                        assert(self.lists@[bin][p] == k as u32);
                    } else {
                        assert(self.lists@[bin][p - 1] == k as u32);
                    }
                } else {
                    assert(self.lists@[home][p] == k as u32);
                }
            }
        }
        assert forall|k: int| 0 <= k < self.free_list@.len() implies self.is_free(
            #[trigger] self.free_list@[k],
        ) by {
            if k < before.free_list@.len() {
                assert(before.is_free(before.free_list@[k]));
            }
        }
        assert forall|p: int, q: int|
            0 <= p < self.free_list@.len() && 0 <= q < self.free_list@.len() && p
                != q implies self.free_list@[p] != self.free_list@[q] by {
            if p < before.free_list@.len() {
                assert(before.is_free(before.free_list@[p]));
            }
            if q < before.free_list@.len() {
                assert(before.is_free(before.free_list@[q]));
            }
        }
    }

    /// Takes a timer out of its bin.
    pub fn unset(&mut self, id: u32)
        requires
            old(self).inv(),
            old(self)@.is_set(id),
        ensures
            final(self).inv(),
            forall|bin: int, i: int| #[trigger]
                old(self)@.is_at(id, bin, i) ==> final(self)@ == old(self)@.after_unset(bin, i),
    {
        let ghost (bin, i) = choose|bin: int, i: int| self@.is_at(id, bin, i);
        proof {
            self.lemma_unique_ids();
        }
        let _ = self.take(id, Ghost(bin), Ghost(i));
    }

    /// Takes all timers out of a bin.
    pub fn expire_all(&mut self, bin: u32, expired_data: &mut Vec<T>)
        requires
            old(self).inv(),
            bin < old(self)@.bins.len(),
        ensures
            final(self).inv(),
            final(self)@ == old(self)@.after_expire_all(bin as int),
            final(expired_data)@ == old(expired_data)@ + data_of(old(self)@.bins[bin as int]),
    {
        let ghost start = self@;
        let ghost out = expired_data@;
        let ghost all = self@.bins[bin as int];
        let ghost mut j: int = 0;
        proof {
            assert(all.skip(0) =~= all);
            assert(start.bins.update(bin as int, all) =~= start.bins);
            assert(start.free + ids_of(all.take(0)) =~= start.free);
            assert(out + data_of(all.take(0)) =~= out);
        }
        while !self.is_empty(bin)
            invariant
                self.inv(),
                0 <= j <= all.len(),
                bin < start.bins.len(),
                all == start.bins[bin as int],
                self@ == (SlotsState {
                    bins: start.bins.update(bin as int, all.skip(j)),
                    free: start.free + ids_of(all.take(j)),
                    ..start
                }),
                expired_data@ == out + data_of(all.take(j)),
            decreases all.len() - j,
        {
            proof {
                self.lemma_list(bin as int);
                assert(is_linked(self.timer_entries@, bin as int, self.lists@[bin as int], 0));
            }
            let timer_idx: u32 = self.timer_entries[bin as usize].next_idx;
            assert(timer_idx == self.lists@[bin as int][0]);
            let data = self.take(timer_idx, Ghost(bin as int), Ghost(0int));
            expired_data.push(data);
            proof {
                assert(all.take(j + 1) =~= all.take(j).push(all[j]));
                assert(ids_of(all.take(j + 1)) =~= ids_of(all.take(j)).push(all[j].id));
                assert(data_of(all.take(j + 1)) =~= data_of(all.take(j)).push(all[j].data));
                assert(all.skip(j).remove(0) =~= all.skip(j + 1));
                j = j + 1;
                assert(self@ =~= SlotsState {
                    bins: start.bins.update(bin as int, all.skip(j)),
                    free: start.free + ids_of(all.take(j)),
                    ..start
                });
            }
        }
        proof {
            assert(all.skip(j) =~= Seq::empty());
            assert(all.take(j) =~= all);
        }
    }

    /// Takes those timers out of a bin whose time has come.
    pub fn expire_expired(&mut self, bin: u32, expired_data: &mut Vec<T>, time_now_ms: u64)
        requires
            old(self).inv(),
            bin < old(self)@.bins.len(),
        ensures
            final(self).inv(),
            final(self)@ == old(self)@.after_expire_expired(bin as int, time_now_ms),
            final(expired_data)@ == old(expired_data)@ + data_of(
                due(old(self)@.bins[bin as int], time_now_ms),
            ),
    {
        let ghost start = self@;
        let ghost out = expired_data@;
        let ghost all = self@.bins[bin as int];
        let ghost mut j: int = 0;
        let mut timer_idx: u32 = self.timer_entries[bin as usize].next_idx;
        proof {
            assert(self.is_bin(bin as int));
            assert(is_linked(self.timer_entries@, bin as int, self.lists@[bin as int], 0));
            assert(Seq::empty() + all.skip(0) =~= all);
            assert(start.bins.update(bin as int, all) =~= start.bins);
            assert(start.free + ids_of(due(all.take(0), time_now_ms)) =~= start.free);
            assert(out + data_of(due(all.take(0), time_now_ms)) =~= out);
        }
        while timer_idx != bin
            invariant
                self.inv(),
                0 <= j <= all.len(),
                bin < start.bins.len(),
                all == start.bins[bin as int],
                self@ == (SlotsState {
                    bins: start.bins.update(
                        bin as int,
                        pending(all.take(j), time_now_ms) + all.skip(j),
                    ),
                    free: start.free + ids_of(due(all.take(j), time_now_ms)),
                    ..start
                }),
                expired_data@ == out + data_of(due(all.take(j), time_now_ms)),
                timer_idx == node(
                    bin as int,
                    self.lists@[bin as int],
                    pending(all.take(j), time_now_ms).len() as int + 1,
                ),
            decreases all.len() - j,
        {
            let ghost list = self.lists@[bin as int];
            let ghost kept = pending(all.take(j), time_now_ms);
            let ghost k = kept.len() as int;
            proof {
                self.lemma_list(bin as int);
                assert(list.len() == k + (all.len() - j));
                assert(timer_idx == list[k]);
                assert(is_linked(self.timer_entries@, bin as int, list, k + 1));
                assert(self@.bins[bin as int][k] == all[j]);
                assert(all.take(j + 1).drop_last() =~= all.take(j));
                assert(all.take(j + 1).last() == all[j]);
            }
            let timer_next_idx: u32 = self.timer_entries[timer_idx as usize].next_idx;
            if self.timer_entries[timer_idx as usize].timeout_time_ms <= time_now_ms {
                let data = self.take(timer_idx, Ghost(bin as int), Ghost(k));
                expired_data.push(data);
                proof {
                    let due_now = due(all.take(j), time_now_ms);
                    assert(ids_of(due_now.push(all[j])) =~= ids_of(due_now).push(all[j].id));
                    assert(data_of(due_now.push(all[j])) =~= data_of(due_now).push(all[j].data));
                    assert((kept + all.skip(j)).remove(k) =~= kept + all.skip(j + 1));
                    assert(timer_next_idx == node(bin as int, self.lists@[bin as int], k + 1));
                }
            } else {
                proof {
                    assert(kept.push(all[j]) + all.skip(j + 1) =~= kept + all.skip(j));
                }
            }
            timer_idx = timer_next_idx;
            proof {
                j = j + 1;
                assert(self@ =~= SlotsState {
                    bins: start.bins.update(
                        bin as int,
                        pending(all.take(j), time_now_ms) + all.skip(j),
                    ),
                    free: start.free + ids_of(due(all.take(j), time_now_ms)),
                    ..start
                });
            }
        }
        proof {
            self.lemma_list(bin as int);
            let k = pending(all.take(j), time_now_ms).len() as int;
            if j < all.len() {
                assert(self.lists@[bin as int][k] != bin);
            }
            assert(all.take(j) =~= all);
            assert(pending(all, time_now_ms) + all.skip(j) =~= pending(all, time_now_ms));
        }
    }
}

} // verus!
