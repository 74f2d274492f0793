//! The sending side of the segment window.
//!
//! ```text
//!            base    next    base+size
//!            v       v       v
//! -----------########________--------> segment IDs
//! *********_*
//! ack history
//!
//! *: acknowledged
//! #: in transit
//! _: sendable
//! ```

use vstd::prelude::*;

use crate::bits::{
    bit, count_ones, is_window_size, lemma_bits_equal, lemma_push_bit, lemma_window_size, odd, ones,
    parity, push_bit, push_zeros,
};
use crate::id::{advance, delta};
use crate::random::random_bool;

verus! {

/// Tracks segments which are in transit, and those which went missing.
pub struct SegmentTx {
    base_id: u32,
    next_id: u32,
    size: u32,
    // Ring buffer of segment sizes corresponding to [base, next)
    transit_buf: Vec<usize>,
    // Ring buffer of nonce bits corresponding to [base, next)
    nonce_buf: Vec<u64>,
    // Sum of sizes in transit_buf
    transit_total: usize,
    // Bitfield representing segments acknowledged by receiver
    ack_history: u32,
    // Bitfield representing expected nonces corresponding to history
    nonce_history: u32,
}

/// What a [`SegmentTx`] holds.
#[verifier::ext_equal]
pub struct TxState {
    pub base_id: u32,
    pub next_id: u32,
    pub size: u32,
    /// The sizes of the segments in transit, which have the IDs from `base_id` up to `next_id`.
    pub transit: Seq<usize>,
    /// The nonces of the segments sent last; that of `id` is found at `id` modulo `size`.
    pub nonces: Seq<bool>,
    /// Bit `i` tells whether the segment `i + 1` places before `base_id` has been acknowledged.
    pub ack_history: u32,
    /// Bit `i` is the nonce of the segment `i + 1` places before `base_id`.
    pub nonce_history: u32,
}

/// The sum of some sizes.
pub open spec fn total(sizes: Seq<usize>) -> nat
    decreases sizes.len(),
{
    if sizes.len() == 0 {
        0
    } else {
        total(sizes.drop_last()) + sizes.last() as nat
    }
}

/// Whether segment `z` of an acknowledgement history is the oldest one which is missing.
pub open spec fn is_oldest_missing(history: u32, z: u32) -> bool {
    &&& z < 32
    &&& !bit(history, z)
    &&& forall|i: u32| z < i < 32 ==> bit(history, i)
}

/// Whether a history shows a drop: the oldest missing segment is 32 IDs old, or three segments
/// after it have been acknowledged.
pub open spec fn shows_drop(history: u32) -> bool {
    exists|z: u32| #[trigger] is_oldest_missing(history, z) && (z == 31 || ones(history, z) >= 3)
}

/// Whether a missing segment would be more than 32 IDs old once `n` more segments are taken in.
pub open spec fn drops_when_shifted(history: u32, n: int) -> bool {
    n > 32 || exists|z: u32| z < 32 && !#[trigger] bit(history, z) && z + n >= 32
}

/// The history once `n` more segments are taken in, of which the receiver reports those in
/// `rx_history` as received. The report counts only if it carries the right nonce.
pub open spec fn merged_history(
    history: u32,
    n: int,
    nonce_history: u32,
    rx_history: u32,
    rx_history_nonce: bool,
) -> u32 {
    if odd(nonce_history & rx_history) == rx_history_nonce {
        push_zeros(history, n) | rx_history
    } else {
        push_zeros(history, n)
    }
}

impl TxState {
    pub open spec fn wf(self) -> bool {
        &&& is_window_size(self.size)
        &&& self.transit.len() == delta(self.next_id, self.base_id)
        &&& self.transit.len() <= self.size
        &&& self.nonces.len() == self.size
        &&& total(self.transit) <= usize::MAX
    }

    pub open spec fn can_send(self) -> bool {
        self.transit.len() < self.size
    }

    pub open spec fn nonce(self, id: u32) -> bool {
        self.nonces[id as int % self.size as int]
    }

    /// Whether everything before `rx_base_id` has been sent, so that it can be acknowledged.
    pub open spec fn ack_is_valid(self, rx_base_id: u32) -> bool {
        delta(rx_base_id, self.base_id) <= self.transit.len()
    }

    /// The nonce history once the first `n` segments in transit are taken in.
    pub open spec fn nonce_history_after(self, n: int) -> u32
        decreases n,
    {
        if n <= 0 {
            self.nonce_history
        } else {
            push_bit(self.nonce_history_after(n - 1), self.nonce(advance(self.base_id, n - 1)))
        }
    }

    /// Whether an acknowledgement, taken in, reveals that a segment was dropped.
    pub open spec fn ack_shows_drop(
        self,
        rx_base_id: u32,
        rx_history: u32,
        rx_history_nonce: bool,
    ) -> bool {
        let n = delta(rx_base_id, self.base_id);
        &&& self.ack_is_valid(rx_base_id)
        &&& drops_when_shifted(self.ack_history, n) || shows_drop(
            merged_history(
                self.ack_history,
                n,
                self.nonce_history_after(n),
                rx_history,
                rx_history_nonce,
            ),
        )
    }

    /// The state once an acknowledgement has come in. An invalid one changes nothing. After a drop
    /// the history starts over, as if everything so far had been acknowledged.
    pub open spec fn after_ack(self, rx_base_id: u32, rx_history: u32, rx_history_nonce: bool) -> TxState {
        let n = delta(rx_base_id, self.base_id);
        if self.ack_is_valid(rx_base_id) {
            TxState {
                base_id: rx_base_id,
                transit: self.transit.skip(n),
                nonce_history: self.nonce_history_after(n),
                ack_history: if self.ack_shows_drop(rx_base_id, rx_history, rx_history_nonce) {
                    u32::MAX
                } else {
                    merged_history(
                        self.ack_history,
                        n,
                        self.nonce_history_after(n),
                        rx_history,
                        rx_history_nonce,
                    )
                },
                ..self
            }
        } else {
            self
        }
    }
}

/// Bit `i` of a word of nonces.
spec fn word_bit(word: u64, i: int) -> bool {
    (word >> (i as u64)) & 1 == 1
}

impl SegmentTx {
    spec fn slot_nonce(&self, i: int) -> bool {
        word_bit(self.nonce_buf@[i / 64], 63 - i % 64)
    }

    /// What holds of the ring buffers.
    pub closed spec fn inv(&self) -> bool {
        &&& is_window_size(self.size)
        &&& self.transit_buf@.len() == self.size
        &&& self.nonce_buf@.len() == self.size / 64
        &&& delta(self.next_id, self.base_id) <= self.size
        &&& self.transit_total == total(self@.transit)
    }

    pub open spec fn wf(&self) -> bool {
        self.inv() && self@.wf()
    }
}

impl View for SegmentTx {
    type V = TxState;

    closed spec fn view(&self) -> TxState {
        TxState {
            base_id: self.base_id,
            next_id: self.next_id,
            size: self.size,
            transit: Seq::new(
                delta(self.next_id, self.base_id) as nat,
                |i: int| self.transit_buf@[advance(self.base_id, i) as int % self.size as int],
            ),
            nonces: Seq::new(self.size as nat, |i: int| self.slot_nonce(i)),
            ack_history: self.ack_history,
            nonce_history: self.nonce_history,
        }
    }
}

/// Consecutive IDs, as many as there are slots, each have a slot of their own.
pub(crate) proof fn lemma_slots(base: u32, i: int, j: int, size: u32)
    requires
        is_window_size(size),
        0 <= i < j < size,
    ensures
        advance(base, i) as int % size as int != advance(base, j) as int % size as int,
{
    lemma_window_size(size);
    let s = size as int;
    let k = 0x1_0000_0000int / s;
    vstd::arithmetic::div_mod::lemma_fundamental_div_mod(0x1_0000_0000, s);
    assert(s * k == 0x1_0000_0000);
    assert(k > 0) by (nonlinear_arith)
        requires
            s * k == 0x1_0000_0000,
            s > 0,
    ;
    vstd::arithmetic::div_mod::lemma_mod_mod(base + i, s, k);
    vstd::arithmetic::div_mod::lemma_mod_mod(base + j, s, k);
    if (base + i) % s == (base + j) % s {
        vstd::arithmetic::div_mod::lemma_mod_equivalence(base + j, base + i, s);
        assert((j - i) % s == 0);
        vstd::arithmetic::div_mod::lemma_small_mod((j - i) as nat, s as nat);
    }
}

/// A slot lies in the word, and at the place in it, that its ID tells.
proof fn lemma_word(id: u32, size: u32)
    requires
        is_window_size(size),
    ensures
        (id / 64) as int % (size / 64) as int == (id as int % size as int) / 64,
        id % 64 == (id as int % size as int) % 64,
        0 <= (id as int % (size as int)) < size,
        0 <= ((id / 64) as int % ((size / 64) as int)) < size / 64,
{
    lemma_window_size(size);
    let m = (size / 64) as int;
    vstd::arithmetic::div_mod::lemma_mod_breakdown(id as int, 64, m);
}

proof fn lemma_total_push(sizes: Seq<usize>, size: usize)
    ensures
        total(sizes.push(size)) == total(sizes) + size,
{
    assert(sizes.push(size).drop_last() =~= sizes);
}

proof fn lemma_total_skip(sizes: Seq<usize>, n: int)
    requires
        0 <= n < sizes.len(),
    ensures
        total(sizes.skip(n)) == sizes[n] + total(sizes.skip(n + 1)),
    decreases sizes.len(),
{
    let last = sizes.len() - 1;
    assert(sizes.skip(n).drop_last() =~= sizes.drop_last().skip(n));
    if n < last {
        assert(sizes.skip(n + 1).drop_last() =~= sizes.drop_last().skip(n + 1));
        lemma_total_skip(sizes.drop_last(), n);
    } else {
        assert(sizes.skip(n).drop_last() =~= Seq::empty());
        assert(sizes.skip(n + 1) =~= Seq::empty());
    }
}

/// Bit `i` of the nonce history once `n` segments are taken in belongs to the segment `i + 1` places
/// before the new base ID.
pub(crate) proof fn lemma_nonce_history_bit(state: TxState, n: int, i: u32)
    requires
        n >= 0,
        i < 32,
    ensures
        bit(state.nonce_history_after(n), i) == if i < n {
            state.nonce(advance(state.base_id, n - 1 - i))
        } else {
            bit(state.nonce_history, (i - n) as u32)
        },
    decreases n,
{
    if n > 0 {
        let shorter = state.nonce_history_after(n - 1);
        lemma_push_bit(shorter, state.nonce(advance(state.base_id, n - 1)), i);
        if i > 0 {
            lemma_nonce_history_bit(state, n - 1, (i - 1) as u32);
        }
    }
}

proof fn lemma_slot_nonce(tx: SegmentTx, id: u32)
    requires
        tx.wf(),
    ensures
        tx@.nonce(id) == word_bit(
            tx.nonce_buf@[(id / 64) as int % (tx.size / 64) as int],
            63 - (id % 64) as int,
        ),
{
    lemma_word(id, tx.size);
    assert(tx@.nonces[id as int % tx.size as int] == tx.slot_nonce(id as int % tx.size as int));
}

/// The history `h` makes room for `n` bits.
spec fn with_room(h: u32, n: u32) -> u32 {
    if n == 32 {
        0
    } else {
        h << n
    }
}

/// The `n` bits of a word which end `p` bits from its most significant end.
spec fn extract(word: u64, p: u32, n: u32) -> u32 {
    ((word >> ((64 - p) as u32)) & (((1u64 << n) - 1) as u64)) as u32
}

proof fn lemma_bits_from_one_word(h: u32, word: u64, p: u32, n: u32, i: u32)
    by (bit_vector)
    requires
        0 < n <= 32,
        n <= p < 64,
        i < 32,
    ensures
        bit(with_room(h, n) | extract(word, p, n), i) == if i < n {
            (word >> ((64 - p + i) as u64)) & 1 == 1
        } else {
            bit(h, (i - n) as u32)
        },
{
}

proof fn lemma_bits_from_word_end(h: u32, word: u64, n: u32, i: u32)
    by (bit_vector)
    requires
        0 < n <= 32,
        i < 32,
    ensures
        bit(with_room(h, n) | (word & (((1u64 << n) - 1) as u64)) as u32, i) == if i < n {
            (word >> (i as u64)) & 1 == 1
        } else {
            bit(h, (i - n) as u32)
        },
{
}

proof fn lemma_bits_from_two_words(h: u32, a: u64, b: u64, p: u32, n: u32, i: u32)
    by (bit_vector)
    requires
        0 < p < n <= 32,
        i < 32,
    ensures
        bit(
            (with_room(h, n) | extract(b, p, p)) | ((a & (((1u64 << ((n - p) as u32)) - 1) as u64))
                << p) as u32,
            i,
        ) == if i < p {
            (b >> ((64 - p + i) as u64)) & 1 == 1
        } else if i < n {
            (a >> ((i - p) as u64)) & 1 == 1
        } else {
            bit(h, (i - n) as u32)
        },
{
}

/// Where the nonce of the segment `i + 1` places before `p1` is kept, if it is one of the `n`
/// segments before `p1`.
proof fn lemma_place(p1: u32, n: u32, i: u32)
    requires
        0 < n <= 32,
        i < n,
    ensures
        ({
            let p0 = p1.wrapping_sub(n);
            let id = advance(p1, -1 - i);
            let bits = p1 % 64;
            &&& p0 / 64 == p1 / 64 ==> n <= bits
            &&& p0 / 64 != p1 / 64 ==> bits < n
            &&& i < bits ==> id / 64 == p1 / 64 && id % 64 == bits - 1 - i
            &&& i >= bits ==> id / 64 == p0 / 64 && id % 64 == 63 + bits - i
        }),
{
    let p0 = p1.wrapping_sub(n);
    let id = advance(p1, -1 - i);
    let q = (p1 / 64) as int;
    let bits = (p1 % 64) as int;
    assert(p1 == 64 * q + bits);
    if p1 >= n {
        assert(p0 == 64 * q + bits - n);
        assert(id == 64 * q + bits - 1 - i);
    } else {
        assert(q == 0);
        assert(p0 == 0x1_0000_0000 + bits - n);
        assert(id == if i < bits {
            bits - 1 - i
        } else {
            0x1_0000_0000 + bits - 1 - i
        });
    }
}

/// The nonce history which the two words around `p1` give for the `n` segments before `p1`.
spec fn assembled(h: u32, a: u64, b: u64, p1: u32, n: u32) -> u32 {
    let bits = p1 % 64;
    if p1.wrapping_sub(n) / 64 == p1 / 64 {
        with_room(h, n) | extract(b, bits, n)
    } else if bits == 0 {
        with_room(h, n) | (a & (((1u64 << n) - 1) as u64)) as u32
    } else {
        (with_room(h, n) | extract(b, bits, bits)) | ((a & (((1u64 << ((n - bits) as u32)) - 1)
            as u64)) << bits) as u32
    }
}

/// The nonce of the segment `i + 1` places before `p1`, as the two words around `p1` show it.
proof fn lemma_recent_nonce(tx: SegmentTx, n: u32, p1: u32, a: u64, b: u64, i: u32)
    requires
        tx.wf(),
        0 < n <= 32,
        a == tx.nonce_buf@[(p1.wrapping_sub(n) / 64) as int % (tx.size / 64) as int],
        b == tx.nonce_buf@[(p1 / 64) as int % (tx.size / 64) as int],
        i < n,
    ensures
        tx@.nonce(advance(p1, -1 - i)) == if i < p1 % 64 {
            word_bit(b, 64 - p1 % 64 + i)
        } else {
            word_bit(a, i - p1 % 64)
        },
{
    let id = advance(p1, -1 - i);
    lemma_place(p1, n, i);
    lemma_slot_nonce(tx, id);
}

proof fn lemma_assembled_bit(tx: SegmentTx, count: int, n: u32, p1: u32, a: u64, b: u64, i: u32)
    requires
        tx.wf(),
        0 < count <= tx@.transit.len(),
        n == if count < 32 {
            count
        } else {
            32
        },
        p1 == advance(tx@.base_id, count),
        a == tx.nonce_buf@[(p1.wrapping_sub(n) / 64) as int % (tx.size / 64) as int],
        b == tx.nonce_buf@[(p1 / 64) as int % (tx.size / 64) as int],
        i < 32,
    ensures
        bit(assembled(tx.nonce_history, a, b, p1, n), i) == bit(tx@.nonce_history_after(count), i),
{
    let h = tx.nonce_history;
    let bits = p1 % 64;
    lemma_place(p1, n, 0);
    lemma_nonce_history_bit(tx@, count, i);
    if i < n {
        assert(advance(tx@.base_id, count - 1 - i) == advance(p1, -1 - i)) by {
            crate::id::lemma_advance_sum(tx@.base_id, count, -1 - i);
        }
        lemma_recent_nonce(tx, n, p1, a, b, i);
    }
    if p1.wrapping_sub(n) / 64 == p1 / 64 {
        lemma_bits_from_one_word(h, b, bits, n, i);
    } else if bits == 0 {
        lemma_bits_from_word_end(h, a, n, i);
    } else {
        lemma_bits_from_two_words(h, a, b, bits, n, i);
    }
}

proof fn lemma_assembled(tx: SegmentTx, count: int, n: u32, p1: u32, a: u64, b: u64)
    requires
        tx.wf(),
        0 < count <= tx@.transit.len(),
        n == if count < 32 {
            count
        } else {
            32
        },
        p1 == advance(tx@.base_id, count),
        a == tx.nonce_buf@[(p1.wrapping_sub(n) / 64) as int % (tx.size / 64) as int],
        b == tx.nonce_buf@[(p1 / 64) as int % (tx.size / 64) as int],
    ensures
        assembled(tx.nonce_history, a, b, p1, n) == tx@.nonce_history_after(count),
{
    let x = assembled(tx.nonce_history, a, b, p1, n);
    let y = tx@.nonce_history_after(count);
    assert forall|i: u32| i < 32 implies bit(x, i) == bit(y, i) by {
        lemma_assembled_bit(tx, count, n, p1, a, b, i);
    }
    lemma_bits_equal(x, y);
}

impl SegmentTx {
    pub fn new(base_id: u32, size: u32) -> (tx: Self)
        requires
            is_window_size(size),
        ensures
            tx.wf(),
            tx@ == (TxState {
                base_id,
                next_id: base_id,
                size,
                transit: Seq::empty(),
                nonces: Seq::new(size as nat, |i: int| false),
                ack_history: u32::MAX,
                nonce_history: 0,
            }),
    {
        let tx = Self {
            base_id,
            next_id: base_id,
            size,
            transit_buf: vec![0; size as usize],
            transit_total: 0,
            nonce_buf: vec![0; (size / 64) as usize],
            ack_history: u32::MAX,
            nonce_history: 0,
        };
        proof {
            lemma_window_size(size);
            assert(tx@.transit =~= Seq::empty());
            assert forall|i: int| 0 <= i < size implies !#[trigger] tx.slot_nonce(i) by {
                let k = (63 - i % 64) as u64;
                assert((0u64 >> k) & 1 == 0) by (bit_vector);
            }
            assert(tx@.nonces =~= Seq::new(size as nat, |i: int| false));
        }
        tx
    }

    pub fn next_id(&self) -> (id: u32)
        ensures
            id == self@.next_id,
    {
        self.next_id
    }

    /// Picks a random nonce for the next segment, and keeps it.
    pub fn compute_next_nonce(&mut self) -> (nonce: bool)
        requires
            old(self).wf(),
        ensures
            final(self).wf(),
            final(self)@ == (TxState {
                nonces: old(self)@.nonces.update(
                    old(self)@.next_id as int % old(self)@.size as int,
                    nonce,
                ),
                ..old(self)@
            }),
    {
        let nonce: bool = random_bool();
        self.set_next_nonce(nonce);
        nonce
    }

    /// Keeps the nonce of the next segment.
    pub fn set_next_nonce(&mut self, nonce: bool)
        requires
            old(self).wf(),
        ensures
            final(self).wf(),
            final(self)@ == (TxState {
                nonces: old(self)@.nonces.update(
                    old(self)@.next_id as int % old(self)@.size as int,
                    nonce,
                ),
                ..old(self)@
            }),
    {
        //  id |  0  1  2 ... 61 62 63 | 64 65 66 ...
        // bit | 63 62 61 ...  2  1  0 | 63 62 61 ...
        proof {
            lemma_word(self.next_id, self.size);
        }

        let idx: usize = ((self.next_id / 64) % (self.size / 64)) as usize;
        let bit_idx: u32 = self.next_id % 64;
        let bit_mask: u64 = 1u64 << (63 - bit_idx);

        let bitfield: u64 = self.nonce_buf[idx];

        if nonce {
            self.nonce_buf[idx] = bitfield | bit_mask;
        } else {
            self.nonce_buf[idx] = bitfield & !bit_mask;
        }

        proof {
            let slot = self.next_id as int % self.size as int;
            let k = (63 - bit_idx) as u64;
            lemma_window_size(self.size);
            assert(bit_mask == 1u64 << k);
            assert forall|i: int| 0 <= i < self.size implies #[trigger] self.slot_nonce(i) == (
            if i == slot {
                nonce
            } else {
                old(self).slot_nonce(i)
            }) by {
                let j = (63 - i % 64) as u64;
                assert(i / 64 == idx ==> (i == slot <==> j == k));
                assert(i / 64 != idx ==> self.nonce_buf@[i / 64] == old(self).nonce_buf@[i / 64]);
                assert(old(self).nonce_buf@[idx as int] == bitfield);
                assert(k < 64 && j < 64 ==> ((bitfield | (1u64 << k)) >> j) & 1 == if j == k {
                    1
                } else {
                    (bitfield >> j) & 1
                }) by (bit_vector);
                assert(k < 64 && j < 64 ==> ((bitfield & !(1u64 << k)) >> j) & 1 == if j == k {
                    0
                } else {
                    (bitfield >> j) & 1
                }) by (bit_vector);
            }
            assert(self@.nonces =~= old(self)@.nonces.update(slot, nonce));
            assert(self@.transit =~= old(self)@.transit);
        }
    }

    pub fn can_send(&self) -> (result: bool)
        requires
            self.wf(),
        ensures
            result == self@.can_send(),
    {
        self.next_id.wrapping_sub(self.base_id) < self.size
    }

    /// Notes that a segment of `size` bytes has been sent under the next ID.
    pub fn mark_sent(&mut self, size: usize)
        requires
            old(self).wf(),
            old(self)@.can_send(),
            total(old(self)@.transit) + size <= usize::MAX,
        ensures
            final(self).wf(),
            final(self)@ == (TxState {
                next_id: old(self)@.next_id.wrapping_add(1),
                transit: old(self)@.transit.push(size),
                ..old(self)@
            }),
    {
        proof {
            lemma_word(self.next_id, self.size);
            lemma_total_push(self@.transit, size);
        }
        let idx: usize = (self.next_id % self.size) as usize;
        self.transit_buf[idx] = size;
        self.transit_total = self.transit_total + size;

        self.next_id = self.next_id.wrapping_add(1);

        proof {
            let n = delta(old(self).next_id, self.base_id);
            assert forall|i: int| 0 <= i < n implies #[trigger] self@.transit[i] == old(
                self,
            )@.transit[i] by {
                lemma_slots(self.base_id, i, n, self.size);
                lemma_word(advance(self.base_id, i), self.size);
            }
            assert(self@.transit =~= old(self)@.transit.push(size));
            assert(self@.nonces =~= old(self)@.nonces);
        }
    }

    /// The number of bytes sent which have not been acknowledged.
    pub fn bytes_in_transit(&self) -> (bytes: usize)
        requires
            self.wf(),
        ensures
            bytes == total(self@.transit),
    {
        self.transit_total
    }

    /// Takes the nonces of the first `ack_delta` segments in transit, which end before
    /// `base_id_new`, over into the nonce history.
    fn update_nonce_history(&mut self, ack_delta: u32, base_id_new: u32)
        requires
            old(self).wf(),
            0 < ack_delta <= old(self)@.transit.len(),
            base_id_new == advance(old(self)@.base_id, ack_delta as int),
        ensures
            final(self).wf(),
            final(self)@ == (TxState {
                nonce_history: old(self)@.nonce_history_after(ack_delta as int),
                ..old(self)@
            }),
    {
        // We will extract at most 32 bits [p0, p1) from nonce_buf
        let new_bits: u32 = if ack_delta < 32 {
            ack_delta
        } else {
            32
        };

        let p1: u32 = base_id_new;
        let p0: u32 = base_id_new.wrapping_sub(new_bits);

        // Indexes into nonce_buf
        let p0_idx: u32 = p0 / 64;

        let p1_bits: u32 = p1 % 64;
        let p1_idx: u32 = p1 / 64;

        proof {
            lemma_word(p0, self.size);
            lemma_word(p1, self.size);
        }

        let bitfield_a: u64 = self.nonce_buf[(p0_idx % (self.size / 64)) as usize];
        let bitfield_b: u64 = self.nonce_buf[(p1_idx % (self.size / 64)) as usize];

        // Shift out room for bits from nonce_buf
        let mut x_new: u32 = if new_bits == 32 {
            0
        } else {
            self.nonce_history << new_bits
        };

        if p0_idx == p1_idx {
            // New bits come from bitfield B only
            // A               B
            // ################%%%%%%%%%%%%%%%%
            //            history xx------
            //                      ^     ^
            //                      p0    p1
            let shift: u32 = 64 - p1_bits;
            let mask: u64 = low_bits(new_bits);

            x_new = x_new | ((bitfield_b >> shift) & mask) as u32;
        } else if p1_bits == 0 {
            // New bits come from bitfield A only
            // A               B
            // ################%%%%%%%%%%%%%%%%
            // history xx------
            //           ^     ^
            //           p0    p1
            let mask: u64 = low_bits(new_bits);

            x_new = x_new | (bitfield_a & mask) as u32;
        } else {
            // New bits come from bitfields A and B
            // A               B
            // ################%%%%%%%%%%%%%%%%
            //    history xx------
            //              ^     ^
            //              p0    p1
            let mask_a: u64 = low_bits(new_bits - p1_bits);
            let mask_b: u64 = low_bits(p1_bits);

            let shift_a: u32 = p1_bits;
            let shift_b: u32 = 64 - p1_bits;

            x_new = x_new | ((bitfield_b >> shift_b) & mask_b) as u32;
            x_new = x_new | ((bitfield_a & mask_a) << shift_a) as u32;
        }

        proof {
            assert(x_new == assembled(self.nonce_history, bitfield_a, bitfield_b, p1, new_bits));
            lemma_assembled(*self, ack_delta as int, new_bits, p1, bitfield_a, bitfield_b);
        }

        self.nonce_history = x_new;
        assert(self@.transit =~= old(self)@.transit);
        assert(self@.nonces =~= old(self)@.nonces);
    }

    /// The nonce which the receiver must report for the segments in `rx_history`.
    fn expected_nonce(nonce_history: u32, rx_history: u32) -> (nonce: bool)
        ensures
            nonce == odd(nonce_history & rx_history),
    {
        parity(nonce_history & rx_history)
    }

    /// Tracks acknowledged segments from the receiver until a drop is detected. A drop is detected
    /// when three segments have been received after an unacknowledged segment, or any
    /// unacknowledged segment is behind the base ID by 32 IDs or more. When a drop is detected, the
    /// history resets to the default state where all segments have been acknowledged in order to
    /// detect the next drop.
    fn update_ack_history(
        &mut self,
        ack_delta: u32,
        rx_history: u32,
        rx_history_nonce: bool,
    ) -> (dropped: bool)
        requires
            old(self).wf(),
        ensures
            final(self).wf(),
            dropped == (drops_when_shifted(old(self)@.ack_history, ack_delta as int) || shows_drop(
                merged_history(
                    old(self)@.ack_history,
                    ack_delta as int,
                    old(self)@.nonce_history,
                    rx_history,
                    rx_history_nonce,
                ),
            )),
            final(self)@ == (TxState {
                ack_history: if dropped {
                    u32::MAX
                } else {
                    merged_history(
                        old(self)@.ack_history,
                        ack_delta as int,
                        old(self)@.nonce_history,
                        rx_history,
                        rx_history_nonce,
                    )
                },
                ..old(self)@
            }),
    {
        //                     base (prev)    base' (latest ack)
        //                     v              v
        // xxxxxxxx xxxxxxxx xx000000 00000000   self.ack_history
        //                     000000 000yyyyy   rx_history
        proof {
            lemma_leading_ones(self.ack_history);
        }

        if ack_delta > self.ack_history.leading_ones() {
            // Shifting would cause a zero to be >32 bits behind, that's a drop
            proof {
                let lead = vstd::std_specs::bits::u32_leading_ones(self.ack_history);
                if lead < 32 {
                    assert(!bit(self.ack_history, (31 - lead) as u32));
                }
            }
            self.ack_history = u32::MAX;
            assert(self@.transit =~= old(self)@.transit);
            assert(self@.nonces =~= old(self)@.nonces);
            return true;
        }
        // Shift in zeros corresponding to this delta

        let mut history: u32 = if ack_delta == 32 {
            0
        } else {
            self.ack_history << ack_delta
        };

        if Self::expected_nonce(self.nonce_history, rx_history) == rx_history_nonce {
            // Nonce checks out, add received history bits to history buffer
            history = history | rx_history;
        }
        proof {
            lemma_leading_ones(history);
        }

        let leading_ones: u32 = history.leading_ones();

        let dropped: bool = if leading_ones == 32 {
            // All segments accounted for, not a drop
            false
        } else if leading_ones == 0 {
            // Oldest unacknowledged segment is 32 IDs old, that's a drop
            assert(is_oldest_missing(history, 31));
            true
        } else {
            assert(is_oldest_missing(history, (31 - leading_ones) as u32));
            // Count the ones after the first zero. Three segments reported since the first
            // unacknowledged segment are equivalent to a TCP NDUPACK=3 condition
            count_ones(history, 31 - leading_ones) >= 3
        };

        proof {
            assert forall|z: u32| is_oldest_missing(history, z) implies z == 31
                - leading_ones by {
                if leading_ones < 32 {
                    assert(is_oldest_missing(history, (31 - leading_ones) as u32));
                }
            }
        }

        self.ack_history = if dropped {
            u32::MAX
        } else {
            history
        };
        assert(self@.transit =~= old(self)@.transit);
        assert(self@.nonces =~= old(self)@.nonces);
        return dropped;
    }

    /// Takes the first `ack_delta` segments, which end before `base_id_new`, out of transit.
    fn advance_base(&mut self, ack_delta: u32, base_id_new: u32)
        requires
            old(self).wf(),
            ack_delta <= old(self)@.transit.len(),
            base_id_new == advance(old(self)@.base_id, ack_delta as int),
        ensures
            final(self).wf(),
            final(self)@ == (TxState {
                base_id: base_id_new,
                transit: old(self)@.transit.skip(ack_delta as int),
                ..old(self)@
            }),
    {
        // Anything between the current base_id and the acknowledged base_id has very likely left
        // the network; subtract from running total
        let ghost transit = self@.transit;
        let mut transit_total: usize = self.transit_total;
        let mut i: u32 = 0;
        proof {
            assert(transit.skip(0) =~= transit);
        }
        while i < ack_delta
            invariant
                self.wf(),
                *self == *old(self),
                transit == self@.transit,
                ack_delta <= transit.len(),
                i <= ack_delta,
                transit_total == total(transit.skip(i as int)),
            decreases ack_delta - i,
        {
            let id: u32 = self.base_id.wrapping_add(i);
            proof {
                lemma_word(id, self.size);
                lemma_total_skip(transit, i as int);
                assert(id == advance(self.base_id, i as int));
                assert(transit[i as int] == self.transit_buf@[id as int % self.size as int]);
            }
            let size: usize = self.transit_buf[(id % self.size) as usize];

            transit_total = transit_total - size;
            i = i + 1;
        }

        // Advance the segment tx window
        self.transit_total = transit_total;
        self.base_id = base_id_new;
        proof {
            let base = old(self).base_id;
            crate::id::lemma_advance_delta(base, ack_delta as int);
            crate::id::lemma_delta_shift(self.next_id, base, ack_delta as int);
            assert forall|i: int| 0 <= i < self@.transit.len() implies self@.transit[i]
                == transit.skip(ack_delta as int)[i] by {
                crate::id::lemma_advance_sum(base, ack_delta as int, i);
            }
            assert(self@.transit =~= transit.skip(ack_delta as int));
            assert(self@.nonces =~= old(self)@.nonces);
        }
    }

    /// Acknowledges previously sent segments according to acknowledgement data. Returns true if a
    /// drop has been detected, false otherwise.
    pub fn acknowledge(
        &mut self,
        rx_base_id: u32,
        rx_history: u32,
        rx_history_nonce: bool,
    ) -> (dropped: bool)
        requires
            old(self).wf(),
        ensures
            final(self).wf(),
            dropped == old(self)@.ack_shows_drop(rx_base_id, rx_history, rx_history_nonce),
            final(self)@ == old(self)@.after_ack(rx_base_id, rx_history, rx_history_nonce),
    {
        let ack_delta: u32 = rx_base_id.wrapping_sub(self.base_id);

        // The delta ack must not exceed the next ID to be sent, else it is invalid
        if ack_delta <= self.next_id.wrapping_sub(self.base_id) {
            if ack_delta > 0 {
                self.update_nonce_history(ack_delta, rx_base_id);
                self.advance_base(ack_delta, rx_base_id);
            } else {
                assert(self@.transit.skip(0) =~= self@.transit);
            }

            // An ack delta of zero can still update previously received packets, so update
            // ack history regardless
            return self.update_ack_history(ack_delta, rx_history, rx_history_nonce);
        }
        // Invalid ack, not a drop

        return false;
    }
}

/// The leading ones of a history end at its oldest missing segment.
proof fn lemma_leading_ones(history: u32)
    ensures
        ({
            let lead = vstd::std_specs::bits::u32_leading_ones(history);
            &&& lead <= 32
            &&& forall|i: u32| 32 - lead <= i < 32 ==> bit(history, i)
            &&& lead < 32 ==> !bit(history, (31 - lead) as u32)
        }),
{
    vstd::std_specs::bits::axiom_u32_leading_ones(history);
    let lead = vstd::std_specs::bits::u32_leading_ones(history);
    assert forall|i: u32| 32 - lead <= i < 32 implies bit(history, i) by {
        assert((history >> i) & 1u32 == 1u32);
    }
}

/// Once everything sent has been acknowledged, nothing is in transit.
pub proof fn law_ack_all_empties_transit(state: TxState, rx_history: u32, rx_history_nonce: bool)
    requires
        state.wf(),
    ensures
        total(state.after_ack(state.next_id, rx_history, rx_history_nonce).transit) == 0,
{
    let after = state.after_ack(state.next_id, rx_history, rx_history_nonce);
    assert(after.transit =~= Seq::empty());
}

/// No segment is missing from a history of which all bits are set.
pub(crate) proof fn lemma_nothing_missing()
    ensures
        forall|z: u32| z < 32 ==> #[trigger] bit(u32::MAX, z),
        !shows_drop(u32::MAX),
{
    assert forall|z: u32| z < 32 implies #[trigger] bit(u32::MAX, z) by {
        assert(z < 32 ==> (0xffff_ffffu32 >> z) & 1 == 1) by (bit_vector);
    }
}

/// A receiver which reports each segment as it comes in, with the nonces that it carries, is never
/// taken to have missed one.
pub proof fn law_no_drop_in_sequence(state: TxState, rx_history: u32)
    requires
        state.wf(),
        state.transit.len() > 0,
        state.ack_history == u32::MAX,
        bit(rx_history, 0),
    ensures
        ({
            let id = advance(state.base_id, 1);
            let nonce = odd(state.nonce_history_after(1) & rx_history);
            &&& !state.ack_shows_drop(id, rx_history, nonce)
            &&& state.after_ack(id, rx_history, nonce).ack_history == u32::MAX
        }),
{
    let id = advance(state.base_id, 1);
    let nonce = odd(state.nonce_history_after(1) & rx_history);
    let merged = merged_history(u32::MAX, 1, state.nonce_history_after(1), rx_history, nonce);
    assert((rx_history >> 0u32) & 1 == 1 ==> (0xffff_ffffu32 << 1u32) | rx_history == 0xffff_ffffu32)
        by (bit_vector);
    lemma_nothing_missing();
    assert(merged == u32::MAX);
    assert(!shows_drop(merged));
}

/// The word in which the `n` least significant bits are set.
fn low_bits(n: u32) -> (mask: u64)
    requires
        n < 64,
    ensures
        mask == ((1u64 << n) - 1) as u64,
{
    assert(n < 64 ==> 1u64 << n > 0) by (bit_vector);
    (1u64 << n) - 1
}

} // verus!
