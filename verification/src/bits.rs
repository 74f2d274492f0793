//! Bit fields held in integers.

use vstd::prelude::*;

verus! {

/// Whether bit `i` of `x` is set. Bit 0 is the least significant one.
pub open spec fn bit(x: u32, i: u32) -> bool {
    (x >> i) & 1 == 1
}

/// How many of the `n` least significant bits of `x` are set.
pub open spec fn ones(x: u32, n: u32) -> nat
    decreases n,
{
    if n == 0 {
        0
    } else {
        ones(x, (n - 1) as u32) + if bit(x, (n - 1) as u32) {
            1nat
        } else {
            0nat
        }
    }
}

/// Whether an odd number of bits of `x` is set.
pub open spec fn odd(x: u32) -> bool {
    ones(x, 32) % 2 == 1
}

/// Shifts one bit in at the least significant end.
pub open spec fn push_bit(x: u32, b: bool) -> u32 {
    (x << 1) | if b {
        1u32
    } else {
        0u32
    }
}

/// Shifts `n` zeros in at the least significant end.
pub open spec fn push_zeros(x: u32, n: int) -> u32 {
    if n < 32 {
        x << (n as u32)
    } else {
        0
    }
}

/// Two values with the same bits are the same.
pub proof fn lemma_bits_equal(x: u32, y: u32)
    requires
        forall|i: u32| i < 32 ==> bit(x, i) == bit(y, i),
    ensures
        x == y,
{
    let z = x ^ y;
    assert forall|i: u32| i < 32 implies !bit(z, i) by {
        assert(bit(x ^ y, i) == (bit(x, i) != bit(y, i))) by (bit_vector);
        assert(bit(x, i) == bit(y, i));
    }
    lemma_no_bits(z);
    assert(z == 0 && z == x ^ y ==> x == y) by (bit_vector);
}

pub(crate) proof fn lemma_no_bits(x: u32)
    requires
        forall|i: u32| i < 32 ==> !bit(x, i),
    ensures
        x == 0,
{
    if x != 0 {
        vstd::std_specs::bits::axiom_u32_leading_zeros(x);
        let i = (31 - vstd::std_specs::bits::u32_leading_zeros(x)) as u32;
        assert(((x >> i) & 1u32 != 0u32) ==> bit(x, i)) by (bit_vector);
        assert(bit(x, i));
    }
}

pub(crate) proof fn lemma_push_bit(x: u32, b: bool, i: u32)
    requires
        i < 32,
    ensures
        bit(push_bit(x, b), i) == if i == 0 {
            b
        } else {
            bit(x, (i - 1) as u32)
        },
{
    assert(i < 32 ==> bit((x << 1) | 1u32, i) == (i == 0 || bit(x, (i - 1) as u32)) && bit(
        (x << 1) | 0u32,
        i,
    ) == (i != 0 && bit(x, (i - 1) as u32))) by (bit_vector);
}

pub(crate) proof fn lemma_push_zeros(x: u32, n: int, i: u32)
    requires
        i < 32,
        0 <= n,
    ensures
        bit(push_zeros(x, n), i) == (i >= n && bit(x, (i - n) as u32)),
{
    if n < 32 {
        let n = n as u32;
        assert(i < 32 && n < 32 ==> bit(x << n, i) == (i >= n && bit(x, (i - n) as u32))) by (bit_vector);
    } else {
        assert(!bit(0, i)) by (bit_vector);
    }
}

/// How many of the `n` least significant bits of `x` are set.
pub fn count_ones(x: u32, n: u32) -> (count: u32)
    requires
        n <= 32,
    ensures
        count == ones(x, n),
        count <= n,
{
    let mut count: u32 = 0;
    let mut i: u32 = 0;
    while i < n
        invariant
            i <= n <= 32,
            count == ones(x, i),
            count <= i,
        decreases n - i,
    {
        if (x >> i) & 1 == 1 {
            count = count + 1;
        }
        i = i + 1;
    }
    count
}

/// Whether an odd number of bits of `x` is set.
pub fn parity(value: u32) -> (result: bool)
    ensures
        result == odd(value),
{
    let mut x: u32 = value;
    x = x ^ (x >> 16);
    x = x ^ (x >> 8);
    x = x ^ (x >> 4);
    x = x ^ (x >> 2);
    x = x ^ (x >> 1);
    proof {
        lemma_parity(value);
    }
    x & 0b1 == 0b1
}

spec fn fold(x: u32) -> u32 {
    let x = x ^ (x >> 16);
    let x = x ^ (x >> 8);
    let x = x ^ (x >> 4);
    let x = x ^ (x >> 2);
    let x = x ^ (x >> 1);
    x & 1
}

spec fn fold_low(x: u32, n: u32) -> u32 {
    fold(if n >= 32 {
        x
    } else {
        x & sub_one(1u32 << n)
    })
}

spec fn sub_one(x: u32) -> u32 {
    (x - 1) as u32
}

proof fn lemma_parity_low(x: u32, n: u32)
    requires
        n <= 32,
    ensures
        fold_low(x, n) == ones(x, n) % 2,
    decreases n,
{
    if n == 0 {
        assert(fold_low(x, 0) == 0) by (bit_vector);
    } else {
        let m = (n - 1) as u32;
        lemma_parity_low(x, m);
        assert(m < 32 ==> fold_low(x, (m + 1) as u32) == fold_low(x, m) ^ ((x >> m) & 1)) by (bit_vector);
        assert(fold_low(x, m) == 0 || fold_low(x, m) == 1) by (bit_vector);
        assert((x >> m) & 1 == 0 || (x >> m) & 1 == 1) by (bit_vector);
        assert(0u32 ^ 0u32 == 0 && 0u32 ^ 1u32 == 1 && 1u32 ^ 0u32 == 1 && 1u32 ^ 1u32 == 0)
            by (bit_vector);
    }
}

proof fn lemma_parity(x: u32)
    ensures
        fold(x) == ones(x, 32) % 2,
{
    lemma_parity_low(x, 32);
}

/// A window holds a number of IDs which is a power of two, and no smaller than a machine word.
pub open spec fn is_window_size(size: u32) -> bool {
    size >= 64 && size & ((size - 1) as u32) == 0
}

/// The IDs fall into whole windows, and a window into whole machine words.
pub(crate) proof fn lemma_window_size(size: u32)
    requires
        is_window_size(size),
    ensures
        size % 64 == 0,
        0x1_0000_0000int % (size as int) == 0,
{
    assert(size >= 64 && size & ((size - 1) as u32) == 0 ==> (
        size == 0x40
        || size == 0x80
        || size == 0x100
        || size == 0x200
        || size == 0x400
        || size == 0x800
        || size == 0x1000
        || size == 0x2000
        || size == 0x4000
        || size == 0x8000
        || size == 0x10000
        || size == 0x20000
        || size == 0x40000
        || size == 0x80000
        || size == 0x100000
        || size == 0x200000
        || size == 0x400000
        || size == 0x800000
        || size == 0x1000000
        || size == 0x2000000
        || size == 0x4000000
        || size == 0x8000000
        || size == 0x10000000
        || size == 0x20000000
        || size == 0x40000000
        || size == 0x80000000
    )) by (bit_vector);
}

} // verus!
