//! The checksum at the end of each frame: CRC-32 as used by Ethernet.

use vstd::prelude::*;

verus! {

pub const SIZE: usize = 4;

/// The generator polynomial, with its coefficients in reversed order.
pub const POLYNOMIAL: u32 = 0xEDB8_8320;

/// The remainder once one more bit of the message has been divided.
pub open spec fn divide_bit(remainder: u32) -> u32 {
    if remainder & 1 == 1 {
        (remainder >> 1) ^ POLYNOMIAL
    } else {
        remainder >> 1
    }
}

/// The remainder once `n` more bits of the message have been divided.
pub open spec fn divide_bits(remainder: u32, n: nat) -> u32
    decreases n,
{
    if n == 0 {
        remainder
    } else {
        divide_bit(divide_bits(remainder, (n - 1) as nat))
    }
}

/// The remainder of the division of a message by the generator polynomial.
pub open spec fn remainder(message: Seq<u8>) -> u32
    decreases message.len(),
{
    if message.len() == 0 {
        u32::MAX
    } else {
        divide_bits(remainder(message.drop_last()) ^ message.last() as u32, 8)
    }
}

/// The checksum of a message.
pub open spec fn checksum(message: Seq<u8>) -> u32 {
    !remainder(message)
}

pub fn compute(message: &[u8]) -> (crc: u32)
    ensures
        crc == checksum(message@),
{
    let mut crc: u32 = u32::MAX;
    let mut i: usize = 0;
    while i < message.len()
        invariant
            i <= message@.len(),
            crc == remainder(message@.take(i as int)),
        decreases message@.len() - i,
    {
        proof {
            let longer = message@.take(i + 1);
            assert(longer.drop_last() =~= message@.take(i as int));
        }
        crc = crc ^ message[i] as u32;
        let ghost start = crc;
        let mut n: u32 = 0;
        while n < 8
            invariant
                n <= 8,
                crc == divide_bits(start, n as nat),
            decreases 8 - n,
        {
            crc = if crc & 1 == 1 {
                (crc >> 1) ^ POLYNOMIAL
            } else {
                crc >> 1
            };
            n = n + 1;
        }
        i = i + 1;
    }
    assert(message@.take(i as int) =~= message@);
    !crc
}

/// Words which differ still do once they have been combined with another, or divided.
proof fn lemma_words(a: u32, b: u32, c: u32)
    by (bit_vector)
    requires
        a != b,
    ensures
        divide_bit(a) != divide_bit(b),
        a ^ c != b ^ c,
        c ^ a != c ^ b,
        !a != !b,
{
}

proof fn lemma_divide_bits(a: u32, b: u32, n: nat)
    requires
        a != b,
    ensures
        divide_bits(a, n) != divide_bits(b, n),
    decreases n,
{
    if n > 0 {
        lemma_divide_bits(a, b, (n - 1) as nat);
        lemma_words(divide_bits(a, (n - 1) as nat), divide_bits(b, (n - 1) as nat), 0);
    }
}

proof fn lemma_remainders(a: Seq<u8>, b: Seq<u8>, i: int)
    requires
        a.len() == b.len(),
        0 <= i < a.len(),
        a[i] != b[i],
        forall|j: int| 0 <= j < a.len() && j != i ==> a[j] == b[j],
    ensures
        remainder(a) != remainder(b),
    decreases a.len(),
{
    let (x, y) = (a.drop_last(), b.drop_last());
    let (p, q) = (a.last() as u32, b.last() as u32);
    let (r, s) = (remainder(x), remainder(y));
    if i == a.len() - 1 {
        assert(x =~= y);
        lemma_words(p, q, r);
    } else {
        lemma_remainders(x, y, i);
        lemma_words(r, s, p);
    }
    lemma_divide_bits(r ^ p, s ^ q, 8);
}

/// A message of which one byte is changed, whichever it is, has another checksum.
pub proof fn law_changed_byte_shows(message: Seq<u8>, i: int, byte: u8)
    requires
        0 <= i < message.len(),
        message[i] != byte,
    ensures
        checksum(message.update(i, byte)) != checksum(message),
{
    lemma_remainders(message, message.update(i, byte), i);
    lemma_words(remainder(message), remainder(message.update(i, byte)), 0);
}

} // verus!
