//! Queues which cut packets into fragments, and buffers which put fragments back together.

use std::collections::VecDeque;
use std::ops::Range;
use std::sync::Arc;

use vstd::prelude::*;

use crate::id::delta;

pub mod flow;
pub mod reliable;
pub mod segment;
pub mod stream;
pub mod unreliable;

pub use reliable::RxBuffer as ReliableRxBuffer;
pub use reliable::TxBuffer as ReliableTxBuffer;
pub use unreliable::RxBuffer as UnreliableRxBuffer;
pub use unreliable::TxBuffer as UnreliableTxBuffer;

verus! {

/// A range of consecutive IDs.
#[derive(Debug)]
pub struct Window {
    pub base_id: u32,
    pub size: u32,
}

impl Window {
    pub fn new(base_id: u32, size: u32) -> (window: Self)
        ensures
            window.base_id == base_id,
            window.size == size,
    {
        Self { base_id, size }
    }

    /// Whether `id` is one of the `size` IDs that start at `base_id`.
    pub open spec fn has(self, id: u32) -> bool {
        delta(id, self.base_id) < self.size
    }

    pub fn contains(&self, id: u32) -> (result: bool)
        ensures
            result == self.has(id),
    {
        let delta: u32 = id.wrapping_sub(self.base_id);
        return delta < self.size;
    }
}

/// A fragment which shares the packet that it was cut from.
#[derive(Debug, PartialEq)]
pub struct FragmentRc {
    pub first: bool,
    pub last: bool,
    pub data: Arc<Box<[u8]>>,
    pub data_range: Range<usize>,
}

/// A fragment which borrows its bytes.
#[derive(Clone, Copy, Debug, PartialEq)]
pub struct FragmentRef<'a> {
    pub first: bool,
    pub last: bool,
    pub data: &'a [u8],
}

/// What a [`FragmentRc`] stands for: the bytes from `start` up to `end` of `packet`.
pub struct Fragment {
    pub first: bool,
    pub last: bool,
    pub packet: Seq<u8>,
    pub start: int,
    pub end: int,
}

impl Fragment {
    pub open spec fn bytes(self) -> Seq<u8> {
        self.packet.subrange(self.start, self.end)
    }

    pub open spec fn wf(self) -> bool {
        0 <= self.start <= self.end <= self.packet.len()
    }
}

/// Whether a fragment of `len` bytes can have been cut from a packet: all fragments hold `size`
/// bytes but for the last, which may hold fewer.
pub open spec fn fits(last: bool, len: nat, size: nat) -> bool {
    if last {
        len <= size
    } else {
        len == size
    }
}

impl View for FragmentRc {
    type V = Fragment;

    open spec fn view(&self) -> Fragment {
        Fragment {
            first: self.first,
            last: self.last,
            packet: self.data@,
            start: self.data_range.start as int,
            end: self.data_range.end as int,
        }
    }
}

impl Clone for FragmentRc {
    fn clone(&self) -> (copy: Self)
        ensures
            copy == *self,
    {
        Self {
            first: self.first,
            last: self.last,
            data: share(&self.data),
            data_range: Range { start: self.data_range.start, end: self.data_range.end },
        }
    }
}

impl FragmentRc {
    /// Borrows the bytes of this fragment.
    pub fn borrowed(&self) -> (fragment: FragmentRef<'_>)
        requires
            self@.wf(),
        ensures
            fragment.first == self.first,
            fragment.last == self.last,
            fragment.data@ == self@.bytes(),
    {
        FragmentRef {
            first: self.first,
            last: self.last,
            data: vstd::slice::slice_subrange(&self.data, self.data_range.start, self.data_range.end),
        }
    }
}

/// How many fragments of `size` bytes a packet of `len` bytes makes. An empty packet still makes one.
pub open spec fn fragment_count(len: nat, size: nat) -> nat {
    if len == 0 {
        1
    } else {
        (len - 1) as nat / size + 1
    }
}

/// The fragment with index `i` of a packet: it holds `size` bytes, or what is left of the packet.
pub open spec fn fragment_of(packet: Seq<u8>, size: nat, i: int) -> Fragment {
    Fragment {
        first: i == 0,
        last: i == fragment_count(packet.len(), size) - 1,
        packet,
        start: i * size,
        end: if (i + 1) * size < packet.len() {
            (i + 1) * size
        } else {
            packet.len() as int
        },
    }
}

/// All fragments of a packet, in order.
pub open spec fn fragments_of(packet: Seq<u8>, size: nat) -> Seq<Fragment> {
    Seq::new(fragment_count(packet.len(), size), |i: int| fragment_of(packet, size, i))
}

/// The fragments in a queue.
pub open spec fn fragment_views(queue: Seq<FragmentRc>) -> Seq<Fragment> {
    queue.map_values(|fragment: FragmentRc| fragment@)
}

/// What a buffer hands out: the bytes of a packet that is complete, if there is one.
pub open spec fn packet_view(packet: Option<Box<[u8]>>) -> Option<Seq<u8>> {
    match packet {
        Some(bytes) => Some(bytes@),
        None => None,
    }
}

/// Only the last fragment of a packet ends where the packet ends.
pub(crate) proof fn lemma_fragment_bounds(len: nat, size: nat, i: int)
    by (nonlinear_arith)
    requires
        size > 0,
        0 <= i < fragment_count(len, size),
    ensures
        i * size <= len,
        i < fragment_count(len, size) - 1 ==> (i + 1) * size < len,
        i == fragment_count(len, size) - 1 ==> len <= (i + 1) * size,
{
    if len > 0 {
        let q = (len - 1) as nat / size;
        assert(q * size <= len - 1);
        assert(len - 1 < (q + 1) * size);
    }
}

/// A fragment lies within its packet.
pub(crate) proof fn lemma_fragment_wf(packet: Seq<u8>, size: nat, i: int)
    requires
        size > 0,
        0 <= i < fragment_count(packet.len(), size),
    ensures
        fragment_of(packet, size, i).wf(),
        i < fragment_count(packet.len(), size) - 1 ==> fragment_of(packet, size, i).bytes().len()
            == size,
        fragment_of(packet, size, i).bytes().len() <= size,
{
    lemma_fragment_bounds(packet.len(), size, i);
    assert((i + 1) * size == i * size + size) by (nonlinear_arith);
    assert(0 <= i * size) by (nonlinear_arith)
        requires
            0 <= i,
    ;
}

/// Cuts a packet into fragments of `size` bytes, the last of which may be shorter.
pub(crate) fn split(packet: Box<[u8]>, size: usize) -> (queue: VecDeque<FragmentRc>)
    requires
        size > 0,
    ensures
        fragment_views(queue@) == fragments_of(packet@, size as nat),
{
    let packet_len: usize = packet.len();
    let ghost bytes = packet@;

    let mut queue: VecDeque<FragmentRc> = VecDeque::new();
    let mut bytes_remaining: usize = packet.len();
    let mut index: usize = 0;
    let mut first: bool = true;

    let packet_rc = Arc::new(packet);

    assert(0 * size == 0) by (nonlinear_arith);
    while bytes_remaining > size
        invariant
            size > 0,
            packet_rc@ == bytes,
            packet_len == bytes.len(),
            index + bytes_remaining == packet_len,
            index == queue@.len() * size,
            first == (queue@.len() == 0),
            queue@.len() > 0 ==> bytes_remaining > 0,
            forall|i: int|
                #![trigger queue@[i]]
                0 <= i < queue@.len() ==> queue@[i]@ == (Fragment {
                    first: i == 0,
                    last: false,
                    packet: bytes,
                    start: i * size,
                    end: (i + 1) * size,
                }) && (i + 1) * size < packet_len,
        decreases bytes_remaining,
    {
        let ghost n = queue@.len() as int;
        proof {
            assert((n + 1) * size == n * size + size) by (nonlinear_arith);
        }

        queue.push_back(
            FragmentRc {
                first,
                last: false,
                data: share(&packet_rc),
                data_range: Range { start: index, end: index + size },
            },
        );

        assert(queue@[n]@.packet == bytes);

        first = false;
        index = index + size;

        bytes_remaining = bytes_remaining - size;
    }

    let ghost n = queue@.len() as int;
    proof {
        assert(fragment_count(packet_len as nat, size as nat) == n + 1) by (nonlinear_arith)
            requires
                size > 0,
                0 <= n,
                n * size <= packet_len,
                packet_len <= n * size + size,
                n > 0 ==> packet_len > n * size,
        {
            if packet_len > 0 {
                if n == 0 {
                    assert((packet_len - 1) as nat / size as nat == 0);
                } else {
                    assert((packet_len - 1) as nat / size as nat == n);
                }
            } else {
                assert(n == 0);
            }
        }
        assert((n + 1) * size == n * size + size) by (nonlinear_arith);
    }

    queue.push_back(
        FragmentRc {
            first,
            last: true,
            data: packet_rc,
            data_range: Range { start: index, end: packet_len },
        },
    );

    assert(fragment_views(queue@) =~= fragments_of(bytes, size as nat));
    queue
}

/// Whether a fragment agrees with the fragment size.
pub(crate) fn fragment_is_valid(fragment: &FragmentRef<'_>, fragment_size: usize) -> (valid: bool)
    ensures
        valid == fits(fragment.last, fragment.data@.len(), fragment_size as nat),
{
    if fragment.last && fragment.data.len() > fragment_size {
        // This fragment does not agree with our fragment size
        return false;
    }
    if !fragment.last && fragment.data.len() != fragment_size {
        // This fragment does not agree with our fragment size
        return false;
    }
    return true;
}

/// Appends bytes to a buffer.
pub(crate) fn extend(buffer: &mut Vec<u8>, bytes: &[u8])
    ensures
        final(buffer)@ == old(buffer)@ + bytes@,
{
    buffer.extend_from_slice(bytes);
    assert(buffer@ =~= old(buffer)@ + bytes@);
}

/// Hands out a second owner of a packet through `Arc::clone`. The two owners see the same packet.
#[verifier::external_body]
pub(crate) fn share(packet: &Arc<Box<[u8]>>) -> (shared: Arc<Box<[u8]>>)
    ensures
        shared == *packet,
{
    Arc::clone(packet)
}

/// Gives up spare capacity through `Vec::into_boxed_slice`. The bytes stay the same.
#[verifier::external_body]
pub(crate) fn into_boxed(bytes: Vec<u8>) -> (boxed: Box<[u8]>)
    ensures
        boxed@ == bytes@,
{
    bytes.into_boxed_slice()
}

} // verus!
