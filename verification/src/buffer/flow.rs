//! The unreliable channel as a whole: what comes of fragments which arrive without a gap.

use vstd::prelude::*;

use super::stream::stream_of;
use super::unreliable::{law_reassembly, RxState};
use super::{fragment_count, fragments_of, Fragment};
use crate::id::{advance, lemma_advance_sum};

verus! {

/// The packets which a receiver hands out when the first `n` of some fragments come in, in order,
/// under the IDs from `id` upward.
pub open spec fn handed_out(state: RxState, id: u32, fragments: Seq<Fragment>, n: nat) -> Seq<Seq<u8>>
    decreases n,
{
    if n == 0 {
        Seq::empty()
    } else {
        let i = n - 1;
        let before = handed_out(state, id, fragments, i as nat);
        match state.after_run(id, fragments, i as nat).delivery(
            advance(id, i),
            fragments[i].first,
            fragments[i].last,
            fragments[i].bytes(),
        ) {
            Some(packet) => before.push(packet),
            None => before,
        }
    }
}

pub(crate) proof fn lemma_prefix(state: RxState, id: u32, a: Seq<Fragment>, b: Seq<Fragment>, n: nat)
    requires
        n <= a.len(),
    ensures
        state.after_run(id, a + b, n) == state.after_run(id, a, n),
        handed_out(state, id, a + b, n) == handed_out(state, id, a, n),
    decreases n,
{
    if n > 0 {
        lemma_prefix(state, id, a, b, (n - 1) as nat);
        assert((a + b)[n - 1] == a[n - 1]);
    }
}

proof fn lemma_split(state: RxState, id: u32, a: Seq<Fragment>, b: Seq<Fragment>, n: nat)
    requires
        n <= b.len(),
    ensures
        ({
            let middle = state.after_run(id, a, a.len());
            let next = advance(id, a.len() as int);
            &&& state.after_run(id, a + b, a.len() + n) == middle.after_run(next, b, n)
            &&& handed_out(state, id, a + b, a.len() + n) == handed_out(state, id, a, a.len())
                + handed_out(middle, next, b, n)
        }),
    decreases n,
{
    let middle = state.after_run(id, a, a.len());
    let next = advance(id, a.len() as int);
    let first = handed_out(state, id, a, a.len());
    if n == 0 {
        lemma_prefix(state, id, a, b, a.len());
        assert(first + handed_out(middle, next, b, 0) =~= first);
    } else {
        let i = n - 1;
        lemma_split(state, id, a, b, i as nat);
        lemma_advance_sum(id, a.len() as int, i);
        assert((a + b)[a.len() + i] == b[i]);
        assert(a.len() + n - 1 == a.len() + i);
        let before = handed_out(middle, next, b, i as nat);
        match middle.after_run(next, b, i as nat).delivery(
            advance(next, i),
            b[i].first,
            b[i].last,
            b[i].bytes(),
        ) {
            Some(packet) => {
                assert((first + before).push(packet) =~= first + before.push(packet));
            },
            None => {},
        }
    }
}

proof fn lemma_one_packet(state: RxState, id: u32, packet: Seq<u8>, n: nat)
    requires
        state.wf(),
        n <= fragment_count(packet.len(), state.fragment_size),
    ensures
        handed_out(state, id, fragments_of(packet, state.fragment_size), n) == if n
            == fragment_count(packet.len(), state.fragment_size) {
            seq![packet]
        } else {
            Seq::empty()
        },
    decreases n,
{
    if n > 0 {
        lemma_one_packet(state, id, packet, (n - 1) as nat);
        law_reassembly(state, id, packet, n - 1);
        assert(Seq::<Seq<u8>>::empty().push(packet) =~= seq![packet]);
    }
}

/// A receiver which is given all fragments of some packets without a gap hands out exactly these
/// packets, in order, whatever has come in before.
pub proof fn law_packets_in_order(state: RxState, id: u32, packets: Seq<Seq<u8>>)
    requires
        state.wf(),
    ensures
        ({
            let stream = stream_of(packets, state.fragment_size);
            handed_out(state, id, stream, stream.len()) == packets
        }),
        state.after_run(
            id,
            stream_of(packets, state.fragment_size),
            stream_of(packets, state.fragment_size).len(),
        ).fragment_size == state.fragment_size,
    decreases packets.len(),
{
    let size = state.fragment_size;
    if packets.len() == 0 {
        assert(handed_out(state, id, stream_of(packets, size), 0) =~= packets);
    } else {
        let before = stream_of(packets.drop_last(), size);
        let last = fragments_of(packets.last(), size);
        law_packets_in_order(state, id, packets.drop_last());
        let middle = state.after_run(id, before, before.len());
        let next = advance(id, before.len() as int);
        lemma_split(state, id, before, last, last.len());
        lemma_one_packet(middle, next, packets.last(), last.len());
        law_reassembly(middle, next, packets.last(), 0);
        assert((before + last).len() == before.len() + last.len());
        assert(packets.drop_last() + seq![packets.last()] =~= packets);
    }
}

} // verus!
