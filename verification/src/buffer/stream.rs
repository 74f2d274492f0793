//! The reliable channel as a whole: a stream of fragments which is sent, and is received in order.

use vstd::prelude::*;

use super::reliable::{law_reassembly, RxState, TxState};
use super::{fits, fragment_count, fragments_of, Fragment};
use crate::id::{advance, delta, lemma_advance_sum};

verus! {

/// The fragments of some packets, one packet after another.
pub open spec fn stream_of(packets: Seq<Seq<u8>>, size: nat) -> Seq<Fragment>
    decreases packets.len(),
{
    if packets.len() == 0 {
        Seq::empty()
    } else {
        stream_of(packets.drop_last(), size) + fragments_of(packets.last(), size)
    }
}

/// The packets which a receiver hands out when the first `n` fragments of a stream come in, in
/// order, under the IDs from `id` upward.
pub open spec fn handed_out(state: RxState, id: u32, stream: Seq<Fragment>, n: nat) -> Seq<Seq<u8>>
    decreases n,
{
    if n == 0 {
        Seq::empty()
    } else {
        let i = n - 1;
        let before = handed_out(state, id, stream, i as nat);
        match state.after_run(id, stream, i as nat).delivery(
            advance(id, i),
            stream[i].last,
            stream[i].bytes(),
        ) {
            Some(packet) => before.push(packet),
            None => before,
        }
    }
}

/// Whether all fragments of a stream have a proper size.
pub open spec fn is_stream(stream: Seq<Fragment>, size: nat) -> bool {
    forall|i: int|
        0 <= i < stream.len() ==> fits((#[trigger] stream[i]).last, stream[i].bytes().len(), size)
}

/// A receiver which has taken in the first `n` fragments of a stream expects the one after them.
pub(crate) proof fn lemma_next_id(state: RxState, stream: Seq<Fragment>, n: nat)
    requires
        n <= stream.len(),
        is_stream(stream, state.fragment_size),
    ensures
        state.after_run(state.next_id, stream, n).next_id == advance(state.next_id, n as int),
        state.after_run(state.next_id, stream, n).fragment_size == state.fragment_size,
    decreases n,
{
    if n > 0 {
        lemma_next_id(state, stream, (n - 1) as nat);
        assert(fits(stream[n - 1].last, stream[n - 1].bytes().len(), state.fragment_size));
    }
}

/// However fragments are lost, repeated or reordered, a receiver only ever moves along the stream:
/// having taken in the first `n` fragments, it takes in the one after them, and no other. An ID
/// stands for one fragment only as long as fewer fragments than there are IDs lie between the two.
pub proof fn law_receiver_follows_stream(state: RxState, stream: Seq<Fragment>, n: nat, i: nat)
    requires
        n <= stream.len(),
        i < stream.len(),
        n - i < 0x1_0000_0000,
        i - n < 0x1_0000_0000,
        is_stream(stream, state.fragment_size),
    ensures
        ({
            let reached = state.after_run(state.next_id, stream, n);
            let after = reached.after(
                advance(state.next_id, i as int),
                stream[i as int].last,
                stream[i as int].bytes(),
            );
            after == state.after_run(
                state.next_id,
                stream,
                if i == n {
                    n + 1
                } else {
                    n
                },
            )
        }),
{
    lemma_next_id(state, stream, n);
}

pub(crate) proof fn lemma_run_split(state: RxState, id: u32, a: Seq<Fragment>, b: Seq<Fragment>, n: nat)
    requires
        n <= b.len(),
    ensures
        state.after_run(id, a + b, a.len() + n) == state.after_run(id, a, a.len()).after_run(
            advance(id, a.len() as int),
            b,
            n,
        ),
    decreases n,
{
    if n == 0 {
        lemma_run_prefix(state, id, a, b, a.len());
    } else {
        let i = n - 1;
        lemma_run_split(state, id, a, b, i as nat);
        lemma_advance_sum(id, a.len() as int, i);
        assert((a + b)[a.len() + i] == b[i]);
        assert(a.len() + n - 1 == a.len() + i);
    }
}

proof fn lemma_handed_out_split(
    state: RxState,
    id: u32,
    a: Seq<Fragment>,
    b: Seq<Fragment>,
    n: nat,
)
    requires
        n <= b.len(),
    ensures
        handed_out(state, id, a + b, a.len() + n) == handed_out(state, id, a, a.len())
            + handed_out(state.after_run(id, a, a.len()), advance(id, a.len() as int), b, n),
    decreases n,
{
    let middle = state.after_run(id, a, a.len());
    let next = advance(id, a.len() as int);
    let first = handed_out(state, id, a, a.len());
    if n == 0 {
        lemma_run_prefix(state, id, a, b, a.len());
        assert(first + handed_out(middle, next, b, 0) =~= first);
    } else {
        let i = n - 1;
        lemma_handed_out_split(state, id, a, b, i as nat);
        lemma_run_split(state, id, a, b, i as nat);
        lemma_advance_sum(id, a.len() as int, i);
        assert((a + b)[a.len() + i] == b[i]);
        assert(a.len() + n - 1 == a.len() + i);
        match middle.after_run(next, b, i as nat).delivery(
            advance(next, i),
            b[i].last,
            b[i].bytes(),
        ) {
            Some(packet) => {
                let before = handed_out(middle, next, b, i as nat);
                assert((first + before).push(packet) =~= first + before.push(packet));
            },
            None => {},
        }
    }
}

pub(crate) proof fn lemma_run_prefix(state: RxState, id: u32, a: Seq<Fragment>, b: Seq<Fragment>, n: nat)
    requires
        n <= a.len(),
    ensures
        state.after_run(id, a + b, n) == state.after_run(id, a, n),
        handed_out(state, id, a + b, n) == handed_out(state, id, a, n),
    decreases n,
{
    if n > 0 {
        lemma_run_prefix(state, id, a, b, (n - 1) as nat);
        assert((a + b)[n - 1] == a[n - 1]);
    }
}

proof fn lemma_one_packet(state: RxState, packet: Seq<u8>, n: nat)
    requires
        state.wf(),
        state.build is None,
        n <= fragment_count(packet.len(), state.fragment_size),
    ensures
        handed_out(state, state.next_id, fragments_of(packet, state.fragment_size), n) == if n
            == fragment_count(packet.len(), state.fragment_size) {
            seq![packet]
        } else {
            Seq::empty()
        },
    decreases n,
{
    let fragments = fragments_of(packet, state.fragment_size);
    if n > 0 {
        lemma_one_packet(state, packet, (n - 1) as nat);
        law_reassembly(state, packet, n - 1);
        if n == fragments.len() {
            assert(Seq::<Seq<u8>>::empty().push(packet) =~= seq![packet]);
        }
    }
}

/// A receiver which is given the fragments of some packets in order hands out exactly these
/// packets, in order.
pub proof fn law_packets_in_order(state: RxState, packets: Seq<Seq<u8>>)
    requires
        state.wf(),
        state.build is None,
    ensures
        ({
            let stream = stream_of(packets, state.fragment_size);
            &&& handed_out(state, state.next_id, stream, stream.len()) == packets
            &&& state.after_run(state.next_id, stream, stream.len()) == (RxState {
                next_id: advance(state.next_id, stream.len() as int),
                ..state
            })
        }),
    decreases packets.len(),
{
    let size = state.fragment_size;
    if packets.len() == 0 {
        assert(handed_out(state, state.next_id, stream_of(packets, size), 0) =~= packets);
    } else {
        let before = stream_of(packets.drop_last(), size);
        let last = fragments_of(packets.last(), size);
        law_packets_in_order(state, packets.drop_last());
        let middle = state.after_run(state.next_id, before, before.len());
        lemma_run_split(state, state.next_id, before, last, last.len());
        lemma_handed_out_split(state, state.next_id, before, last, last.len());
        lemma_advance_sum(state.next_id, before.len() as int, last.len() as int);
        lemma_one_packet(middle, packets.last(), last.len());
        law_reassembly(middle, packets.last(), 0);
        assert((before + last).len() == before.len() + last.len());
        assert(packets.drop_last() + seq![packets.last()] =~= packets);
    }
}

/// The fragments of packets have proper sizes.
pub proof fn law_stream_fits(packets: Seq<Seq<u8>>, size: nat)
    requires
        size > 0,
    ensures
        is_stream(stream_of(packets, size), size),
    decreases packets.len(),
{
    if packets.len() > 0 {
        law_stream_fits(packets.drop_last(), size);
        let before = stream_of(packets.drop_last(), size);
        let last = fragments_of(packets.last(), size);
        let stream = before + last;
        assert forall|i: int| 0 <= i < stream.len() implies fits(
            (#[trigger] stream[i]).last,
            stream[i].bytes().len(),
            size,
        ) by {
            if i < before.len() {
                assert(stream[i] == before[i]);
            } else {
                super::lemma_fragment_wf(packets.last(), size, i - before.len());
            }
        }
    }
}

/// How many fragments a receiver has taken in once fragments of a stream have come in, each given by
/// its place in the stream.
pub open spec fn progress(order: Seq<nat>) -> nat
    decreases order.len(),
{
    if order.len() == 0 {
        0
    } else {
        let n = progress(order.drop_last());
        if order.last() == n {
            n + 1
        } else {
            n
        }
    }
}

/// Whether a place is always told apart by its ID from the one which is expected, and lies in the
/// stream.
pub open spec fn is_in_reach(order: Seq<nat>, len: nat) -> bool
    decreases order.len(),
{
    order.len() > 0 ==> {
        let n = progress(order.drop_last());
        &&& is_in_reach(order.drop_last(), len)
        &&& order.last() < len
        &&& n - order.last() < 0x1_0000_0000
        &&& order.last() - n < 0x1_0000_0000
    }
}

/// A receiver once fragments have come in, in some order. The first fragment of the stream has the
/// ID `id`.
pub open spec fn after_arrivals(
    state: RxState,
    id: u32,
    stream: Seq<Fragment>,
    order: Seq<nat>,
) -> RxState
    decreases order.len(),
{
    if order.len() == 0 {
        state
    } else {
        let i = order.last() as int;
        after_arrivals(state, id, stream, order.drop_last()).after(
            advance(id, i),
            stream[i].last,
            stream[i].bytes(),
        )
    }
}

/// The packets which a receiver hands out while fragments come in, in some order.
pub open spec fn delivered(
    state: RxState,
    id: u32,
    stream: Seq<Fragment>,
    order: Seq<nat>,
) -> Seq<Seq<u8>>
    decreases order.len(),
{
    if order.len() == 0 {
        Seq::empty()
    } else {
        let i = order.last() as int;
        let before = delivered(state, id, stream, order.drop_last());
        match after_arrivals(state, id, stream, order.drop_last()).delivery(
            advance(id, i),
            stream[i].last,
            stream[i].bytes(),
        ) {
            Some(packet) => before.push(packet),
            None => before,
        }
    }
}

proof fn lemma_arrivals(state: RxState, stream: Seq<Fragment>, order: Seq<nat>)
    requires
        is_stream(stream, state.fragment_size),
        is_in_reach(order, stream.len()),
    ensures
        progress(order) <= stream.len(),
        after_arrivals(state, state.next_id, stream, order) == state.after_run(
            state.next_id,
            stream,
            progress(order),
        ),
        delivered(state, state.next_id, stream, order) == handed_out(
            state,
            state.next_id,
            stream,
            progress(order),
        ),
    decreases order.len(),
{
    if order.len() > 0 {
        let n = progress(order.drop_last());
        lemma_arrivals(state, stream, order.drop_last());
        law_receiver_follows_stream(state, stream, n, order.last());
        lemma_next_id(state, stream, n);
    }
}

pub(crate) proof fn lemma_handed_out_prefix(
    state: RxState,
    id: u32,
    stream: Seq<Fragment>,
    n: nat,
    m: nat,
)
    requires
        n <= m,
    ensures
        handed_out(state, id, stream, n).is_prefix_of(handed_out(state, id, stream, m)),
    decreases m,
{
    if n < m {
        lemma_handed_out_prefix(state, id, stream, n, (m - 1) as nat);
    }
}

/// However the fragments of some packets are lost, repeated or reordered, a receiver hands out the
/// packets in order, each of them once, leaving none out: what it has handed out is always the
/// first few of them, and all of them once it has got through the stream.
pub proof fn law_reliable_delivery(state: RxState, packets: Seq<Seq<u8>>, order: Seq<nat>)
    requires
        state.wf(),
        state.build is None,
        is_in_reach(order, stream_of(packets, state.fragment_size).len()),
    ensures
        ({
            let stream = stream_of(packets, state.fragment_size);
            let received = delivered(state, state.next_id, stream, order);
            &&& received.is_prefix_of(packets)
            &&& progress(order) == stream.len() ==> received == packets
        }),
{
    let stream = stream_of(packets, state.fragment_size);
    law_stream_fits(packets, state.fragment_size);
    lemma_arrivals(state, stream, order);
    law_packets_in_order(state, packets);
    lemma_handed_out_prefix(state, state.next_id, stream, progress(order), stream.len());
}

/// Whether a sender holds what is left of a stream, of which the first `base` fragments have been
/// acknowledged. The first fragment of the stream has the ID `first_id`.
pub open spec fn sends_stream(state: TxState, stream: Seq<Fragment>, first_id: u32, base: int) -> bool {
    &&& 0 <= base <= stream.len()
    &&& state.fragments == stream.skip(base)
    &&& state.base_id == advance(first_id, base)
}

/// Every fragment is sent under the ID which belongs to its place in the stream, and this stays so
/// when packets are added, when fragments are sent, sent again, or acknowledged.
pub proof fn law_sender_follows_stream(
    state: TxState,
    stream: Seq<Fragment>,
    first_id: u32,
    base: int,
    packet: Seq<u8>,
    ack_id: u32,
)
    requires
        state.wf(),
        sends_stream(state, stream, first_id, base),
    ensures
        state.can_send() ==> {
            let i = base + delta(state.next_send_id, state.base_id);
            &&& 0 <= i < stream.len()
            &&& state.next_fragment() == stream[i]
            &&& state.next_send_id == advance(first_id, i)
        },
        sends_stream(state.after_send(), stream, first_id, base),
        sends_stream(
            (TxState {
                fragments: state.fragments + fragments_of(packet, state.fragment_size),
                ..state
            }),
            stream + fragments_of(packet, state.fragment_size),
            first_id,
            base,
        ),
        sends_stream((TxState { next_send_id: state.base_id, ..state }), stream, first_id, base),
        sends_stream(
            state.after_ack(ack_id),
            stream,
            first_id,
            if state.ack_is_valid(ack_id) {
                base + delta(ack_id, state.base_id)
            } else {
                base
            },
        ),
{
    let added = fragments_of(packet, state.fragment_size);
    assert((stream + added).skip(base) =~= stream.skip(base) + added);
    let n = delta(ack_id, state.base_id);
    if state.ack_is_valid(ack_id) {
        assert(stream.skip(base).skip(n) =~= stream.skip(base + n));
    }
}

/// Whether a sender is to go on between the first fragment which is not acknowledged and the first
/// which has never been sent.
pub open spec fn is_on_track(state: TxState) -> bool {
    delta(state.next_send_id, state.base_id) <= delta(state.min_ack_id, state.base_id)
}

/// A sender which is on track stops only at the end of its stream or of its window. It stays on track
/// when packets are added, when fragments are sent, or sent again from the start, and when fragments
/// are acknowledged, unless an acknowledgement gets ahead of the fragment which is to be sent next.
/// (One can, while fragments are being sent again. The sender then waits until it starts again.)
pub proof fn law_sender_keeps_going(state: TxState, packet: Seq<u8>, ack_id: u32)
    requires
        state.wf(),
        is_on_track(state),
    ensures
        ({
            let sent = delta(state.next_send_id, state.base_id);
            !state.can_send() ==> sent == state.fragments.len() || sent == state.window_size
        }),
        state.can_send() ==> is_on_track(state.after_send()),
        is_on_track(
            (TxState {
                fragments: state.fragments + fragments_of(packet, state.fragment_size),
                ..state
            }),
        ),
        is_on_track((TxState { next_send_id: state.base_id, ..state })),
        !state.ack_is_valid(ack_id) || delta(ack_id, state.base_id) <= delta(
            state.next_send_id,
            state.base_id,
        ) ==> is_on_track(state.after_ack(ack_id)),
{
}

} // verus!
