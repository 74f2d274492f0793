//! How the two channels share a connection.

use vstd::prelude::*;

use super::fragment_tx::{FragmentTxState, RELIABLE, UNRELIABLE};
use super::prio::{ConfigState, PrioState, CHANNEL_COUNT, DATA_SIZE_MAX, WEIGHT_MAX};
use super::{ChannelBalanceConfig, FRAGMENT_SIZE};

verus! {

/// Whether a byte on either channel costs as much as the other channel weighs, so that equal costs
/// stand for amounts in the ratio of the weights.
pub open spec fn follows_weights(config: ConfigState, balance: ChannelBalanceConfig) -> bool {
    &&& config.costs.len() == CHANNEL_COUNT
    &&& config.costs[UNRELIABLE as int] == balance.reliable_weight
    &&& config.costs[RELIABLE as int] == balance.unreliable_weight
    &&& config.counter_max == balance.burst_size * (balance.unreliable_weight
        * balance.reliable_weight)
}

/// The weights which are asked for are those by which the channels share a connection.
pub proof fn law_weights_are_followed(balance: ChannelBalanceConfig)
    requires
        balance.is_valid(),
    ensures
        balance.prio().wf(),
        follows_weights(balance.prio(), balance),
        balance.prio().costs[UNRELIABLE as int] * balance.unreliable_weight
            == balance.prio().costs[RELIABLE as int] * balance.reliable_weight,
{
    let (a, b) = (balance.unreliable_weight as int, balance.reliable_weight as int);
    let weights = seq![balance.unreliable_weight, balance.reliable_weight, 1u32, 1u32];
    assert(1 <= weights[0] <= WEIGHT_MAX && 1 <= weights[1] <= WEIGHT_MAX);
    assert(a * b * 1 * 1 == a * b && a * b == b * a) by (nonlinear_arith);
    let size = balance.burst_size as int;
    let size_max = super::prio::BURST_SIZE_MAX as int;
    assert(1 <= a * b) by (nonlinear_arith)
        requires
            1 <= a,
            1 <= b,
    ;
    assert(0 <= size * (a * b) <= size_max * 256) by (nonlinear_arith)
        requires
            1 <= a * b <= 256,
            0 <= size <= size_max,
    ;
    let costs = balance.prio().costs;
    assert forall|i: int| 0 <= i < CHANNEL_COUNT implies 1 <= #[trigger] costs[i] <= WEIGHT_MAX by {
        assert(i == 0 || i == 1 || i == 2 || i == 3);
    }
}

/// The queues once some datagrams have been sent.
pub open spec fn after_sends(state: FragmentTxState, n: nat, now_ms: u64) -> FragmentTxState
    decreases n,
{
    if n == 0 {
        state
    } else {
        after_sends(state, (n - 1) as nat, now_ms).current(now_ms).after_send()
    }
}

/// How many bytes these datagrams hold on one of the channels.
pub open spec fn sent_on(state: FragmentTxState, unrel: bool, n: nat, now_ms: u64) -> int
    decreases n,
{
    if n == 0 {
        0
    } else {
        let before = sent_on(state, unrel, (n - 1) as nat, now_ms);
        let datagram = after_sends(state, (n - 1) as nat, now_ms).current(now_ms).next_datagram();
        if datagram.unrel == unrel {
            before + datagram.data.len()
        } else {
            before
        }
    }
}

/// Whether both channels have something to send before each of these datagrams.
pub open spec fn are_busy(state: FragmentTxState, n: nat, now_ms: u64) -> bool
    decreases n,
{
    n > 0 ==> {
        let before = after_sends(state, (n - 1) as nat, now_ms).current(now_ms);
        &&& are_busy(state, (n - 1) as nat, now_ms)
        &&& before.unrel.queue.len() > 0
        &&& before.rel.can_send()
    }
}

/// Whether no fragment is larger than an endpoint makes them.
spec fn has_small_fragments(state: FragmentTxState) -> bool {
    &&& state.prio.wf()
    &&& forall|i: int|
        0 <= i < state.unrel.queue.len() ==> (#[trigger] state.unrel.queue[i]).fragment.bytes().len()
            <= FRAGMENT_SIZE
    &&& forall|i: int|
        0 <= i < state.rel.fragments.len() ==> (#[trigger] state.rel.fragments[i]).bytes().len()
            <= FRAGMENT_SIZE
}

proof fn lemma_current(state: FragmentTxState, now_ms: u64)
    requires
        has_small_fragments(state),
    ensures
        has_small_fragments(state.current(now_ms)),
{
    let current = state.current(now_ms);
    crate::buffer::unreliable::law_unexpired(state.unrel.queue, now_ms);
    let skipped = state.unrel.queue.len() - current.unrel.queue.len();
    assert forall|i: int| 0 <= i < current.unrel.queue.len() implies (
    #[trigger] current.unrel.queue[i]).fragment.bytes().len() <= FRAGMENT_SIZE by {
        assert(current.unrel.queue[i] == state.unrel.queue[i + skipped]);
    }
}

/// What sending adds to a counter is what the data costs.
proof fn lemma_after_sent(prio: PrioState, i: int, other: int, size: int)
    requires
        prio.wf(),
        i == 0 && other == 1 || i == 1 && other == 0,
        prio.counters[i] <= prio.counters[other],
        0 <= size <= DATA_SIZE_MAX,
        size * prio.config.costs[i] <= prio.config.counter_max,
    ensures
        ({
            let after = prio.after_sent(i, size);
            &&& after.wf()
            &&& after.config == prio.config
            &&& after.counters[i] - after.counters[other] == prio.counters[i]
                - prio.counters[other] + size * prio.config.costs[i]
        }),
{
    let cost = prio.config.costs[i];
    assert(1 <= cost <= WEIGHT_MAX);
    assert(0 <= size * cost <= DATA_SIZE_MAX * WEIGHT_MAX) by (nonlinear_arith)
        requires
            0 <= size <= DATA_SIZE_MAX,
            1 <= cost <= WEIGHT_MAX,
    ;
    let after = prio.after_sent(i, size);
    assert forall|k: int| 0 <= k < CHANNEL_COUNT implies #[trigger] after.counters[k]
        <= prio.config.counter_max by {
        assert(prio.counters[k] <= prio.config.counter_max);
    }
}

proof fn lemma_send_while_busy(
    state: FragmentTxState,
    balance: ChannelBalanceConfig,
    bound: int,
)
    requires
        balance.is_valid(),
        FRAGMENT_SIZE <= balance.burst_size,
        follows_weights(state.prio.config, balance),
        has_small_fragments(state),
        state.unrel.queue.len() > 0,
        state.rel.can_send(),
        bound == FRAGMENT_SIZE * super::cc::max(
            balance.unreliable_weight as int,
            balance.reliable_weight as int,
        ),
        -bound <= state.prio.counters[0] - state.prio.counters[1] <= bound,
    ensures
        ({
            let after = state.after_send();
            let datagram = state.next_datagram();
            let size = datagram.data.len() as int;
            let gap = state.prio.counters[0] - state.prio.counters[1];
            let gap_after = after.prio.counters[0] - after.prio.counters[1];
            &&& has_small_fragments(after)
            &&& after.prio.config == state.prio.config
            &&& gap_after == if datagram.unrel {
                gap + size * balance.reliable_weight
            } else {
                gap - size * balance.unreliable_weight
            }
            &&& -bound <= gap_after <= bound
        }),
{
    let datagram = state.next_datagram();
    let size = datagram.data.len() as int;
    let (a, b) = (balance.unreliable_weight as int, balance.reliable_weight as int);
    let burst = balance.burst_size as int;
    let weights = seq![balance.unreliable_weight, balance.reliable_weight, 1u32, 1u32];
    assert(1 <= weights[0] <= WEIGHT_MAX && 1 <= weights[1] <= WEIGHT_MAX);
    assert(0 <= size * a <= bound && 0 <= size * b <= bound) by (nonlinear_arith)
        requires
            0 <= size <= 1024,
            1 <= a,
            1 <= b,
            bound == 1024 * super::cc::max(a, b),
    ;
    assert(size * a <= burst * (a * b) && size * b <= burst * (a * b)) by (nonlinear_arith)
        requires
            0 <= size <= 1024 <= burst,
            1 <= a,
            1 <= b,
    {
        assert(size * a <= burst * a);
        assert(size * b <= burst * b);
        assert(burst * a <= burst * (a * b));
        assert(burst * b <= burst * (a * b));
    }
    let after = state.after_send();
    if state.next_channel() == UNRELIABLE {
        lemma_after_sent(state.prio, 0, 1, size);
        assert forall|i: int| 0 <= i < after.unrel.queue.len() implies (
        #[trigger] after.unrel.queue[i]).fragment.bytes().len() <= FRAGMENT_SIZE by {
            assert(after.unrel.queue[i] == state.unrel.queue[i + 1]);
        }
    } else {
        lemma_after_sent(state.prio, 1, 0, size);
    }
}

proof fn lemma_shares(
    state: FragmentTxState,
    balance: ChannelBalanceConfig,
    n: nat,
    now_ms: u64,
    bound: int,
)
    requires
        balance.is_valid(),
        FRAGMENT_SIZE <= balance.burst_size,
        follows_weights(state.prio.config, balance),
        has_small_fragments(state),
        state.prio.counters[0] == state.prio.counters[1],
        are_busy(state, n, now_ms),
        bound == FRAGMENT_SIZE * super::cc::max(
            balance.unreliable_weight as int,
            balance.reliable_weight as int,
        ),
    ensures
        ({
            let after = after_sends(state, n, now_ms);
            let gap = after.prio.counters[0] - after.prio.counters[1];
            &&& has_small_fragments(after)
            &&& after.prio.config == state.prio.config
            &&& gap == sent_on(state, true, n, now_ms) * balance.reliable_weight - sent_on(
                state,
                false,
                n,
                now_ms,
            ) * balance.unreliable_weight
            &&& -bound <= gap <= bound
        }),
    decreases n,
{
    let (a, b) = (balance.unreliable_weight as int, balance.reliable_weight as int);
    if n == 0 {
        let weights = seq![balance.unreliable_weight, balance.reliable_weight, 1u32, 1u32];
        assert(1 <= weights[0] <= WEIGHT_MAX && 1 <= weights[1] <= WEIGHT_MAX);
        assert(0 * a == 0 && 0 * b == 0) by (nonlinear_arith);
    } else {
        let i = (n - 1) as nat;
        lemma_shares(state, balance, i, now_ms, bound);
        let before = after_sends(state, i, now_ms);
        let current = before.current(now_ms);
        lemma_current(before, now_ms);
        lemma_send_while_busy(current, balance, bound);
        let size = current.next_datagram().data.len() as int;
        let u = sent_on(state, true, i, now_ms);
        let r = sent_on(state, false, i, now_ms);
        assert((u + size) * b == u * b + size * b) by (nonlinear_arith);
        assert((r + size) * a == r * a + size * a) by (nonlinear_arith);
    }
}

/// While both channels have something to send, they share the connection in the ratio of their
/// weights: the weighted amounts of data never differ by more than one fragment is worth. (The
/// burst size must leave room for a fragment. If it does not, the channels get more equal shares.)
pub proof fn law_channels_share_by_weight(
    state: FragmentTxState,
    balance: ChannelBalanceConfig,
    n: nat,
    now_ms: u64,
)
    requires
        state.wf(),
        state.unrel.fragment_size == FRAGMENT_SIZE,
        state.rel.fragment_size == FRAGMENT_SIZE,
        balance.is_valid(),
        FRAGMENT_SIZE <= balance.burst_size,
        state.prio.config == balance.prio(),
        state.prio.counters[0] == state.prio.counters[1],
        are_busy(state, n, now_ms),
    ensures
        ({
            let unreliable = sent_on(state, true, n, now_ms);
            let reliable = sent_on(state, false, n, now_ms);
            let worth = FRAGMENT_SIZE * super::cc::max(
                balance.unreliable_weight as int,
                balance.reliable_weight as int,
            );
            -worth <= unreliable * balance.reliable_weight - reliable * balance.unreliable_weight
                <= worth
        }),
{
    let worth = FRAGMENT_SIZE * super::cc::max(
        balance.unreliable_weight as int,
        balance.reliable_weight as int,
    );
    law_weights_are_followed(balance);
    lemma_shares(state, balance, n, now_ms, worth);
}

/// Whether all of some datagrams belong to one of the channels.
pub open spec fn is_run(state: FragmentTxState, unrel: bool, n: nat, now_ms: u64) -> bool
    decreases n,
{
    n > 0 ==> {
        let before = after_sends(state, (n - 1) as nat, now_ms).current(now_ms);
        &&& is_run(state, unrel, (n - 1) as nat, now_ms)
        &&& before.next_datagram().unrel == unrel
    }
}

proof fn lemma_run(
    state: FragmentTxState,
    balance: ChannelBalanceConfig,
    unrel: bool,
    n: nat,
    now_ms: u64,
    cost: int,
)
    requires
        balance.is_valid(),
        FRAGMENT_SIZE <= balance.burst_size,
        follows_weights(state.prio.config, balance),
        has_small_fragments(state),
        are_busy(state, n, now_ms),
        is_run(state, unrel, n, now_ms),
        cost == if unrel {
            balance.reliable_weight
        } else {
            balance.unreliable_weight
        },
    ensures
        ({
            let after = after_sends(state, n, now_ms);
            let i: int = if unrel {
                0
            } else {
                1
            };
            let sent = sent_on(state, unrel, n, now_ms);
            &&& has_small_fragments(after)
            &&& after.prio.config == state.prio.config
            &&& after.prio.counters[i] - after.prio.counters[1 - i] == state.prio.counters[i]
                - state.prio.counters[1 - i] + sent * cost
            &&& n > 0 ==> state.prio.counters[i] - state.prio.counters[1 - i] + sent * cost
                <= FRAGMENT_SIZE * cost
        }),
    decreases n,
{
    let i: int = if unrel {
        0
    } else {
        1
    };
    if n == 0 {
        assert(0 * cost == 0) by (nonlinear_arith);
    } else {
        let m = (n - 1) as nat;
        lemma_run(state, balance, unrel, m, now_ms, cost);
        let before = after_sends(state, m, now_ms);
        let current = before.current(now_ms);
        lemma_current(before, now_ms);
        let size = current.next_datagram().data.len() as int;
        let sent = sent_on(state, unrel, m, now_ms);
        let (a, b) = (balance.unreliable_weight as int, balance.reliable_weight as int);
        let burst = balance.burst_size as int;
        let weights = seq![balance.unreliable_weight, balance.reliable_weight, 1u32, 1u32];
        assert(1 <= weights[0] <= WEIGHT_MAX && 1 <= weights[1] <= WEIGHT_MAX);
        assert((sent + size) * cost == sent * cost + size * cost) by (nonlinear_arith);
        assert(size * cost <= 1024 * cost && size * cost <= burst * (a * b)) by (nonlinear_arith)
            requires
                0 <= size <= 1024 <= burst,
                1 <= a,
                1 <= b,
                cost == a || cost == b,
        {
            assert(size * cost <= burst * cost);
            assert(burst * a <= burst * (a * b));
            assert(burst * b <= burst * (a * b));
        }
        lemma_after_sent(current.prio, i, 1 - i, size);
        let after = current.after_send();
        assert forall|k: int| 0 <= k < after.unrel.queue.len() implies (
        #[trigger] after.unrel.queue[k]).fragment.bytes().len() <= FRAGMENT_SIZE by {
            if unrel {
                assert(after.unrel.queue[k] == current.unrel.queue[k + 1]);
            }
        }
    }
}

/// A channel which has been idle, and now has as much to send as the other, cannot keep the other
/// from sending for long: in a row it sends no more than its weight times the burst size, and one
/// fragment.
pub proof fn law_bursts_are_limited(
    state: FragmentTxState,
    balance: ChannelBalanceConfig,
    unrel: bool,
    n: nat,
    now_ms: u64,
)
    requires
        state.wf(),
        state.unrel.fragment_size == FRAGMENT_SIZE,
        state.rel.fragment_size == FRAGMENT_SIZE,
        balance.is_valid(),
        FRAGMENT_SIZE <= balance.burst_size,
        state.prio.config == balance.prio(),
        are_busy(state, n, now_ms),
        is_run(state, unrel, n, now_ms),
    ensures
        ({
            let weight = if unrel {
                balance.unreliable_weight
            } else {
                balance.reliable_weight
            };
            sent_on(state, unrel, n, now_ms) <= balance.burst_size * weight + FRAGMENT_SIZE
        }),
{
    law_weights_are_followed(balance);
    let (a, b) = (balance.unreliable_weight as int, balance.reliable_weight as int);
    let (weight, cost) = if unrel {
        (a, b)
    } else {
        (b, a)
    };
    let burst = balance.burst_size as int;
    let sent = sent_on(state, unrel, n, now_ms);
    lemma_run(state, balance, unrel, n, now_ms, cost);
    assert(state.prio.counters[0] <= state.prio.config.counter_max);
    assert(state.prio.counters[1] <= state.prio.config.counter_max);
    let weights = seq![balance.unreliable_weight, balance.reliable_weight, 1u32, 1u32];
    assert(1 <= weights[0] <= WEIGHT_MAX && 1 <= weights[1] <= WEIGHT_MAX);
    assert(a * b == b * a && burst * weight >= 0) by (nonlinear_arith)
        requires
            burst >= 0,
            weight >= 0,
    ;
    if n > 0 {
        assert(sent <= burst * weight + 1024) by (nonlinear_arith)
            requires
                sent * cost <= burst * (a * b) + 1024 * cost,
                a * b == weight * cost,
                cost >= 1,
        {
            assert(burst * (weight * cost) + 1024 * cost == (burst * weight + 1024) * cost);
        }
    }
}

/// A channel which is the only one to have something to send sends it, whatever has been sent
/// before.
pub proof fn law_lone_channel_sends(state: FragmentTxState)
    requires
        state.has_data(),
    ensures
        state.next_datagram().unrel ==> state.unrel.queue.len() > 0,
        !state.next_datagram().unrel ==> state.rel.can_send(),
        !state.rel.can_send() ==> state.next_datagram().unrel,
        state.unrel.queue.len() == 0 ==> !state.next_datagram().unrel,
{
}

} // verus!
