//! Weighted sharing of the connection between channels.

use vstd::prelude::*;

verus! {

pub const CHANNEL_COUNT: usize = 4;

/// The largest amount of data which a channel may send at once.
pub const DATA_SIZE_MAX: usize = 65535;

pub const BURST_SIZE_MAX: usize = DATA_SIZE_MAX * 255;

pub const WEIGHT_MAX: u32 = 256;

/// The weights of all channels, and how much they may send after an idle period.
#[derive(Clone, Copy)]
pub struct Config {
    weights: [u32; CHANNEL_COUNT],
    counter_max: u32,
}

/// What a [`Config`] holds.
pub struct ConfigState {
    /// What one byte sent on a channel adds to its counter: the product of all other weights.
    pub costs: Seq<u32>,
    /// The largest value of a counter.
    pub counter_max: u32,
}

impl ConfigState {
    pub open spec fn wf(self) -> bool {
        &&& self.costs.len() == CHANNEL_COUNT
        &&& forall|i: int|
            0 <= i < CHANNEL_COUNT ==> 1 <= #[trigger] self.costs[i] <= WEIGHT_MAX
        &&& self.counter_max <= BURST_SIZE_MAX * WEIGHT_MAX
    }
}

impl View for Config {
    type V = ConfigState;

    closed spec fn view(&self) -> ConfigState {
        ConfigState { costs: self.weights@, counter_max: self.counter_max }
    }
}

/// The product of all weights.
pub open spec fn product(weights: Seq<u32>) -> int {
    weights[0] * weights[1] * weights[2] * weights[3]
}

/// Whether weights and burst size are in range: no weight is zero, and neither the weights nor
/// their product exceed [`WEIGHT_MAX`].
pub open spec fn is_valid(weights: Seq<u32>, burst_size: int) -> bool {
    &&& forall|i: int| 0 <= i < CHANNEL_COUNT ==> 1 <= #[trigger] weights[i] <= WEIGHT_MAX
    &&& product(weights) <= WEIGHT_MAX
    &&& 1 <= burst_size <= BURST_SIZE_MAX
}

/// Whether a [`Config`] can be made of these weights and this burst size.
pub fn validate(weights: &[u32; CHANNEL_COUNT], burst_size: usize) -> (valid: bool)
    ensures
        valid == is_valid(weights@, burst_size as int),
{
    let mut i: usize = 0;
    while i < CHANNEL_COUNT
        invariant
            i <= CHANNEL_COUNT,
            forall|j: int| 0 <= j < i ==> 1 <= #[trigger] weights@[j] <= WEIGHT_MAX,
        decreases CHANNEL_COUNT - i,
    {
        if weights[i] == 0 || weights[i] > WEIGHT_MAX {
            return false;
        }
        i = i + 1;
    }
    let first_three: u32 = {
        proof {
            lemma_products(weights@);
        }
        weights[0] * weights[1] * weights[2]
    };
    proof {
        let d = weights[3] as int;
        assert(first_three * d <= 256 <==> first_three <= 256int / d) by (nonlinear_arith)
            requires
                d > 0,
        ;
    }
    // A > floor(C / B) ==> A * B > C
    first_three <= WEIGHT_MAX / weights[3] && burst_size != 0 && burst_size <= BURST_SIZE_MAX
}

proof fn lemma_products(weights: Seq<u32>)
    requires
        forall|i: int| 0 <= i < CHANNEL_COUNT ==> 1 <= #[trigger] weights[i] <= WEIGHT_MAX,
    ensures
        1 <= weights[0] * weights[1] <= 0x1_0000,
        1 <= weights[0] * weights[1] * weights[2] <= 0x100_0000,
        1 <= product(weights) <= 0x1_0000_0000,
{
    let (a, b, c, d) = (weights[0] as int, weights[1] as int, weights[2] as int, weights[3] as int);
    lemma_bounds(a, b, 256, 256);
    lemma_bounds(a * b, c, 0x1_0000, 256);
    lemma_bounds(a * b * c, d, 0x100_0000, 256);
}

proof fn lemma_bounds(x: int, y: int, x_max: int, y_max: int)
    by (nonlinear_arith)
    requires
        1 <= x <= x_max,
        1 <= y <= y_max,
    ensures
        1 <= x * y <= x_max * y_max,
{
}

/// The products of three weights each.
proof fn lemma_costs(weights: Seq<u32>)
    requires
        is_valid(weights, 1),
    ensures
        1 <= weights[1] * weights[2] * weights[3] <= WEIGHT_MAX,
        1 <= weights[0] * weights[2] * weights[3] <= WEIGHT_MAX,
        1 <= weights[0] * weights[1] * weights[3] <= WEIGHT_MAX,
        1 <= weights[0] * weights[1] * weights[2] <= WEIGHT_MAX,
        1 <= weights[1] * weights[2] <= 0x1_0000,
        1 <= weights[0] * weights[2] <= 0x1_0000,
        1 <= weights[0] * weights[1] <= 0x1_0000,
        1 <= product(weights) <= WEIGHT_MAX,
{
    let (a, b, c, d) = (weights[0] as int, weights[1] as int, weights[2] as int, weights[3] as int);
    lemma_products(weights);
    lemma_bounds(a, c, 256, 256);
    lemma_bounds(b, c, 256, 256);
    lemma_bounds(b * c, d, 0x1_0000, 256);
    lemma_bounds(a * c, d, 0x1_0000, 256);
    lemma_bounds(a * b, d, 0x1_0000, 256);
    assert(b * c * d <= a * b * c * d) by (nonlinear_arith)
        requires
            a >= 1,
            b * c * d >= 1,
    ;
    assert(a * c * d <= a * b * c * d) by (nonlinear_arith)
        requires
            b >= 1,
            a * c * d >= 1,
    ;
    assert(a * b * d <= a * b * c * d) by (nonlinear_arith)
        requires
            c >= 1,
            a * b * d >= 1,
    ;
    assert(a * b * c <= a * b * c * d) by (nonlinear_arith)
        requires
            d >= 1,
            a * b * c >= 1,
    ;
}

impl Config {
    pub fn new(weights: &[u32; CHANNEL_COUNT], burst_size: usize) -> (config: Self)
        requires
            is_valid(weights@, burst_size as int),
        ensures
            config@.wf(),
            config@.costs == seq![
                (weights[1] * weights[2] * weights[3]) as u32,
                (weights[0] * weights[2] * weights[3]) as u32,
                (weights[0] * weights[1] * weights[3]) as u32,
                (weights[0] * weights[1] * weights[2]) as u32,
            ],
            config@.counter_max == burst_size * product(weights@),
    {
        proof {
            lemma_costs(weights@);
        }
        let transformed_weights: [u32; CHANNEL_COUNT] = [
            weights[1] * weights[2] * weights[3],
            weights[0] * weights[2] * weights[3],
            weights[0] * weights[1] * weights[3],
            weights[0] * weights[1] * weights[2],
        ];

        let total_product: u32 = weights[0] * weights[1] * weights[2] * weights[3];
        proof {
            lemma_bounds(burst_size as int, total_product as int, BURST_SIZE_MAX as int, 256);
        }

        let counter_max: u32 = burst_size as u32 * total_product;

        let config = Self { weights: transformed_weights, counter_max };
        assert(config@.costs =~= seq![
            (weights[1] * weights[2] * weights[3]) as u32,
            (weights[0] * weights[2] * weights[3]) as u32,
            (weights[0] * weights[1] * weights[3]) as u32,
            (weights[0] * weights[1] * weights[2]) as u32,
        ]);
        config
    }
}

/// Decides which channel may send next.
pub struct Prio {
    pub counters: [u32; CHANNEL_COUNT],
    pub weights: [u32; CHANNEL_COUNT],
    pub counter_max: u32,
}

/// What a [`Prio`] holds.
pub struct PrioState {
    /// How much each channel has sent of late, weighted by its cost.
    pub counters: Seq<u32>,
    pub config: ConfigState,
}

impl View for Prio {
    type V = PrioState;

    open spec fn view(&self) -> PrioState {
        PrioState {
            counters: self.counters@,
            config: ConfigState { costs: self.weights@, counter_max: self.counter_max },
        }
    }
}

/// `a - b`, or zero if that is negative.
pub open spec fn minus(a: int, b: int) -> int {
    if a > b {
        a - b
    } else {
        0
    }
}

impl PrioState {
    /// No counter exceeds the maximum.
    pub open spec fn wf(self) -> bool {
        &&& self.config.wf()
        &&& self.counters.len() == CHANNEL_COUNT
        &&& forall|i: int|
            0 <= i < CHANNEL_COUNT ==> #[trigger] self.counters[i] <= self.config.counter_max
    }

    /// Whether channel `i`, which has data to send, is to send it before all other such channels:
    /// its counter is the lowest. Of equal ones, the first channel wins.
    pub open spec fn is_next(self, ready: Seq<bool>, i: int) -> bool {
        &&& 0 <= i < CHANNEL_COUNT
        &&& ready[i]
        &&& forall|j: int|
            0 <= j < CHANNEL_COUNT && #[trigger] ready[j] && j != i ==> self.counters[i]
                < self.counters[j] || (self.counters[i] == self.counters[j] && i < j)
    }

    /// By how much a counter would exceed the maximum once channel `i` has sent `size` bytes.
    pub open spec fn excess(self, i: int, size: int) -> int {
        minus(self.counters[i] + size * self.config.costs[i], self.config.counter_max as int)
    }

    /// The state once channel `i` has sent `size` bytes. All counters drop together when one would
    /// exceed the maximum.
    pub open spec fn after_sent(self, i: int, size: int) -> PrioState {
        let excess = self.excess(i, size);
        PrioState {
            counters: Seq::new(
                CHANNEL_COUNT as nat,
                |j: int|
                    minus(
                        if j == i {
                            self.counters[j] + size * self.config.costs[j]
                        } else {
                            self.counters[j] as int
                        },
                        excess,
                    ) as u32,
            ),
            config: self.config,
        }
    }
}

impl Prio {
    pub fn new(config: Config) -> (prio: Self)
        requires
            config@.wf(),
        ensures
            prio@.wf(),
            prio@.counters == seq![0u32, 0, 0, 0],
            prio@.config == config@,
    {
        let prio = Self {
            counters: [0, 0, 0, 0],
            weights: config.weights,
            counter_max: config.counter_max,
        };
        assert(prio@.counters =~= seq![0u32, 0, 0, 0]);
        prio
    }

    /// The channel which is to send next, of those which have data to send.
    pub fn next(&self, ch0: bool, ch1: bool, ch2: bool, ch3: bool) -> (channel: Option<u8>)
        ensures
            match channel {
                Some(i) => self@.is_next(seq![ch0, ch1, ch2, ch3], i as int),
                None => !ch0 && !ch1 && !ch2 && !ch3,
            },
    {
        let mut min_chan: Option<u8> = None;
        let mut min_val: u32 = 0;
        let mut set: bool = false;

        if ch0 && (!set || self.counters[0] < min_val) {
            min_chan = Some(0);
            min_val = self.counters[0];
            set = true;
        }
        if ch1 && (!set || self.counters[1] < min_val) {
            min_chan = Some(1);
            min_val = self.counters[1];
            set = true;
        }
        if ch2 && (!set || self.counters[2] < min_val) {
            min_chan = Some(2);
            min_val = self.counters[2];
            set = true;
        }
        if ch3 && (!set || self.counters[3] < min_val) {
            min_chan = Some(3);
        }
        return min_chan;
    }

    /// Notes that a channel has sent `data_size` bytes.
    pub fn mark_sent(&mut self, channel_idx: u8, data_size: usize)
        requires
            old(self)@.wf(),
            channel_idx < CHANNEL_COUNT,
            data_size <= DATA_SIZE_MAX,
        ensures
            final(self)@.wf(),
            final(self)@ == old(self)@.after_sent(channel_idx as int, data_size as int),
    {
        let idx: usize = channel_idx as usize;
        let weight: u32 = self.weights[idx];
        let counter_max: u32 = self.counter_max;
        let ghost i = idx as int;

        proof {
            assert(1 <= self@.config.costs[i] <= WEIGHT_MAX);
            assert(0 <= data_size * weight <= DATA_SIZE_MAX * WEIGHT_MAX) by (nonlinear_arith)
                requires
                    data_size <= DATA_SIZE_MAX,
                    weight <= WEIGHT_MAX,
            ;
            assert(self@.counters[i] <= counter_max);
        }

        let weighted_size: u32 = data_size as u32 * weight;
        let counter: u32 = self.counters[idx] + weighted_size;

        self.counters[idx] = counter;
        let ghost sent = self.counters@;

        if counter > counter_max {
            let excess: u32 = counter - counter_max;

            let mut j: usize = 0;
            while j < CHANNEL_COUNT
                invariant
                    j <= CHANNEL_COUNT,
                    sent.len() == CHANNEL_COUNT,
                    self.counters@.len() == CHANNEL_COUNT,
                    self.weights == old(self).weights,
                    self.counter_max == old(self).counter_max,
                    forall|k: int|
                        0 <= k < CHANNEL_COUNT ==> #[trigger] self.counters@[k] == if k < j {
                            minus(sent[k] as int, excess as int)
                        } else {
                            sent[k] as int
                        },
                decreases CHANNEL_COUNT - j,
            {
                self.counters[j] = self.counters[j].saturating_sub(excess);
                j = j + 1;
            }
        }
        proof {
            let after = old(self)@.after_sent(i, data_size as int);
            assert(self@.counters =~= after.counters);
            assert forall|k: int| 0 <= k < CHANNEL_COUNT implies #[trigger] self@.counters[k]
                <= counter_max by {
                assert(old(self)@.counters[k] <= counter_max);
            }
        }
    }
}

/// Whether no two channels with data to send have counters more than `bound` apart.
pub open spec fn is_balanced(state: PrioState, ready: Seq<bool>, bound: int) -> bool {
    forall|i: int, j: int|
        0 <= i < CHANNEL_COUNT && 0 <= j < CHANNEL_COUNT && #[trigger] ready[i]
            && #[trigger] ready[j] ==> state.counters[i] - state.counters[j] <= bound
}

/// Channels which always have data to send share the connection by their weights: as long as each
/// piece of data is sent on the channel which is next, and weighs no more than `bound`, the weighted
/// amounts sent never get more than `bound` apart.
pub proof fn law_balance(state: PrioState, ready: Seq<bool>, i: int, size: int, bound: int)
    requires
        state.wf(),
        ready.len() == CHANNEL_COUNT,
        is_balanced(state, ready, bound),
        state.is_next(ready, i),
        0 <= size <= DATA_SIZE_MAX,
        size * state.config.costs[i] <= bound,
    ensures
        is_balanced(state.after_sent(i, size), ready, bound),
{
    let after = state.after_sent(i, size);
    let cost = state.config.costs[i];
    assert(1 <= cost <= WEIGHT_MAX);
    assert(0 <= size * cost <= DATA_SIZE_MAX * WEIGHT_MAX) by (nonlinear_arith)
        requires
            0 <= size <= DATA_SIZE_MAX,
            1 <= cost <= WEIGHT_MAX,
    ;
    assert forall|a: int, b: int|
        0 <= a < CHANNEL_COUNT && 0 <= b < CHANNEL_COUNT && #[trigger] ready[a]
            && #[trigger] ready[b] implies after.counters[a] - after.counters[b] <= bound by {
        assert(state.counters[a] - state.counters[b] <= bound);
        assert(state.counters[a] <= state.config.counter_max);
        assert(state.counters[b] <= state.config.counter_max);
        assert(state.counters[i] <= state.config.counter_max);
    }
}

} // verus!
