//! How the two channels of a link share it.

use vstd::prelude::*;

verus! {

pub const SATURATION_MAX: i32 = 1_000_000;

#[derive(Debug, Clone, Copy, PartialEq, Eq, Structural)]
pub enum SendModeType {
    Unreliable,
    Reliable,
}

/// A counter which tells which channel is to send next. It falls whenever the reliable channel sends,
/// and rises whenever the unreliable one does.
pub struct TxPrioState {
    pub counter: i32,
    pub w_r: u8,
    pub w_u: u8,
    pub sat_r: i32,
    pub sat_u: i32,
}

impl TxPrioState {
    pub open spec fn wf(self) -> bool {
        &&& self.w_r != 0
        &&& self.w_u != 0
        &&& 0 < self.sat_r <= SATURATION_MAX
        &&& 0 < self.sat_u <= SATURATION_MAX
        &&& -self.sat_r <= self.counter <= self.sat_u
    }

    /// The channel which is to send next, if it has anything to send.
    pub open spec fn mode(self) -> SendModeType {
        if self.counter >= 0 {
            SendModeType::Reliable
        } else {
            SendModeType::Unreliable
        }
    }

    /// By how much a piece of data moves the counter.
    pub open spec fn cost(self, mode: SendModeType, size: int) -> int {
        match mode {
            SendModeType::Reliable => size * self.w_u,
            SendModeType::Unreliable => size * self.w_r,
        }
    }

    /// Where a piece of data moves the counter, unless it is cut off.
    pub open spec fn moved(self, mode: SendModeType, size: int) -> int {
        match mode {
            SendModeType::Reliable => self.counter - self.cost(mode, size),
            SendModeType::Unreliable => self.counter + self.cost(mode, size),
        }
    }

    /// The state once some data has been sent on a channel.
    pub open spec fn after_sent(self, mode: SendModeType, size: int) -> TxPrioState {
        let moved = self.moved(mode, size);
        TxPrioState {
            counter: if moved < -self.sat_r {
                -self.sat_r as i32
            } else if moved > self.sat_u {
                self.sat_u
            } else {
                moved as i32
            },
            ..self
        }
    }

    /// The state once some pieces of data have been sent, each on a channel and of a size.
    pub open spec fn after_run(self, pieces: Seq<(SendModeType, nat)>) -> TxPrioState
        decreases pieces.len(),
    {
        if pieces.len() == 0 {
            self
        } else {
            let (mode, size) = pieces.last();
            self.after_run(pieces.drop_last()).after_sent(mode, size as int)
        }
    }

    /// Whether the counter has not been cut off while data was sent.
    pub open spec fn stays_in_bounds(self, pieces: Seq<(SendModeType, nat)>) -> bool
        decreases pieces.len(),
    {
        pieces.len() > 0 ==> {
            let (mode, size) = pieces.last();
            let moved = self.after_run(pieces.drop_last()).moved(mode, size as int);
            &&& self.stays_in_bounds(pieces.drop_last())
            &&& -self.sat_r <= moved <= self.sat_u
        }
    }

    /// Whether each piece has been sent on the channel whose turn it was, as is the case while both
    /// channels have something to send. None is larger than `size_max`.
    pub open spec fn take_turns(self, pieces: Seq<(SendModeType, nat)>, size_max: nat) -> bool
        decreases pieces.len(),
    {
        pieces.len() > 0 ==> {
            let (mode, size) = pieces.last();
            &&& self.take_turns(pieces.drop_last(), size_max)
            &&& mode == self.after_run(pieces.drop_last()).mode()
            &&& size <= size_max
        }
    }

    pub fn new(w_r: u8, w_u: u8, sat_r: i32, sat_u: i32) -> (state: Self)
        requires
            w_r != 0,
            w_u != 0,
            0 < sat_r <= SATURATION_MAX,
            0 < sat_u <= SATURATION_MAX,
        ensures
            state.wf(),
            state == (TxPrioState { counter: 0, w_r, w_u, sat_r, sat_u }),
    {
        Self { counter: 0, w_r, w_u, sat_r, sat_u }
    }

    pub fn next_mode(&self) -> (mode: SendModeType)
        ensures
            mode == self.mode(),
    {
        if self.counter >= 0 {
            SendModeType::Reliable
        } else {
            SendModeType::Unreliable
        }
    }

    /// Takes in that some data has been sent on the channel whose turn it was.
    pub fn mark_sent(&mut self, size: usize)
        requires
            old(self).wf(),
            old(self).cost(old(self).mode(), size as int) <= i32::MAX,
        ensures
            final(self).wf(),
            *final(self) == old(self).after_sent(old(self).mode(), size as int),
    {
        self.mark_sent_on(self.next_mode(), size);
    }

    /// Takes in that some data has been sent on a channel.
    pub fn mark_sent_on(&mut self, mode: SendModeType, size: usize)
        requires
            old(self).wf(),
            old(self).cost(mode, size as int) <= i32::MAX,
        ensures
            final(self).wf(),
            *final(self) == old(self).after_sent(mode, size as int),
    {
        proof {
            assert(0 <= size * self.w_r && 0 <= size * self.w_u) by (nonlinear_arith)
                requires
                    size >= 0,
                    self.w_r >= 0,
                    self.w_u >= 0,
            ;
        }
        let moved: i64 = match mode {
            SendModeType::Reliable => self.counter as i64 - (size * self.w_u as usize) as i64,
            SendModeType::Unreliable => self.counter as i64 + (size * self.w_r as usize) as i64,
        };

        self.counter =
        if moved < -(self.sat_r as i64) {
            -self.sat_r
        } else if moved > self.sat_u as i64 {
            self.sat_u
        } else {
            moved as i32
        };
    }
}

/// How much has been sent on a channel.
pub open spec fn sent_on(mode: SendModeType, pieces: Seq<(SendModeType, nat)>) -> int
    decreases pieces.len(),
{
    if pieces.len() == 0 {
        0
    } else {
        let before = sent_on(mode, pieces.drop_last());
        if pieces.last().0 == mode {
            before + pieces.last().1
        } else {
            before
        }
    }
}

/// As long as the counter is not cut off, it tells how far the channels are from sharing the link in
/// the ratio of their weights, whichever of them have been served.
pub proof fn law_counter(state: TxPrioState, pieces: Seq<(SendModeType, nat)>)
    requires
        state.wf(),
        state.stays_in_bounds(pieces),
    ensures
        ({
            let reliable = sent_on(SendModeType::Reliable, pieces);
            let unreliable = sent_on(SendModeType::Unreliable, pieces);
            let after = state.after_run(pieces);
            &&& after.counter == state.counter + unreliable * state.w_r - reliable * state.w_u
            &&& after == (TxPrioState { counter: after.counter, ..state })
            &&& after.wf()
        }),
    decreases pieces.len(),
{
    if pieces.len() > 0 {
        let shorter = pieces.drop_last();
        let size = pieces.last().1 as int;
        law_counter(state, shorter);
        let reliable = sent_on(SendModeType::Reliable, shorter);
        let unreliable = sent_on(SendModeType::Unreliable, shorter);
        let w_r = state.w_r as int;
        let w_u = state.w_u as int;
        assert((reliable + size) * w_u == reliable * w_u + size * w_u) by (nonlinear_arith);
        assert((unreliable + size) * w_r == unreliable * w_r + size * w_r) by (nonlinear_arith);
    } else {
        assert(0 * state.w_u == 0 && 0 * state.w_r == 0) by (nonlinear_arith);
    }
}

/// While both channels have something to send, they share the link in the ratio of their weights: the
/// weighted amounts never differ by more than one piece is worth, and the counter is not cut off as
/// long as its bounds leave room for one.
pub proof fn law_ratio(state: TxPrioState, pieces: Seq<(SendModeType, nat)>, size_max: nat)
    requires
        state.wf(),
        state.counter == 0,
        size_max * state.w_u <= state.sat_r,
        size_max * state.w_r <= state.sat_u,
        state.take_turns(pieces, size_max),
    ensures
        state.stays_in_bounds(pieces),
        ({
            let reliable = sent_on(SendModeType::Reliable, pieces);
            let unreliable = sent_on(SendModeType::Unreliable, pieces);
            -(size_max * state.w_u) <= unreliable * state.w_r - reliable * state.w_u <= size_max
                * state.w_r
        }),
    decreases pieces.len(),
{
    let w_r = state.w_r as int;
    let w_u = state.w_u as int;
    assert(size_max * w_r >= 0 && size_max * w_u >= 0) by (nonlinear_arith)
        requires
            size_max >= 0,
            w_r >= 0,
            w_u >= 0,
    ;
    if pieces.len() > 0 {
        let shorter = pieces.drop_last();
        let size = pieces.last().1 as int;
        law_ratio(state, shorter, size_max);
        law_counter(state, shorter);
        assert(0 <= size * w_r <= size_max * w_r && 0 <= size * w_u <= size_max * w_u)
            by (nonlinear_arith)
            requires
                0 <= size <= size_max,
                w_r >= 0,
                w_u >= 0,
        ;
    }
    law_counter(state, pieces);
}

} // verus!
