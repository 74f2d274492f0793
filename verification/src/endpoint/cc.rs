//! Congestion control in the manner of TCP Reno, as described in
//! <https://intronetworks.cs.luc.edu/current/html/reno.html>. Section numbers refer to that text.

use vstd::prelude::*;

verus! {

/// An initial TCP cwnd value of 10 * MSS is common on the post-2013 internet [19.2.5]
pub const INITIAL_CWND_MSS: u64 = 10;

/// One byte in fixed point numbers with 16 fractional bits.
pub const ONE_Q16: u64 = 0x1_0000;

/// How the congestion window grows.
pub enum Mode {
    /// By one segment per acknowledgement.
    UnboundedSlowStart,
    /// By one segment per acknowledgement, up to a threshold.
    ThresholdSlowStart(u64),
    /// By about one segment per window of acknowledgements.
    CongestionAvoidance,
}

/// Decides how many bytes may be in transit.
pub struct AimdReno {
    mode: Mode,
    mss_q16: u64,
    cwnd_q16: u64,
    dropcnt_q16: u64,
}

/// What an [`AimdReno`] holds. All sizes are fixed point numbers with 16 fractional bits.
pub struct CcState {
    pub mode: Mode,
    /// The size of a segment.
    pub mss: int,
    /// The size of the congestion window.
    pub cwnd: int,
    /// How much has yet to be acknowledged before another drop is taken into account.
    pub dropcnt: int,
}

pub open spec fn max(a: int, b: int) -> int {
    if a > b {
        a
    } else {
        b
    }
}

pub open spec fn min(a: int, b: int) -> int {
    if a < b {
        a
    } else {
        b
    }
}

impl CcState {
    /// The congestion window never shrinks below its initial size, nor does it pass the threshold.
    pub open spec fn wf(self) -> bool {
        &&& 0 <= self.mss <= 0xFFFF * ONE_Q16
        &&& self.cwnd_min() <= self.cwnd <= u64::MAX
        &&& 0 <= self.dropcnt <= u64::MAX
        &&& self.mode matches Mode::ThresholdSlowStart(ssthresh) ==> self.cwnd <= ssthresh
    }

    pub open spec fn cwnd_min(self) -> int {
        INITIAL_CWND_MSS * self.mss
    }

    /// By how much the window grows when it grows by one segment per window: mss*mss/cwnd, rounded
    /// to the nearest value [19.2.1]
    pub open spec fn avoidance_growth(self) -> int {
        (self.mss * self.mss + self.cwnd / 2) / self.cwnd
    }

    pub open spec fn after_ack(self) -> CcState {
        let dropcnt = max(self.dropcnt - self.mss, 0);
        let grown = min(self.cwnd + self.mss, u64::MAX as int);
        match self.mode {
            Mode::UnboundedSlowStart => CcState { cwnd: grown, dropcnt, ..self },
            Mode::ThresholdSlowStart(ssthresh) => if grown >= ssthresh {
                CcState {
                    cwnd: ssthresh as int,
                    mode: Mode::CongestionAvoidance,
                    dropcnt,
                    ..self
                }
            } else {
                CcState { cwnd: grown, dropcnt, ..self }
            },
            Mode::CongestionAvoidance => CcState {
                cwnd: min(self.cwnd + self.avoidance_growth(), u64::MAX as int),
                dropcnt,
                ..self
            },
        }
    }

    pub open spec fn after_timeout(self) -> CcState {
        CcState {
            mode: Mode::ThresholdSlowStart(max(self.cwnd / 2, self.cwnd_min()) as u64),
            mss: self.mss,
            cwnd: self.cwnd_min(),
            dropcnt: 0,
        }
    }

    pub open spec fn after_drop(self) -> CcState {
        let halved = max(self.cwnd / 2, self.cwnd_min());
        if self.dropcnt == 0 {
            CcState {
                mode: Mode::CongestionAvoidance,
                mss: self.mss,
                cwnd: halved,
                dropcnt: halved,
            }
        } else {
            self
        }
    }

    /// The number of whole bytes which may be in transit.
    pub open spec fn window(self) -> int {
        min(self.cwnd / (ONE_Q16 as int), usize::MAX as int)
    }
}

/// The state of congestion control in the beginning, for segments of `mss` bytes.
pub open spec fn initial(mss: int) -> CcState {
    CcState {
        mode: Mode::UnboundedSlowStart,
        mss: mss * ONE_Q16,
        cwnd: INITIAL_CWND_MSS * (mss * ONE_Q16),
        dropcnt: 0,
    }
}

impl View for AimdReno {
    type V = CcState;

    closed spec fn view(&self) -> CcState {
        CcState {
            mode: self.mode,
            mss: self.mss_q16 as int,
            cwnd: self.cwnd_q16 as int,
            dropcnt: self.dropcnt_q16 as int,
        }
    }
}

impl AimdReno {
    /// `mss` is the size of a segment, of which the square must be a valid fixed point number.
    pub fn new(mss: usize) -> (cc: Self)
        requires
            mss <= u16::MAX,
        ensures
            cc@ == initial(mss as int),
            cc@.wf(),
    {
        Self {
            mode: Mode::UnboundedSlowStart,
            mss_q16: mss as u64 * ONE_Q16,
            cwnd_q16: INITIAL_CWND_MSS * mss as u64 * ONE_Q16,
            dropcnt_q16: 0,
        }
    }

    /// Grows the window in response to an acknowledgement.
    pub fn handle_ack(&mut self)
        requires
            old(self)@.wf(),
            old(self)@.mode is CongestionAvoidance ==> old(self)@.cwnd > 0 && old(self)@.mss * old(
                self,
            )@.mss + old(self)@.cwnd / 2 <= u64::MAX,
        ensures
            final(self)@.wf(),
            final(self)@ == old(self)@.after_ack(),
    {
        // Window has advanced, subtract from drop counter
        if self.dropcnt_q16 > self.mss_q16 {
            self.dropcnt_q16 = self.dropcnt_q16 - self.mss_q16;
        } else {
            self.dropcnt_q16 = 0;
        }

        match self.mode {
            Mode::UnboundedSlowStart => {
                // Double cwnd each RTT [19.2]
                self.cwnd_q16 = self.cwnd_q16.saturating_add(self.mss_q16);
            },
            Mode::ThresholdSlowStart(ssthresh) => {
                // Double cwnd each RTT, unless we would advance beyond ssthresh [19.2.2]
                let new_cwnd_q16: u64 = self.cwnd_q16.saturating_add(self.mss_q16);
                if new_cwnd_q16 >= ssthresh {
                    // Enter congestion avoidance, beginning with ssthresh
                    self.cwnd_q16 = ssthresh;
                    self.mode = Mode::CongestionAvoidance;
                } else {
                    // Handle as if we were in unbounded slow start
                    self.cwnd_q16 = new_cwnd_q16;
                }
            },
            Mode::CongestionAvoidance => {
                // Compute mss*mss/cwnd and add to existing cwnd [19.2.1]
                let mss_q16: u64 = self.mss_q16;
                let cwnd_q16: u64 = self.cwnd_q16;
                assert(mss_q16 * mss_q16 >= 0) by (nonlinear_arith);
                let cwnd_inv_q16: u64 = (mss_q16 * mss_q16 + cwnd_q16 / 2) / cwnd_q16;
                self.cwnd_q16 = cwnd_q16.saturating_add(cwnd_inv_q16);
            },
        }
    }

    /// Starts over from the initial window once no acknowledgement has come in for too long.
    pub fn handle_timeout(&mut self)
        requires
            old(self)@.wf(),
        ensures
            final(self)@.wf(),
            final(self)@ == old(self)@.after_timeout(),
    {
        let cwnd_q16: u64 = self.cwnd_q16;
        let cwnd_min_q16: u64 = INITIAL_CWND_MSS * self.mss_q16;

        // The pipe has drained, reassess connection capacity in threshold slow start [19.2.2]
        self.cwnd_q16 = cwnd_min_q16;
        self.dropcnt_q16 = 0;
        self.mode = Mode::ThresholdSlowStart(
            if cwnd_q16 / 2 > cwnd_min_q16 {
                cwnd_q16 / 2
            } else {
                cwnd_min_q16
            },
        );
    }

    /// Halves the window in response to a drop.
    pub fn handle_drop(&mut self)
        requires
            old(self)@.wf(),
        ensures
            final(self)@.wf(),
            final(self)@ == old(self)@.after_drop(),
    {
        let cwnd_q16: u64 = self.cwnd_q16;
        let cwnd_min_q16: u64 = INITIAL_CWND_MSS * self.mss_q16;

        // Since no segments are retransmitted, we don't need to worry about window pinning. Also,
        // since the newest received segment ID is always sent back to the sender, the segment tx
        // queue has a reasonably accurate estimate of the number of bytes in transit, and we need
        // not worry about estimating the flight size here in the same way that TCP Reno does. It
        // suffices to halve cwnd and continue in congestion avoidance in all three modes. [19.4]

        // Halve cwnd and enter congestion avoidance, provided we haven't seen a drop recently
        if self.dropcnt_q16 == 0 {
            let new_cwnd_q16: u64 = if cwnd_q16 / 2 > cwnd_min_q16 {
                cwnd_q16 / 2
            } else {
                cwnd_min_q16
            };
            self.cwnd_q16 = new_cwnd_q16;
            self.dropcnt_q16 = new_cwnd_q16;
            self.mode = Mode::CongestionAvoidance;
        }
    }

    /// The number of bytes which may be in transit.
    pub fn cwnd(&self) -> (bytes: usize)
        ensures
            bytes == self@.window(),
    {
        // Convert out of Q16 and into usize
        let cwnd_int: u64 = self.cwnd_q16 / ONE_Q16;
        if cwnd_int <= usize::MAX as u64 {
            cwnd_int as usize
        } else {
            usize::MAX
        }
    }
}

/// The window always lets at least ten segments be in transit.
pub proof fn law_window_floor(state: CcState)
    requires
        state.wf(),
        state.mss % (ONE_Q16 as int) == 0,
    ensures
        state.window() >= min(INITIAL_CWND_MSS * (state.mss / (ONE_Q16 as int)), usize::MAX as int),
{
}

/// A second drop in a row changes nothing: the window is halved only once until as much data as the
/// window holds has been acknowledged.
pub proof fn law_drops_in_a_row(state: CcState)
    requires
        state.wf(),
        state.mss > 0,
    ensures
        state.after_drop().after_drop() == state.after_drop(),
{
}

/// An acknowledgement never shrinks the window.
pub proof fn law_ack_grows_window(state: CcState)
    requires
        state.wf(),
        state.cwnd > 0,
    ensures
        state.after_ack().cwnd >= state.cwnd,
{
    let growth = state.avoidance_growth();
    assert(growth >= 0) by (nonlinear_arith)
        requires
            growth == (state.mss * state.mss + state.cwnd / 2) / state.cwnd,
            state.cwnd > 0,
    ;
}

/// Something which congestion control is told.
pub enum Notice {
    Ack,
    Drop,
    Timeout,
}

impl CcState {
    pub open spec fn after_notice(self, notice: Notice) -> CcState {
        match notice {
            Notice::Ack => self.after_ack(),
            Notice::Drop => self.after_drop(),
            Notice::Timeout => self.after_timeout(),
        }
    }

    /// The state once some notices have come in, in order.
    pub open spec fn after_notices(self, notices: Seq<Notice>) -> CcState
        decreases notices.len(),
    {
        if notices.len() == 0 {
            self
        } else {
            self.after_notices(notices.drop_last()).after_notice(notices.last())
        }
    }
}

pub(crate) proof fn lemma_avoidance_growth(state: CcState)
    requires
        state.wf(),
        state.mss > 0,
    ensures
        0 <= state.avoidance_growth() <= state.mss,
{
    let mss = state.mss;
    let cwnd = state.cwnd;
    assert(0 <= (mss * mss + cwnd / 2) / cwnd <= mss) by (nonlinear_arith)
        requires
            mss > 0,
            cwnd >= 10 * mss,
    {
        assert(mss * mss + cwnd / 2 <= mss * cwnd) by (nonlinear_arith)
            requires
                mss > 0,
                cwnd >= 10 * mss,
        ;
        assert(mss * mss + cwnd / 2 >= 0) by (nonlinear_arith)
            requires
                cwnd >= 0,
        ;
        assert((mss * cwnd) / cwnd == mss) by (nonlinear_arith)
            requires
                cwnd > 0,
        ;
    }
}

/// Every notice keeps the window as large as it was in the beginning, at least. An acknowledgement
/// never shrinks it, and lets it grow by one segment at most. Neither a drop nor a timeout lets it
/// grow.
pub proof fn law_window_moves(state: CcState)
    requires
        state.wf(),
        state.mss > 0,
        state.mss % (ONE_Q16 as int) == 0,
    ensures
        state.after_ack().wf() && state.after_drop().wf() && state.after_timeout().wf(),
        state.window() <= state.after_ack().window() <= state.window() + state.mss / (
        ONE_Q16 as int),
        state.after_drop().window() <= state.window(),
        state.after_timeout().window() <= state.window(),
{
    lemma_avoidance_growth(state);
}

/// Whatever congestion control has been told so far, the window holds ten segments at least.
pub proof fn law_window_always_holds_ten_segments(mss: int, notices: Seq<Notice>)
    requires
        0 < mss <= 0xFFFF,
    ensures
        initial(mss).after_notices(notices).wf(),
        initial(mss).after_notices(notices).mss == mss * ONE_Q16,
        initial(mss).after_notices(notices).window() >= INITIAL_CWND_MSS * mss,
    decreases notices.len(),
{
    if notices.len() > 0 {
        law_window_always_holds_ten_segments(mss, notices.drop_last());
        law_window_moves(initial(mss).after_notices(notices.drop_last()));
    }
    law_window_floor(initial(mss).after_notices(notices));
}

} // verus!
