//! Waiting for an event, in rounds, within a limited time.

use vstd::prelude::*;

verus! {

/// How long to go on waiting. All times are in nanoseconds.
pub struct Wait {
    remaining: u128,
}

/// The time which is left once some of it has passed, if any is left.
pub open spec fn left_over(remaining: u128, elapsed: u128) -> Option<u128> {
    if elapsed >= remaining {
        None
    } else {
        Some((remaining - elapsed) as u128)
    }
}

/// The time which is left after some rounds of waiting, if any is left.
pub open spec fn left_over_after(timeout: u128, rounds: Seq<u128>) -> Option<u128>
    decreases rounds.len(),
{
    if rounds.len() == 0 {
        Some(timeout)
    } else {
        match left_over_after(timeout, rounds.drop_last()) {
            Some(remaining) => left_over(remaining, rounds.last()),
            None => None,
        }
    }
}

/// The time which some rounds have taken in all.
pub open spec fn total(rounds: Seq<u128>) -> int
    decreases rounds.len(),
{
    if rounds.len() == 0 {
        0
    } else {
        total(rounds.drop_last()) + rounds.last()
    }
}

impl View for Wait {
    type V = u128;

    closed spec fn view(&self) -> u128 {
        self.remaining
    }
}

impl Wait {
    pub fn new(timeout: u128) -> (wait: Self)
        ensures
            wait@ == timeout,
    {
        Self { remaining: timeout }
    }

    /// How long to block at most, if a timer is due after some time.
    pub fn limit(&self, timer_timeout: Option<u128>) -> (limit: u128)
        ensures
            limit == match timer_timeout {
                Some(time) => if time < self@ {
                    time
                } else {
                    self@
                },
                None => self@,
            },
    {
        match timer_timeout {
            Some(time) => if time < self.remaining {
                time
            } else {
                self.remaining
            },
            None => self.remaining,
        }
    }

    /// Accounts for a round which has taken some time. Returns whether there is time for another.
    pub fn pass(&mut self, elapsed: u128) -> (goes_on: bool)
        ensures
            goes_on == (left_over(old(self)@, elapsed) is Some),
            final(self)@ == match left_over(old(self)@, elapsed) {
                Some(remaining) => remaining,
                None => old(self)@,
            },
    {
        if elapsed >= self.remaining {
            return false;
        }
        self.remaining -= elapsed;
        true
    }
}

/// Rounds go on as long as they have not taken up the whole time, and no longer.
pub proof fn law_waiting_ends_in_time(timeout: u128, rounds: Seq<u128>)
    ensures
        left_over_after(timeout, rounds) matches Some(remaining) ==> total(rounds) + remaining
            == timeout,
        left_over_after(timeout, rounds) is None ==> total(rounds) >= timeout,
    decreases rounds.len(),
{
    if rounds.len() > 0 {
        law_waiting_ends_in_time(timeout, rounds.drop_last());
    }
}

} // verus!
