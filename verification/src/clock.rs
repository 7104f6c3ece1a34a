//! The clock by which workers age.
use std::time::Instant;
use vstd::prelude::*;

use crate::options::Nanos;

verus! {

/// `std::time::Instant`, of which nothing is known but that it is a value.
#[verifier::external_type_specification]
#[verifier::external_body]
pub struct ExInstant(Instant);

/// A clock that counts nanoseconds from the moment it was made, and never runs back.
pub struct Clock {
    start: Instant,
    last: Nanos,
}

impl Clock {
    /// The last reading of the clock, and zero before the first.
    pub closed spec fn last(self) -> Nanos {
        self.last
    }

    /// A clock that starts to count now.
    pub fn new() -> (clock: Clock)
        ensures
            clock.last() == 0,
    {
        Clock { start: current_instant(), last: 0 }
    }

    /// Reads the clock. By how much it has moved on since the last reading is not claimed: that
    /// depends on when the reading is taken.
    pub fn now(&mut self) -> (reading: Nanos)
        ensures
            reading == final(self).last(),
            reading >= old(self).last(),
    {
        let gone: Nanos = nanos_since(&self.start);
        self.advance(gone)
    }

    /// Moves the clock on to the moment at which that much time is gone since its start, and reads
    /// it. A clock that is past that moment stands still.
    pub fn advance(&mut self, gone: Nanos) -> (reading: Nanos)
        ensures
            reading == final(self).last(),
            gone >= old(self).last() ==> reading == gone,
            gone < old(self).last() ==> reading == old(self).last(),
    {
        if gone > self.last {
            self.last = gone;
        }
        self.last
    }
}

/// The time from one reading of a clock to another, and zero where the second came first.
pub open spec fn elapsed(from: Nanos, to: Nanos) -> nat {
    if to >= from {
        (to - from) as nat
    } else {
        0
    }
}

/// Whether a span has gone by between two readings of a clock.
pub open spec fn has_passed(span: Nanos, from: Nanos, to: Nanos) -> bool {
    elapsed(from, to) >= span
}

/// How much of a span is still to go at the second of two readings of a clock, if any of it is.
pub fn remaining(span: Nanos, from: Nanos, to: Nanos) -> (rest: Option<Nanos>)
    ensures
        rest is None <==> has_passed(span, from, to),
        rest matches Some(left) ==> left > 0 && left + elapsed(from, to) == span,
        rest is None <==> span == 0 || to >= from + span,
        rest matches Some(left) ==> left == if to >= from {
            span - (to - from)
        } else {
            span as int
        },
{
    let gone: Nanos = to.saturating_sub(from);
    if gone >= span {
        None
    } else {
        Some(span - gone)
    }
}

/// Calls `std::time::Instant::now`. Nothing is claimed of the result.
#[verifier::external_body]
fn current_instant() -> Instant {
    Instant::now()
}

/// Calls `std::time::Instant::elapsed` and hands the span on as a number of nanoseconds. Nothing
/// is claimed of the result: it depends on when the call is made.
#[verifier::external_body]
fn nanos_since(start: &Instant) -> Nanos {
    start.elapsed().as_nanos()
}

} // verus!
