//! The collector boundary's own reading of elapsed time.
//!
//! Two clocks reach this boundary and they answer different questions.
//! Authentication wall time, in Unix seconds, is what a token's validity
//! is judged against. A request's deadline and a destination's repeat
//! schedule ask something else: how much *local* time has passed since a
//! point this process chose. That is a monotonic reading, in milliseconds,
//! and it must not step when the wall clock is corrected.
//!
//! Giving the reading a type of its own makes the two inputs distinct at
//! the signature, so a caller cannot hand the wall clock to the deadline
//! path by mistake. The library holds no clock: the runtime reads its
//! monotonic source and passes the value in.

use vstd::prelude::*;

use crate::ordered::Dup;

verus! {

/// A monotonic reading, in milliseconds since an origin the caller
/// chose -- the start of the serving loop, or zero in a test.
///
/// Only differences between readings mean anything; the origin does
/// not. A deadline is a reading, and it has passed when the current
/// reading is at or past it.
#[derive(Clone, Copy, Debug, PartialEq, Eq, Hash, Structural)]
pub struct MonotonicMillis(u64);

/// The largest reading.
pub open spec fn last_reading() -> int {
    u64::MAX as int
}

impl View for MonotonicMillis {
    type V = int;

    closed spec fn view(&self) -> int {
        self.0 as int
    }
}

impl Dup for MonotonicMillis {
    fn dup(&self) -> (r: Self) {
        *self
    }
}

/// The reading `millis` after `reading`: a deadline past the end of time
/// never passes.
pub open spec fn later(reading: int, millis: int) -> int {
    if reading + millis > last_reading() {
        last_reading()
    } else {
        reading + millis
    }
}

impl MonotonicMillis {
    /// A reading of `millis` since the origin.
    pub fn new(millis: u64) -> (r: Self)
        ensures
            r@ == millis as int,
    {
        MonotonicMillis(millis)
    }

    /// The reading, in milliseconds since the origin.
    pub fn get(self) -> (r: u64)
        ensures
            r as int == self@,
    {
        self.0
    }

    /// The reading `millis` later, saturating rather than wrapping: a
    /// deadline past the end of time never passes, which is the right
    /// failure.
    pub fn plus(self, millis: u64) -> (r: Self)
        ensures
            r@ == later(self@, millis as int),
    {
        if self.0 > u64::MAX - millis {
            MonotonicMillis(u64::MAX)
        } else {
            MonotonicMillis(self.0 + millis)
        }
    }

    /// Whether this reading is at or past `deadline`.
    pub fn reached(self, deadline: MonotonicMillis) -> (r: bool)
        ensures
            r == (self@ >= deadline@),
    {
        self.0 >= deadline.0
    }
}

} // verus!
