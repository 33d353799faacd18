//! The checkpoint counter: the journal's time axis.

use vstd::prelude::*;

verus! {

/// Monotonically increasing 64-bit counter identifying a checkpoint.
#[derive(Clone, Copy, Debug, PartialEq, Eq, Structural)]
pub struct Tick(pub u64);

impl Tick {
    pub open spec fn value(self) -> u64 {
        self.0
    }

    pub fn new(value: u64) -> (r: Tick)
        ensures
            r.value() == value,
    {
        Tick(value)
    }

    pub fn zero() -> (r: Tick)
        ensures
            r.value() == 0,
    {
        Tick(0)
    }

    pub fn get(&self) -> (r: u64)
        ensures
            r == self.value(),
    {
        self.0
    }

    /// Advances the counter and returns the new value.
    pub fn next(&mut self) -> (r: Tick)
        requires
            old(self).value() < u64::MAX,
        ensures
            final(self).value() == old(self).value() + 1,
            r == *final(self),
    {
        self.0 = self.0 + 1;
        *self
    }

    /// Advances the counter in place.
    pub fn inc(&mut self)
        requires
            old(self).value() < u64::MAX,
        ensures
            final(self).value() == old(self).value() + 1,
    {
        self.0 = self.0 + 1;
    }
}

} // verus!
