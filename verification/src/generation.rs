//! Per-slot generation counters and the handles built from them.
//!
//! A slot's generation is even exactly when the slot is dead (free or never
//! allocated) and odd exactly when it is live; advancing the counter by one
//! flips the liveness parity. A `GenerationalIndex` is valid only while its
//! generation equals the slot's current stored generation, which detects use
//! of a stale handle after the slot has been recycled.

use vstd::prelude::*;

verus! {

/// 64-bit counter attached to every arena slot; its parity encodes liveness.
#[derive(Clone, Copy, Debug, PartialEq, Eq, Structural)]
pub struct Generation(pub u64);

impl Generation {
    pub open spec fn value(self) -> u64 {
        self.0
    }

    /// Even exactly when the slot this generation belongs to is dead.
    pub open spec fn spec_is_dead(self) -> bool {
        self.0 % 2 == 0
    }

    pub fn new(value: u64) -> (r: Generation)
        ensures
            r.value() == value,
    {
        Generation(value)
    }

    /// The generation of a slot that was never allocated.
    pub fn zero() -> (r: Generation)
        ensures
            r.value() == 0,
            r.spec_is_dead(),
    {
        Generation(0)
    }

    pub fn get(&self) -> (r: u64)
        ensures
            r == self.value(),
    {
        self.0
    }

    pub fn is_dead(&self) -> (r: bool)
        ensures
            r == self.spec_is_dead(),
    {
        self.0 % 2 == 0
    }

    /// The successor generation, with the opposite liveness parity.
    pub fn next(self) -> (r: Generation)
        requires
            self.value() < u64::MAX,
        ensures
            r.value() == self.value() + 1,
            r.spec_is_dead() == !self.spec_is_dead(),
    {
        Generation(self.0 + 1)
    }

    /// Advances the counter by one, flipping the liveness parity.
    pub fn advance(&mut self)
        requires
            old(self).value() < u64::MAX,
        ensures
            final(self).value() == old(self).value() + 1,
            final(self).spec_is_dead() == !old(self).spec_is_dead(),
    {
        self.0 = self.0 + 1;
    }
}

/// A `{generation, index}` pair identifying one logical row of a table.
#[derive(Clone, Copy, Debug, PartialEq, Eq, Structural)]
pub struct GenerationalIndex {
    pub generation: Generation,
    pub index: usize,
}

impl GenerationalIndex {
    pub fn is_dead(&self) -> (r: bool)
        ensures
            r == self.generation.spec_is_dead(),
    {
        self.generation.is_dead()
    }
}

} // verus!
