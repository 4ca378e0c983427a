//! Observation counters. No invariant is stated over them.

use vstd::prelude::*;

verus! {

/// A monotone observation counter that wraps at its width.
#[derive(Debug)]
pub struct DiagnosticCounter(u64);

impl DiagnosticCounter {
    pub closed spec fn view(&self) -> u64 {
        self.0
    }

    pub fn new() -> (counter: Self)
        ensures
            counter@ == 0,
    {
        DiagnosticCounter(0)
    }

    pub fn increment(&mut self)
        ensures
            final(self)@ == old(self)@.wrapping_add(1),
    {
        self.0 = self.0.wrapping_add(1);
    }

    pub fn get(&self) -> (count: u64)
        ensures
            count == self@,
    {
        self.0
    }
}

impl Default for DiagnosticCounter {
    fn default() -> (counter: Self)
        ensures
            counter@ == 0,
    {
        Self::new()
    }
}

/// A last-write-wins observation slot.
#[derive(Debug)]
pub struct DiagnosticSlot(u32);

impl DiagnosticSlot {
    pub closed spec fn view(&self) -> u32 {
        self.0
    }

    pub fn new() -> (slot: Self)
        ensures
            slot@ == 0,
    {
        DiagnosticSlot(0)
    }

    pub fn set(&mut self, value: u32)
        ensures
            final(self)@ == value,
    {
        self.0 = value;
    }

    pub fn get(&self) -> (value: u32)
        ensures
            value == self@,
    {
        self.0
    }
}

} // verus!
