//! A provider attempt that moves from proposal through authorization to
//! dispatch.

use vstd::prelude::*;

verus! {

#[derive(Clone, Copy, Debug, PartialEq, Eq, Structural)]
pub enum Phase {
    Proposed,
    Authorized,
    Dispatched,
}

#[derive(Clone, Copy, Debug, PartialEq, Eq, Structural)]
pub struct ProviderAttempt {
    pub phase: Phase,
    pub armed: bool,
    pub dispatched: bool,
}

impl ProviderAttempt {
    /// Dispatches an attempt that is both authorized and armed; any other
    /// attempt is left as it is.
    pub fn dispatch(&mut self) -> (r: bool)
        ensures
            r == (old(self).phase == Phase::Authorized && old(self).armed),
            r ==> *final(self) == (ProviderAttempt { phase: Phase::Dispatched, armed: old(self).armed, dispatched: true }),
            !r ==> *final(self) == *old(self),
    {
        if self.phase != Phase::Authorized || !self.armed {
            return false;
        }
        self.dispatched = true;
        self.phase = Phase::Dispatched;
        true
    }
}

} // verus!
