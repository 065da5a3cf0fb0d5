//! The readiness signal: a boolean latch that starts false and, once set,
//! stays true.

use vstd::prelude::*;

verus! {

/// A latched boolean. Its view is the value an observer would read.
#[derive(Clone, Copy, Debug)]
pub struct ReadySignal {
    value: bool,
}

impl View for ReadySignal {
    type V = bool;

    closed spec fn view(&self) -> bool {
        self.value
    }
}

impl DeepView for ReadySignal {
    type V = bool;

    open spec fn deep_view(&self) -> bool {
        self@
    }
}

impl ReadySignal {
    /// The signal after `set_true`, whatever it held before.
    pub open spec fn after_set(latch: bool) -> bool {
        true
    }

    /// A fresh signal, not yet ready.
    pub fn new() -> (signal: ReadySignal)
        ensures
            signal@ == false,
    {
        ReadySignal { value: false }
    }

    /// Latches the signal. Returns whether this call changed it.
    pub fn set_true(&mut self) -> (changed: bool)
        ensures
            final(self)@ == Self::after_set(old(self)@),
            changed == !old(self)@,
    {
        let changed = !self.value;
        self.value = true;
        changed
    }

    /// Whether an observer waiting for the signal may proceed.
    pub fn is_ready(&self) -> (ready: bool)
        ensures
            ready == self@,
    {
        self.value
    }
}

/// Setting the signal twice leaves it as setting it once does.
pub proof fn lemma_set_true_idempotent(latch: bool)
    ensures
        ReadySignal::after_set(ReadySignal::after_set(latch)) == ReadySignal::after_set(latch),
        ReadySignal::after_set(latch) == true,
{
}

} // verus!
