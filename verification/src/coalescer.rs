//! The change coalescer: a single-slot signal that collapses bursts of
//! change notifications into at most one pending refresh, and drives a
//! sequential worker — at most one reconciliation pass runs at a time.

use vstd::prelude::*;

verus! {

/// The single-slot signal and the worker's activity, as one state.
/// Writers overwrite the slot without blocking; the sole reader drains
/// one notification at a time and runs the refresh pipeline to completion
/// before accepting the next.
#[derive(Clone, Copy, Debug, PartialEq, Eq, Structural)]
pub struct Coalescer {
    /// A change notification is waiting. Signals are never counted or
    /// queued: only "is there pending work" is tracked.
    pub dirty: bool,
    /// The worker is inside a refresh pass.
    pub in_flight: bool,
}

/// What one change signal does to the state: the slot is overwritten.
pub open spec fn spec_signal(c: Coalescer) -> Coalescer {
    Coalescer { dirty: true, in_flight: c.in_flight }
}

/// The state after `n` further signals.
pub open spec fn spec_after_signals(c: Coalescer, n: nat) -> Coalescer
    decreases n,
{
    if n == 0 {
        c
    } else {
        spec_signal(spec_after_signals(c, (n - 1) as nat))
    }
}

/// Single-flight coalescing: however many signals fire — in particular
/// while a refresh is in flight — they leave the same state as a single
/// one, so the worker picks up at most one further refresh pass, not one
/// per signal.
pub proof fn lemma_signals_coalesce(c: Coalescer, n: nat)
    requires
        n >= 1,
    ensures
        spec_after_signals(c, n) == spec_after_signals(c, 1),
    decreases n,
{
    if n > 1 {
        lemma_signals_coalesce(c, (n - 1) as nat);
    }
}

impl Coalescer {
    /// On construction one synthetic signal is already in the slot, to
    /// force an initial refresh.
    pub fn new() -> (c: Coalescer)
        ensures
            c.dirty,
            !c.in_flight,
    {
        Coalescer { dirty: true, in_flight: false }
    }

    /// A writer fires a change signal: the slot is overwritten, the writer
    /// never blocks, and firing again changes nothing further.
    pub fn signal(&mut self)
        ensures
            *final(self) == spec_signal(*old(self)),
    {
        self.dirty = true;
    }

    /// The reader takes the pending work, if any. The slot is drained
    /// before the pass runs: a signal arriving during the pass is kept for
    /// the next pickup. Only one pass can be in flight.
    pub fn try_begin(&mut self) -> (started: bool)
        requires
            !old(self).in_flight,
        ensures
            started == old(self).dirty,
            !final(self).dirty,
            final(self).in_flight == started,
    {
        if self.dirty {
            self.dirty = false;
            self.in_flight = true;
            true
        } else {
            false
        }
    }

    /// The pass finished; the reader is ready for the next pickup.
    pub fn end_pass(&mut self)
        requires
            old(self).in_flight,
        ensures
            !final(self).in_flight,
            final(self).dirty == old(self).dirty,
    {
        self.in_flight = false;
    }
}

} // verus!
