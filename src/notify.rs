use vstd::prelude::*;

verus! {

/// State after a signal: a wake is pending, however many were pending before.
pub open spec fn signalled(pending: bool) -> bool {
    true
}

/// What a consumer about to wait sees, and the state it leaves: it goes on at
/// once when a wake was pending, and the pending wake is used up.
pub open spec fn taken(pending: bool) -> (bool, bool) {
    (pending, false)
}

/// State after `n` signals in a row.
pub open spec fn after_signals(pending: bool, n: nat) -> bool
    decreases n,
{
    if n == 0 {
        pending
    } else {
        signalled(after_signals(pending, (n - 1) as nat))
    }
}

/// The decision state of a coalescing wake signal: signals sent while the
/// consumer is busy collapse into one pending wake.
pub struct WakeSignal {
    pending: bool,
}

impl View for WakeSignal {
    type V = bool;

    closed spec fn view(&self) -> bool {
        self.pending
    }
}

impl WakeSignal {
    pub fn new() -> (r: WakeSignal)
        ensures
            r@ == false,
    {
        WakeSignal { pending: false }
    }

    /// Records a signal.
    pub fn signal(&mut self)
        ensures
            final(self)@ == signalled(old(self)@),
    {
        self.pending = true;
    }

    /// Called by the consumer before it waits: whether it must go on at once.
    pub fn take(&mut self) -> (r: bool)
        ensures
            (r, final(self)@) == taken(old(self)@),
    {
        let r = self.pending;
        self.pending = false;
        r
    }

    pub fn is_pending(&self) -> (r: bool)
        ensures
            r == self@,
    {
        self.pending
    }
}

/// However many signals (one or more) arrive while the consumer is busy, and
/// whatever was pending before, the consumer then goes on exactly once and
/// waits the time after.
pub proof fn lemma_burst_coalesces(pending: bool, n: nat)
    requires
        n >= 1,
    ensures
        taken(after_signals(pending, n)).0,
        !taken(taken(after_signals(pending, n)).1).0,
{
}

} // verus!
