//! When the workers of a concurrent walk may stop: once all of them are idle
//! at the same time, no directory is left and none can come.

use vstd::prelude::*;

verus! {

/// Whether every flag is set.
pub open spec fn all_set(flags: Seq<bool>) -> bool {
    forall|i: int| 0 <= i < flags.len() ==> #[trigger] flags[i]
}

/// One flag for each worker, set while the worker finds nothing to do.
pub struct StopFlags {
    flags: Vec<bool>,
}

impl View for StopFlags {
    type V = Seq<bool>;

    closed spec fn view(&self) -> Seq<bool> {
        self.flags@
    }
}

impl StopFlags {
    /// Flags for `workers` workers, none of them idle.
    pub fn new(workers: usize) -> (s: Self)
        ensures
            s@.len() == workers,
            forall|i: int| 0 <= i < workers ==> !(#[trigger] s@[i]),
    {
        let mut flags: Vec<bool> = Vec::new();
        let mut i: usize = 0;
        while i < workers
            invariant
                i <= workers,
                flags.len() == i,
                forall|j: int| 0 <= j < i ==> !(#[trigger] flags[j]),
            decreases workers - i,
        {
            flags.push(false);
            i += 1;
        }
        StopFlags { flags }
    }

    /// How many workers there are.
    pub fn len(&self) -> (n: usize)
        ensures
            n == self@.len(),
    {
        self.flags.len()
    }

    /// Whether every worker is idle.
    pub fn all_idle(&self) -> (r: bool)
        ensures
            r == all_set(self@),
    {
        let mut i: usize = 0;
        while i < self.flags.len()
            invariant
                i <= self.flags.len(),
                forall|j: int| 0 <= j < i ==> #[trigger] self.flags[j],
            decreases self.flags.len() - i,
        {
            if !self.flags[i] {
                return false;
            }
            i += 1;
        }
        true
    }

    /// Notes that `worker` has found nothing to do, and says whether every
    /// worker is idle now: then, and only then, the worker may stop.
    pub fn mark_idle(&mut self, worker: usize) -> (stop: bool)
        requires
            worker < old(self)@.len(),
        ensures
            final(self)@ == old(self)@.update(worker as int, true),
            stop == all_set(final(self)@),
    {
        self.flags.set(worker, true);
        self.all_idle()
    }

    /// Notes that `worker` has taken a directory.
    pub fn mark_busy(&mut self, worker: usize)
        requires
            worker < old(self)@.len(),
        ensures
            final(self)@ == old(self)@.update(worker as int, false),
    {
        self.flags.set(worker, false);
    }
}

/// While one worker is busy no worker is told to stop.
pub proof fn lemma_busy_keeps_going(flags: Seq<bool>, busy: int, idle: int)
    requires
        0 <= busy < flags.len(),
        0 <= idle < flags.len(),
        busy != idle,
        !flags[busy],
    ensures
        !all_set(flags.update(idle, true)),
{
    assert(!flags.update(idle, true)[busy]);
}

} // verus!
