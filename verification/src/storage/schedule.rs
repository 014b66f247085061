//! When the archival task runs a checkpoint sweep: a pure block counter.
//!
//! The schedule holds no reference to a store; it only says, once per block,
//! whether `interval` blocks have passed since the last checkpoint.
use vstd::prelude::*;

verus! {

/// A sweep interval measured in blocks (per-block commits), not wall-clock time.
pub struct ArchivalSchedule {
    interval: u64,
    since_last_checkpoint: u64,
}

/// Whether a schedule with `interval` is due after `since` blocks.
pub open spec fn due_after(interval: u64, since: nat) -> bool {
    since >= interval
}

impl ArchivalSchedule {
    /// The interval in blocks; at least one.
    pub closed spec fn interval(&self) -> u64 {
        self.interval
    }

    /// Blocks recorded since the last checkpoint.
    pub closed spec fn since(&self) -> u64 {
        self.since_last_checkpoint
    }

    /// A valid schedule has an interval of at least one block.
    pub open spec fn wf(&self) -> bool {
        self.interval() >= 1
    }

    /// `interval` is clamped to at least 1: a zero interval would make every
    /// block due, which is never a checkpoint cadence anyone wants.
    pub fn new(interval: u64) -> (s: Self)
        ensures
            s.interval() == if interval == 0 {
                1
            } else {
                interval
            },
            s.since() == 0,
            s.wf(),
    {
        let interval = if interval == 0 {
            1
        } else {
            interval
        };
        ArchivalSchedule { interval, since_last_checkpoint: 0 }
    }

    /// Call once per block commit, before checking `due()`.
    pub fn record_block(&mut self)
        requires
            old(self).since() < u64::MAX,
        ensures
            final(self).interval() == old(self).interval(),
            final(self).since() == old(self).since() + 1,
            old(self).wf() ==> final(self).wf(),
    {
        self.since_last_checkpoint = self.since_last_checkpoint + 1;
    }

    /// True once `interval` blocks have passed since the last checkpoint.
    pub fn due(&self) -> (r: bool)
        ensures
            r == due_after(self.interval(), self.since() as nat),
    {
        self.since_last_checkpoint >= self.interval
    }

    /// Call after a sweep sealed its batch. Resets the counter whether or not
    /// the schedule was due: an eager checkpoint restarts the interval.
    pub fn checkpoint_ran(&mut self)
        ensures
            final(self).interval() == old(self).interval(),
            final(self).since() == 0,
            old(self).wf() ==> final(self).wf(),
    {
        self.since_last_checkpoint = 0;
    }
}

/// A fresh schedule, and one just checkpointed, is not due: the interval is
/// at least one block.
pub proof fn law_reset_is_not_due(s: &ArchivalSchedule)
    requires
        s.wf(),
        s.since() == 0,
    ensures
        !due_after(s.interval(), s.since() as nat),
{
}

/// After a checkpoint, the schedule becomes due exactly when `interval`
/// blocks have been recorded, and stays due until the next checkpoint.
pub proof fn law_due_exactly_after_interval(s: &ArchivalSchedule, blocks: nat)
    requires
        s.since() == 0,
    ensures
        due_after(s.interval(), (s.since() + blocks) as nat) <==> blocks >= s.interval(),
        blocks >= s.interval() ==> due_after(s.interval(), (s.since() + blocks + 1) as nat),
{
}

} // verus!
