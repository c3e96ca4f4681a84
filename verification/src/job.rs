//! The step counter of the simulation driver. A run performs its steps one
//! by one; between two steps the caller integrates the equations of motion,
//! updates the observed properties and writes the checkpoint. The counter
//! decides after each step whether another follows.

use vstd::prelude::*;

verus! {

/// What the driver does next.
#[derive(Debug, Clone, Copy, PartialEq, Eq, Structural)]
pub enum Action {
    /// Perform the step with this number, then report back.
    Step(usize),
    /// The run is over; the value counts the steps made beyond the
    /// target, which a run never passes.
    Finish(usize),
}

/// Counter of completed steps, with the target of the run under way.
#[derive(Debug, Clone, Copy)]
pub struct Job {
    step_count: usize,
    step_limit: usize,
    more_cycles: bool,
}

impl Job {
    /// Steps completed so far.
    pub closed spec fn count(&self) -> nat {
        self.step_count as nat
    }

    /// Step count at which the run under way ends.
    pub closed spec fn limit(&self) -> nat {
        self.step_limit as nat
    }

    /// Whether a run is under way.
    pub closed spec fn running(&self) -> bool {
        self.more_cycles
    }

    /// The count never passes the target, and a counter at rest has
    /// reached the target of its last run.
    pub closed spec fn wf(&self) -> bool {
        &&& self.step_count <= self.step_limit
        &&& !self.more_cycles ==> self.step_count == self.step_limit
    }

    /// A counter on which no step was made.
    pub fn new() -> (job: Self)
        ensures
            job.wf(),
            job.count() == 0,
            job.limit() == 0,
            !job.running(),
    {
        Job { step_count: 0, step_limit: 0, more_cycles: false }
    }

    /// Steps completed so far.
    pub fn step_count(&self) -> (count: usize)
        ensures
            count == self.count(),
    {
        self.step_count
    }

    /// Whether a run is under way.
    pub fn more_cycles(&self) -> (more: bool)
        ensures
            more == self.running(),
    {
        self.more_cycles
    }

    /// Begins a run of `steps` steps: sets the target and opens the first
    /// step. A run of no steps is over at once and makes none.
    pub fn start(&mut self, steps: usize) -> (action: Action)
        requires
            old(self).count() + steps <= usize::MAX,
        ensures
            final(self).wf(),
            final(self).limit() == old(self).count() + steps,
            steps > 0 ==> final(self).running() && final(self).count() == old(self).count() + 1
                && action == Action::Step((old(self).count() + 1) as usize),
            steps == 0 ==> !final(self).running() && final(self).count() == old(self).count()
                && action == Action::Finish(0),
    {
        self.step_limit = self.step_count + steps;
        if steps > 0 {
            self.more_cycles = true;
            self.step_count = self.step_count + 1;
            Action::Step(self.step_count)
        } else {
            self.more_cycles = false;
            Action::Finish(0)
        }
    }

    /// Closes the step under way. Where the target is reached the run ends;
    /// else the next step opens. On a counter at rest nothing changes.
    pub fn step_done(&mut self) -> (action: Action)
        requires
            old(self).wf(),
        ensures
            final(self).wf(),
            final(self).limit() == old(self).limit(),
            old(self).running() && old(self).count() < old(self).limit() ==> {
                &&& final(self).running()
                &&& final(self).count() == old(self).count() + 1
                &&& action == Action::Step(final(self).count() as usize)
            },
            !old(self).running() || old(self).count() >= old(self).limit() ==> {
                &&& !final(self).running()
                &&& final(self).count() == old(self).count()
                &&& action == Action::Finish(0)
            },
    {
        if self.more_cycles && self.step_count < self.step_limit {
            self.step_count = self.step_count + 1;
            Action::Step(self.step_count)
        } else {
            self.more_cycles = false;
            Action::Finish(self.step_count - self.step_limit)
        }
    }

    /// Counts a whole run of `steps` steps, no more and no fewer, and
    /// returns by how many steps it went beyond its target: by none.
    pub fn run(&mut self, steps: usize) -> (overrun: usize)
        requires
            old(self).count() + steps <= usize::MAX,
        ensures
            final(self).wf(),
            !final(self).running(),
            final(self).count() == old(self).count() + steps,
            final(self).limit() == old(self).count() + steps,
            overrun == 0,
    {
        let mut action: Action = self.start(steps);
        loop
            invariant
                self.wf(),
                self.limit() == old(self).count() + steps,
                match action {
                    Action::Step(_) => self.running(),
                    Action::Finish(over) => !self.running() && over == 0,
                },
            decreases self.limit() - self.count() + (if self.running() { 1nat } else { 0nat }),
        {
            match action {
                Action::Step(_) => {
                    action = self.step_done();
                },
                Action::Finish(over) => {
                    return over;
                },
            }
        }
    }
}

impl Default for Job {
    /// A counter on which no step was made.
    fn default() -> (job: Self)
        ensures
            job.wf(),
            job.count() == 0,
            job.limit() == 0,
            !job.running(),
    {
        Job::new()
    }
}

} // verus!
