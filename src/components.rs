//! Board-level construction of a priority round-robin scheduler.
use vstd::prelude::*;
use crate::scheduler::ProcessState;
use crate::scheduler::priority_round_robin::{
    PriorityRoundRobinSched, in_ready, view_wf, DEFAULT_TIMESLICE_US,
};
use crate::collections::bounded::MAX_PROCESSES;

verus! {

/// Builds a priority round-robin scheduler with one node per process slot.
pub struct PriorityRoundRobinComponent {
    num_processes: usize,
}

impl PriorityRoundRobinComponent {
    /// A component for the given process table.
    pub fn new(processes: &[Option<ProcessState>]) -> (r: PriorityRoundRobinComponent)
        ensures
            r.num_processes() == processes@.len(),
    {
        PriorityRoundRobinComponent { num_processes: processes.len() }
    }

    /// How many process slots the scheduler is built for.
    pub closed spec fn num_processes(&self) -> nat {
        self.num_processes as nat
    }

    /// The scheduler: node `i` stands for slot `i` and starts with priority
    /// `i`; every node is ready, slot `0` at the head; nobody was rescheduled.
    pub fn finalize(self) -> (r: PriorityRoundRobinSched)
        requires
            self.num_processes() <= MAX_PROCESSES,
        ensures
            r.wf(),
            r@.priorities.len() == self.num_processes(),
            forall|i: int| 0 <= i < r@.priorities.len() ==> #[trigger] r@.priorities[i] == i,
            forall|i: usize| i < r@.priorities.len() ==> #[trigger] in_ready(r@, i),
            r@.done.len() == 0,
            r@.time_remaining == DEFAULT_TIMESLICE_US,
            !r@.last_rescheduled,
    {
        let mut scheduler = PriorityRoundRobinSched::new();
        let mut i: usize = 0;
        while i < self.num_processes
            invariant
                scheduler.wf(),
                self.num_processes <= MAX_PROCESSES,
                i <= self.num_processes,
                scheduler@.priorities.len() == i,
                forall|j: int| 0 <= j < i ==> #[trigger] scheduler@.priorities[j] == j,
                scheduler@.done.len() == 0,
                scheduler@.time_remaining == DEFAULT_TIMESLICE_US,
                !scheduler@.last_rescheduled,
            decreases self.num_processes - i,
        {
            let added = scheduler.add_node(i as u32);
            i = i + 1;
        }
        proof {
            let v = scheduler@;
            assert forall|j: usize| j < v.priorities.len() implies #[trigger] in_ready(v, j) by {
                assert(view_wf(v));
                assert(!v.done.contains(j));
            }
        }
        scheduler
    }
}

} // verus!
