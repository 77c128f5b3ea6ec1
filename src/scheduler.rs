//! The decision-point contract between the kernel and a scheduler: what the
//! scheduler reads of each process slot, the decisions it hands back, and the
//! reasons for which a process stopped running.
use vstd::prelude::*;

pub mod priority;
pub mod priority_round_robin;

verus! {

/// Identifies a process; `index` is its position in the process table.
#[derive(Clone, Copy, PartialEq, Eq, Structural, Debug)]
pub struct ProcessId {
    pub index: usize,
    pub identifier: usize,
}

/// What a scheduler reads of an occupied process slot at a decision point.
#[derive(Clone, Copy, Debug)]
pub struct ProcessState {
    pub id: ProcessId,
    /// The process can make progress if given the CPU.
    pub ready: bool,
    /// The timeslice the process asks for, in microseconds, if any.
    pub timeslice: Option<u32>,
}

/// What the kernel should do next.
#[derive(Clone, Copy, PartialEq, Eq, Debug)]
pub enum SchedulingDecision {
    /// Run the process, for at most the timeslice when one is given.
    RunProcess((ProcessId, Option<u32>)),
    /// Nothing can run: sleep until an interrupt.
    TrySleep,
}

/// Why a process stopped running.
#[derive(Clone, Copy, PartialEq, Eq, Structural, Debug)]
pub enum StoppedExecutingReason {
    /// The process yielded with nothing left to do.
    NoWorkLeft,
    /// The process faulted.
    StoppedFaulted,
    /// The kernel stopped the process.
    Stopped,
    /// The kernel preempted the process, for instance at the end of its timeslice.
    KernelPreemption,
}

/// The slot holds a process that is ready to run.
pub open spec fn slot_ready(s: Option<ProcessState>) -> bool {
    s matches Some(p) && p.ready
}

/// Some slot holds a process that is ready to run.
pub open spec fn any_ready(slots: Seq<Option<ProcessState>>) -> bool {
    exists|i: int| 0 <= i < slots.len() && #[trigger] slot_ready(slots[i])
}

/// The lowest slot index that holds a ready process, if any.
pub open spec fn first_ready(slots: Seq<Option<ProcessState>>) -> Option<int> {
    if any_ready(slots) {
        Some(choose|i: int| 0 <= i < slots.len() && slot_ready(slots[i])
            && forall|j: int| 0 <= j < i ==> !#[trigger] slot_ready(slots[j]))
    } else {
        None
    }
}

} // verus!
