//! Fixed-priority scheduling: a process's priority is its place in the
//! process table, and the first ready process always runs. Kernel work
//! (pending interrupts, deferred calls) comes before any process, so a
//! process runs without a timeslice until something of higher priority is
//! ready.
use vstd::prelude::*;
use crate::scheduler::{
    ProcessId, ProcessState, SchedulingDecision, StoppedExecutingReason, slot_ready, any_ready,
    first_ready,
};

verus! {

/// Fixed-priority scheduler ordered by process-table index.
pub struct PrioritySched {
    running: Option<ProcessId>,
}

impl View for PrioritySched {
    type V = Option<ProcessId>;

    /// The process last chosen to run, until its result is in.
    closed spec fn view(&self) -> Option<ProcessId> {
        self.running
    }
}

/// The first ready process stands before the running one in the table.
pub open spec fn higher_ready(slots: Seq<Option<ProcessState>>, running: Option<ProcessId>) -> bool {
    match (first_ready(slots), running) {
        (Some(i), Some(r)) => slots[i].unwrap().id.index < r.index,
        _ => false,
    }
}

/// `i` is the lowest slot index holding a ready process.
proof fn lemma_first_ready(slots: Seq<Option<ProcessState>>, i: int)
    requires
        0 <= i < slots.len(),
        slot_ready(slots[i]),
        forall|j: int| 0 <= j < i ==> !#[trigger] slot_ready(slots[j]),
    ensures
        first_ready(slots) == Some(i),
{
    assert(any_ready(slots));
    let c = choose|c: int| 0 <= c < slots.len() && slot_ready(slots[c])
        && forall|j: int| 0 <= j < c ==> !#[trigger] slot_ready(slots[j]);
    if c < i {
        assert(!slot_ready(slots[c]));
    }
    if i < c {
        assert(!slot_ready(slots[i]));
    }
}

impl PrioritySched {
    pub fn new() -> (r: PrioritySched)
        ensures
            r@ is None,
    {
        PrioritySched { running: None }
    }

    /// The lowest slot index that holds a ready process, if any.
    fn find_first_ready(slots: &[Option<ProcessState>]) -> (r: Option<usize>)
        ensures
            r matches Some(i) ==> i < slots@.len() && slot_ready(slots@[i as int])
                && first_ready(slots@) == Some(i as int),
            r is None ==> !any_ready(slots@) && first_ready(slots@) is None,
    {
        let mut i: usize = 0;
        while i < slots.len()
            invariant
                i <= slots@.len(),
                forall|j: int| 0 <= j < i ==> !#[trigger] slot_ready(slots@[j]),
            decreases slots@.len() - i,
        {
            let ready = match slots[i] {
                Some(p) => p.ready,
                None => false,
            };
            if ready {
                proof {
                    lemma_first_ready(slots@, i as int);
                }
                return Some(i);
            }
            i = i + 1;
        }
        proof {
            if any_ready(slots@) {
                let k = choose|k: int| 0 <= k < slots@.len() && #[trigger] slot_ready(slots@[k]);
                assert(!slot_ready(slots@[k]));
            }
        }
        None
    }

    /// Runs the first ready process in table order, with no timeslice; tells
    /// the kernel to sleep when all processes are blocked.
    pub fn next(&mut self, processes_blocked: bool, slots: &[Option<ProcessState>]) -> (r: SchedulingDecision)
        requires
            !processes_blocked ==> any_ready(slots@),
        ensures
            processes_blocked ==> r == SchedulingDecision::TrySleep && final(self)@ == old(self)@,
            !processes_blocked ==> {
                let id = slots@[first_ready(slots@).unwrap()].unwrap().id;
                &&& first_ready(slots@) is Some
                &&& r == SchedulingDecision::RunProcess((id, None))
                &&& final(self)@ == Some(id)
            },
    {
        if processes_blocked {
            SchedulingDecision::TrySleep
        } else {
            let found = Self::find_first_ready(slots);
            let i = found.unwrap();
            let id = slots[i].unwrap().id;
            self.running = Some(id);
            SchedulingDecision::RunProcess((id, None))
        }
    }

    /// Whether the running process may go on: not when an interrupt or a
    /// deferred call is pending, nor when a process earlier in the table has
    /// become ready.
    pub fn continue_process(
        &self,
        _id: ProcessId,
        slots: &[Option<ProcessState>],
        has_pending_interrupts: bool,
        calls_pending: Option<bool>,
    ) -> (r: bool)
        ensures
            r == !(has_pending_interrupts || calls_pending == Some(true) || higher_ready(slots@, self@)),
    {
        let calls = match calls_pending {
            Some(c) => c,
            None => false,
        };
        let higher_process = match Self::find_first_ready(slots) {
            Some(i) => match self.running {
                Some(running) => slots[i].unwrap().id.index < running.index,
                None => false,
            },
            None => false,
        };
        !(has_pending_interrupts || calls || higher_process)
    }

    /// Forgets the running process.
    pub fn result(&mut self, _reason: StoppedExecutingReason, _execution_time_us: Option<u32>)
        ensures
            final(self)@ is None,
    {
        self.running = None;
    }
}

} // verus!
