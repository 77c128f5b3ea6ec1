//! Priority round-robin scheduling.
//!
//! Every process slot has a node with a priority; lower is more favoured. The
//! ready set orders nodes by priority, first pushed first among equals; the
//! done set holds the nodes that have had their turn in the current round.
//! When the ready set runs empty, the done nodes move back into it, sorted by
//! the priorities they earned: a process's index times the CPU time it used.
use vstd::prelude::*;
use vstd::multiset::Multiset;
use heapless::binary_heap::{BinaryHeap, Min};
use crate::collections::bounded::{
    heap_entries, vec_items, entry_le, is_least, heap_new, heap_push, heap_peek, heap_pop,
    vec_new, vec_push, vec_pop, ReadyEntry, MAX_PROCESSES,
};
use crate::collections::list::ListNode;
use crate::scheduler::{
    ProcessState, SchedulingDecision, StoppedExecutingReason, slot_ready, any_ready,
};

verus! {

broadcast use vstd::multiset::group_multiset_axioms, vstd::multiset::group_multiset_properties;

/// How long a process runs before it is preempted, unless it asks otherwise.
pub const DEFAULT_TIMESLICE_US: u32 = 10000;

/// The node of one process slot and the priority it has earned.
#[derive(Clone, Copy, Debug)]
pub struct PRRProcessNode {
    /// The index of the process slot this node stands for.
    pub slot: usize,
    /// Lower is more favoured.
    pub priority: u32,
}

impl PRRProcessNode {
    pub fn new(slot: usize, priority: u32) -> (r: PRRProcessNode)
        ensures
            r.slot == slot,
            r.priority == priority,
    {
        PRRProcessNode { slot, priority }
    }

    pub fn priority(&self) -> (r: u32)
        ensures
            r == self.priority,
    {
        self.priority
    }

    pub fn set_priority(&mut self, priority: u32)
        ensures
            final(self).priority == priority,
            final(self).slot == old(self).slot,
    {
        self.priority = priority;
    }
}

/// The order of two priorities.
pub open spec fn priority_order(a: u32, b: u32) -> core::cmp::Ordering {
    if a < b {
        core::cmp::Ordering::Less
    } else if a > b {
        core::cmp::Ordering::Greater
    } else {
        core::cmp::Ordering::Equal
    }
}

/// Nodes are equal when their priorities are.
impl PartialEq for PRRProcessNode {
    fn eq(&self, other: &PRRProcessNode) -> (r: bool) {
        self.priority == other.priority
    }
}

impl vstd::std_specs::cmp::PartialEqSpecImpl for PRRProcessNode {
    open spec fn obeys_eq_spec() -> bool {
        true
    }

    open spec fn eq_spec(&self, other: &PRRProcessNode) -> bool {
        self.priority == other.priority
    }
}

/// Nodes are ordered by priority alone.
impl PartialOrd for PRRProcessNode {
    fn partial_cmp(&self, other: &PRRProcessNode) -> (r: Option<core::cmp::Ordering>) {
        if self.priority < other.priority {
            Some(core::cmp::Ordering::Less)
        } else if self.priority > other.priority {
            Some(core::cmp::Ordering::Greater)
        } else {
            Some(core::cmp::Ordering::Equal)
        }
    }
}

impl vstd::std_specs::cmp::PartialOrdSpecImpl for PRRProcessNode {
    open spec fn obeys_partial_cmp_spec() -> bool {
        true
    }

    open spec fn partial_cmp_spec(&self, other: &PRRProcessNode) -> Option<core::cmp::Ordering> {
        Some(priority_order(self.priority, other.priority))
    }
}

impl ListNode for PRRProcessNode {
    open spec fn prio_spec(&self) -> Option<u32> {
        Some(self.priority)
    }

    fn prio(&self) -> (r: Option<u32>) {
        Some(self.priority)
    }
}

/// The abstract state of a round-robin scheduler.
pub struct PrrView {
    /// Entries `(priority, insertion order, node)` of the ready set.
    pub ready: Multiset<ReadyEntry>,
    /// Nodes that have had their turn this round.
    pub done: Seq<usize>,
    /// The priority of each node; node `i` stands for slot `i`.
    pub priorities: Seq<u32>,
    pub time_remaining: u32,
    pub last_rescheduled: bool,
    /// The insertion order the next pushed entry gets.
    pub next_seq: u32,
}

/// Node `i` has an entry in the ready set.
pub open spec fn in_ready(v: PrrView, i: usize) -> bool {
    exists|e: ReadyEntry| #[trigger] v.ready.contains(e) && e.2 == i
}

/// The entry at the head of the ready set, if any.
pub open spec fn head_of(v: PrrView) -> Option<ReadyEntry> {
    if v.ready.len() > 0 {
        Some(choose|e: ReadyEntry| is_least(e, v.ready))
    } else {
        None
    }
}

/// The priority a node earns for running `elapsed` microseconds from slot
/// `index`: their product, saturated at `u32::MAX`.
pub open spec fn earned_priority(index: usize, elapsed: u32) -> u32 {
    if index * elapsed > u32::MAX {
        u32::MAX
    } else {
        (index * elapsed) as u32
    }
}

/// Every node is in exactly one of the two sets, entries carry their node's
/// priority, and insertion orders are distinct and below `next_seq`.
pub open spec fn core_wf(v: PrrView) -> bool {
    let n = v.priorities.len();
    &&& n <= MAX_PROCESSES
    &&& v.next_seq <= n
    &&& v.ready.len() + v.done.len() == n
    &&& forall|e: ReadyEntry| #[trigger] v.ready.contains(e) ==> {
        &&& e.2 < n
        &&& e.0 == v.priorities[e.2 as int]
        &&& e.1 < v.next_seq
        &&& v.ready.count(e) == 1
    }
    &&& forall|a: ReadyEntry, b: ReadyEntry|
        #[trigger] v.ready.contains(a) && #[trigger] v.ready.contains(b) && (a.2 == b.2 || a.1 == b.1)
            ==> a == b
    &&& forall|k: int| 0 <= k < v.done.len() ==> #[trigger] v.done[k] < n
    &&& forall|k1: int, k2: int|
        0 <= k1 < v.done.len() && 0 <= k2 < v.done.len() && #[trigger] v.done[k1] == #[trigger] v.done[k2]
            ==> k1 == k2
    &&& forall|i: usize| i < n ==> (#[trigger] in_ready(v, i) <==> !v.done.contains(i))
    &&& v.last_rescheduled ==> v.time_remaining > 0
}

/// The state between calls: as `core_wf`, and the ready set is empty only
/// when there are no nodes.
pub open spec fn view_wf(v: PrrView) -> bool {
    &&& core_wf(v)
    &&& v.priorities.len() > 0 ==> v.ready.len() > 0
}

/// A least entry is the only least entry.
pub proof fn lemma_least_unique(a: ReadyEntry, b: ReadyEntry, m: Multiset<ReadyEntry>)
    requires
        is_least(a, m),
        is_least(b, m),
    ensures
        a == b,
{
    assert(entry_le(a, b) && entry_le(b, a));
}

/// A nonempty multiset of entries has a least entry.
pub proof fn lemma_least_exists(m: Multiset<ReadyEntry>)
    requires
        m.len() > 0,
    ensures
        exists|e: ReadyEntry| is_least(e, m),
    decreases m.len(),
{
    let x = m.choose();
    assert(m.count(x) > 0);
    let m2 = m.remove(x);
    if m2.len() == 0 {
        assert forall|o: ReadyEntry| #[trigger] m.contains(o) implies entry_le(x, o) by {
            if o != x {
                assert(m2.count(o) == m.count(o));
                assert(m2.count(o) <= m2.len());
            }
        }
        assert(is_least(x, m));
    } else {
        lemma_least_exists(m2);
        let y = choose|y: ReadyEntry| is_least(y, m2);
        assert(m2.count(y) <= m.count(y));
        if entry_le(x, y) {
            assert forall|o: ReadyEntry| #[trigger] m.contains(o) implies entry_le(x, o) by {
                if o != x {
                    assert(m2.count(o) == m.count(o));
                    assert(m2.contains(o));
                    assert(entry_le(y, o));
                }
            }
            assert(is_least(x, m));
        } else {
            assert forall|o: ReadyEntry| #[trigger] m.contains(o) implies entry_le(y, o) by {
                if o != x {
                    assert(m2.count(o) == m.count(o));
                    assert(m2.contains(o));
                }
            }
            assert(is_least(y, m));
        }
    }
}

/// A nonempty ready set has a head, and the head is its least entry.
pub proof fn lemma_head_least(v: PrrView)
    requires
        v.ready.len() > 0,
    ensures
        head_of(v) is Some,
        is_least(head_of(v).unwrap(), v.ready),
{
    lemma_least_exists(v.ready);
}

/// In a state with a least entry, the head is that entry.
pub proof fn lemma_head_is_least(v: PrrView, e: ReadyEntry)
    requires
        is_least(e, v.ready),
    ensures
        head_of(v) == Some(e),
{
    assert(v.ready.len() > 0);
    let h = choose|x: ReadyEntry| is_least(x, v.ready);
    lemma_least_unique(h, e, v.ready);
}

/// The timeslice a slot's process is granted afresh: the one it asks for,
/// else the default.
pub open spec fn granted_timeslice(s: Option<ProcessState>) -> u32 {
    match s {
        Some(p) => match p.timeslice {
            Some(t) => t,
            None => DEFAULT_TIMESLICE_US,
        },
        None => DEFAULT_TIMESLICE_US,
    }
}

/// The slot does not hold a process that asks for a zero timeslice.
pub open spec fn sane_timeslice(s: Option<ProcessState>) -> bool {
    !(s matches Some(p) && p.timeslice == Some(0u32))
}

/// Some entry of the ready set stands for a slot whose process is ready.
pub open spec fn ready_holds_runnable(v: PrrView, slots: Seq<Option<ProcessState>>) -> bool {
    exists|e: ReadyEntry| #[trigger] v.ready.contains(e) && slot_ready(slots[e.2 as int])
}

/// What `next` does, from state `old` to state `new`, returning `r`.
///
/// When all processes are blocked nothing changes and the kernel is told to
/// sleep. Otherwise the head of the new ready set is the chosen node; it
/// stands for a ready process, which runs for the residual timeslice after a
/// reschedule and for a fresh one otherwise. Nodes of vacant slots that were
/// passed over may have their priority zeroed; no other priority changes.
/// When the ready set held a runnable node, the chosen node is the least of
/// those, and exactly the entries ordered before it left the ready set.
/// Otherwise a round boundary happened and the chosen node has the lowest
/// priority of all ready processes.
pub open spec fn next_post(
    old: PrrView,
    new: PrrView,
    blocked: bool,
    slots: Seq<Option<ProcessState>>,
    r: SchedulingDecision,
) -> bool {
    if blocked {
        r == SchedulingDecision::TrySleep && new == old
    } else {
        let n = old.priorities.len();
        let h = head_of(new).unwrap();
        &&& head_of(new) is Some
        &&& h.2 < n
        &&& slot_ready(slots[h.2 as int])
        &&& r == SchedulingDecision::RunProcess((slots[h.2 as int].unwrap().id, Some(new.time_remaining)))
        &&& new.time_remaining > 0
        &&& new.time_remaining == if old.last_rescheduled {
            old.time_remaining
        } else {
            granted_timeslice(slots[h.2 as int])
        }
        &&& new.last_rescheduled == old.last_rescheduled
        &&& new.priorities.len() == n
        &&& forall|i: int| 0 <= i < n ==> (#[trigger] new.priorities[i] == old.priorities[i]
            || (slots[i] is None && new.priorities[i] == 0))
        &&& if ready_holds_runnable(old, slots) {
            &&& old.ready.contains(h)
            &&& forall|e: ReadyEntry| #[trigger] old.ready.contains(e) && slot_ready(slots[e.2 as int])
                ==> entry_le(h, e)
            &&& forall|e: ReadyEntry| #[trigger] new.ready.count(e)
                == if entry_le(h, e) { old.ready.count(e) } else { 0 }
            &&& forall|e: ReadyEntry| #[trigger] old.ready.contains(e) && !entry_le(h, e) && slots[e.2 as int] is None
                ==> new.priorities[e.2 as int] == 0
        } else {
            forall|i: int| 0 <= i < n && #[trigger] slot_ready(slots[i])
                ==> new.priorities[h.2 as int] <= new.priorities[i]
        }
    }
}

/// A kernel preemption with time left in the timeslice: the same process
/// runs again for the rest of it.
pub open spec fn is_reschedule(v: PrrView, reason: StoppedExecutingReason, elapsed: u32) -> bool {
    reason == StoppedExecutingReason::KernelPreemption && v.time_remaining > elapsed
}

/// What `result` does, from state `old` to state `new`, for a process that
/// stopped for `reason` after running `elapsed` microseconds.
///
/// On a reschedule the rest of the timeslice is kept and the sets are left
/// as they are, the head in place. Otherwise the head node earns the priority
/// `index * elapsed` and moves to the done set; if that empties the ready
/// set, a round boundary moves every node back into it.
pub open spec fn result_post(old: PrrView, new: PrrView, reason: StoppedExecutingReason, elapsed: u32) -> bool {
    let h = head_of(old).unwrap();
    let resched = is_reschedule(old, reason, elapsed);
    &&& new.last_rescheduled == resched
    &&& new.time_remaining == if resched { (old.time_remaining - elapsed) as u32 } else { old.time_remaining }
    &&& new.priorities == if resched {
        old.priorities
    } else {
        old.priorities.update(h.2 as int, earned_priority(h.2, elapsed))
    }
    &&& if resched {
        new.ready == old.ready && new.done == old.done
    } else if old.ready.len() > 1 {
        new.ready == old.ready.remove(h) && new.done == old.done.push(h.2)
    } else {
        new.done.len() == 0
    }
}

/// Priority round-robin scheduler.
pub struct PriorityRoundRobinSched {
    time_remaining: u32,
    processes: BinaryHeap<ReadyEntry, Min, 8>,
    done: heapless::Vec<usize, 8>,
    last_rescheduled: bool,
    nodes: Vec<PRRProcessNode>,
    next_seq: u32,
}

impl View for PriorityRoundRobinSched {
    type V = PrrView;

    closed spec fn view(&self) -> PrrView {
        PrrView {
            ready: heap_entries(self.processes),
            done: vec_items(self.done),
            priorities: self.nodes@.map_values(|n: PRRProcessNode| n.priority),
            time_remaining: self.time_remaining,
            last_rescheduled: self.last_rescheduled,
            next_seq: self.next_seq,
        }
    }
}

impl PriorityRoundRobinSched {
    /// Node `i` stands for slot `i`.
    pub closed spec fn nodes_wf(&self) -> bool {
        forall|i: int| 0 <= i < self.nodes@.len() ==> (#[trigger] self.nodes@[i]).slot == i
    }

    /// The scheduler's invariant.
    pub open spec fn wf(&self) -> bool {
        self.nodes_wf() && view_wf(self@)
    }

    /// Takes the head of the ready set and puts its node in the done set.
    fn retire_head(&mut self) -> (h: ReadyEntry)
        requires
            old(self).nodes_wf(),
            core_wf(old(self)@),
            old(self)@.ready.len() > 0,
        ensures
            final(self).nodes_wf(),
            core_wf(final(self)@),
            is_least(h, old(self)@.ready),
            final(self)@.ready == old(self)@.ready.remove(h),
            final(self)@.done == old(self)@.done.push(h.2),
            final(self)@.priorities == old(self)@.priorities,
            final(self)@.time_remaining == old(self)@.time_remaining,
            final(self)@.last_rescheduled == old(self)@.last_rescheduled,
            final(self)@.next_seq == old(self)@.next_seq,
    {
        let ghost v0 = self@;
        let popped = heap_pop(&mut self.processes);
        let h = popped.unwrap();
        let pushed = vec_push(&mut self.done, h.2);
        let ghost v1 = self@;
        assert(v1.ready.count(h) == 0);
        assert forall|e: ReadyEntry| #[trigger] v1.ready.contains(e) implies v0.ready.contains(e) && e != h by {
            assert(v1.ready.count(e) <= v0.ready.count(e));
        }
        assert(v0.ready.contains(h) && in_ready(v0, h.2));
        assert(!v0.done.contains(h.2));
        assert forall|i: usize| i < v1.priorities.len() implies (#[trigger] in_ready(v1, i) <==> !v1.done.contains(i)) by {
            if i == h.2 {
                assert(v1.done[v1.done.len() - 1] == h.2);
                if in_ready(v1, i) {
                    let e = choose|e: ReadyEntry| #[trigger] v1.ready.contains(e) && e.2 == i;
                    assert(v0.ready.contains(e));
                }
            } else {
                if in_ready(v0, i) {
                    let e = choose|e: ReadyEntry| #[trigger] v0.ready.contains(e) && e.2 == i;
                    assert(v1.ready.contains(e));
                }
                if v1.done.contains(i) {
                    let k = choose|k: int| 0 <= k < v1.done.len() && v1.done[k] == i;
                    assert(v0.done[k] == i);
                }
                if v0.done.contains(i) {
                    let k = choose|k: int| 0 <= k < v0.done.len() && v0.done[k] == i;
                    assert(v1.done[k] == i);
                }
            }
        }
        assert forall|k1: int, k2: int|
            0 <= k1 < v1.done.len() && 0 <= k2 < v1.done.len() && #[trigger] v1.done[k1] == #[trigger] v1.done[k2]
                implies k1 == k2 by {
            if k1 == v0.done.len() && k2 < v0.done.len() {
                assert(v0.done.contains(h.2));
            }
            if k2 == v0.done.len() && k1 < v0.done.len() {
                assert(v0.done.contains(h.2));
            }
        }
        h
    }

    /// Moves every done node back into the ready set, in the order the done
    /// set gives them up, each with its current priority.
    fn populate_with_new_priorities(&mut self)
        requires
            old(self).nodes_wf(),
            core_wf(old(self)@),
            old(self)@.ready.len() == 0,
        ensures
            final(self).nodes_wf(),
            view_wf(final(self)@),
            final(self)@.done.len() == 0,
            forall|i: usize| i < final(self)@.priorities.len() ==> #[trigger] in_ready(final(self)@, i),
            final(self)@.priorities == old(self)@.priorities,
            final(self)@.time_remaining == old(self)@.time_remaining,
            final(self)@.last_rescheduled == old(self)@.last_rescheduled,
    {
        let ghost v_start = self@;
        self.next_seq = 0;
        proof {
            let v = self@;
            assert forall|e: ReadyEntry| !#[trigger] v.ready.contains(e) by {
                assert(v.ready.count(e) <= v.ready.len());
            }
            assert forall|i: usize| i < v.priorities.len() implies (#[trigger] in_ready(v, i) <==> !v.done.contains(i)) by {
                assert(in_ready(v_start, i) == in_ready(v, i));
            }
        }
        loop
            invariant
                self.nodes_wf(),
                core_wf(self@),
                self@.next_seq == self@.ready.len(),
                self@.priorities == v_start.priorities,
                self@.time_remaining == v_start.time_remaining,
                self@.last_rescheduled == v_start.last_rescheduled,
            ensures
                self.nodes_wf(),
                core_wf(self@),
                self@.done.len() == 0,
                self@.priorities == v_start.priorities,
                self@.time_remaining == v_start.time_remaining,
                self@.last_rescheduled == v_start.last_rescheduled,
            decreases self@.done.len(),
        {
            let ghost v0 = self@;
            match vec_pop(&mut self.done) {
                None => {
                    break;
                },
                Some(x) => {
                    proof {
                        assert(v0.done[v0.done.len() - 1] == x);
                    }
                    let e: ReadyEntry = (self.nodes[x].priority, self.next_seq, x);
                    let _ = heap_push(&mut self.processes, e);
                    self.next_seq = self.next_seq + 1;
                    let ghost v1 = self@;
                    proof {
                        assert(!in_ready(v0, x));
                        assert(!v0.ready.contains(e));
                        assert forall|a: ReadyEntry| #[trigger] v1.ready.contains(a) implies {
                            &&& a.2 < v1.priorities.len()
                            &&& a.0 == v1.priorities[a.2 as int]
                            &&& a.1 < v1.next_seq
                            &&& v1.ready.count(a) == 1
                        } by {
                            if a != e {
                                assert(v0.ready.contains(a));
                            }
                        }
                        assert forall|a: ReadyEntry, b: ReadyEntry|
                            #[trigger] v1.ready.contains(a) && #[trigger] v1.ready.contains(b) && (a.2 == b.2 || a.1 == b.1)
                                implies a == b by {
                            if a != e && b != e {
                                assert(v0.ready.contains(a) && v0.ready.contains(b));
                            } else if a != e {
                                assert(v0.ready.contains(a));
                                assert(in_ready(v0, a.2));
                            } else if b != e {
                                assert(v0.ready.contains(b));
                                assert(in_ready(v0, b.2));
                            }
                        }
                        assert forall|k: int| 0 <= k < v1.done.len() implies #[trigger] v1.done[k] < v1.priorities.len() by {
                            assert(v1.done[k] == v0.done[k]);
                        }
                        assert forall|k1: int, k2: int|
                            0 <= k1 < v1.done.len() && 0 <= k2 < v1.done.len() && #[trigger] v1.done[k1] == #[trigger] v1.done[k2]
                                implies k1 == k2 by {
                            assert(v0.done[k1] == v1.done[k1] && v0.done[k2] == v1.done[k2]);
                        }
                        assert forall|i: usize| i < v1.priorities.len() implies (#[trigger] in_ready(v1, i) <==> !v1.done.contains(i)) by {
                            if i == x {
                                assert(v1.ready.contains(e));
                                if v1.done.contains(i) {
                                    let k = choose|k: int| 0 <= k < v1.done.len() && v1.done[k] == i;
                                    assert(v0.done[k] == i);
                                }
                            } else {
                                if in_ready(v0, i) {
                                    let w = choose|w: ReadyEntry| #[trigger] v0.ready.contains(w) && w.2 == i;
                                    assert(v1.ready.contains(w));
                                }
                                if in_ready(v1, i) {
                                    let w = choose|w: ReadyEntry| #[trigger] v1.ready.contains(w) && w.2 == i;
                                    assert(v0.ready.contains(w));
                                }
                                if v1.done.contains(i) {
                                    let k = choose|k: int| 0 <= k < v1.done.len() && v1.done[k] == i;
                                    assert(v0.done[k] == i);
                                }
                                if v0.done.contains(i) {
                                    let k = choose|k: int| 0 <= k < v0.done.len() && v0.done[k] == i;
                                    assert(v1.done[k] == i);
                                }
                            }
                        }
                    }
                },
            }
        }
        proof {
            let v = self@;
            assert forall|i: usize| i < v.priorities.len() implies #[trigger] in_ready(v, i) by {
                assert(!v.done.contains(i));
            }
        }
    }

    /// Chooses the process to run next, and for how long.
    ///
    /// Passes over ready-set heads that stand for vacant slots (zeroing their
    /// priority) or for processes that are not ready, moving them to the done
    /// set; when the ready set runs empty, starts a new round. The chosen node
    /// stays at the head of the ready set for `result` to find.
    pub fn next(&mut self, processes_blocked: bool, slots: &[Option<ProcessState>]) -> (r: SchedulingDecision)
        requires
            old(self).wf(),
            slots@.len() == old(self)@.priorities.len(),
            !processes_blocked ==> any_ready(slots@),
            forall|i: int| 0 <= i < slots@.len() ==> #[trigger] sane_timeslice(slots@[i]),
        ensures
            final(self).wf(),
            next_post(old(self)@, final(self)@, processes_blocked, slots@, r),
    {
        if processes_blocked {
            return SchedulingDecision::TrySleep;
        }
        let ghost start = self@;
        let ghost n = start.priorities.len();
        let mut crossed: bool = false;
        let mut chosen: ReadyEntry = (0, 0, 0);
        loop
            invariant
                self.nodes_wf(),
                core_wf(self@),
                core_wf(start),
                start.priorities.len() == n,
                slots@.len() == n,
                self@.priorities.len() == n,
                any_ready(slots@),
                self@.time_remaining == start.time_remaining,
                self@.last_rescheduled == start.last_rescheduled,
                forall|i: int| 0 <= i < n ==> (#[trigger] self@.priorities[i] == start.priorities[i]
                    || (slots@[i] is None && self@.priorities[i] == 0)),
                !crossed ==> forall|e: ReadyEntry| #[trigger] self@.ready.contains(e) ==> start.ready.contains(e),
                !crossed ==> forall|e: ReadyEntry| #[trigger] start.ready.contains(e) && !self@.ready.contains(e)
                    ==> !slot_ready(slots@[e.2 as int])
                    && forall|o: ReadyEntry| #[trigger] self@.ready.contains(o) ==> entry_le(e, o),
                !crossed ==> forall|e: ReadyEntry| #[trigger] start.ready.contains(e) && !self@.ready.contains(e)
                    && slots@[e.2 as int] is None ==> self@.priorities[e.2 as int] == 0,
                crossed ==> forall|i: int| 0 <= i < n && #[trigger] slot_ready(slots@[i]) ==> in_ready(self@, i as usize),
                crossed ==> forall|e: ReadyEntry| #[trigger] start.ready.contains(e) ==> !slot_ready(slots@[e.2 as int]),
            ensures
                is_least(chosen, self@.ready),
                chosen.2 < n,
                slot_ready(slots@[chosen.2 as int]),
            decreases (if crossed { 0 } else { n + 1 }) + self@.ready.len(),
        {
            let ghost v0 = self@;
            match heap_peek(&self.processes) {
                None => {
                    proof {
                        if crossed {
                            let i = choose|i: int| 0 <= i < slots@.len() && #[trigger] slot_ready(slots@[i]);
                            assert(in_ready(self@, i as usize));
                            let w = choose|w: ReadyEntry| #[trigger] v0.ready.contains(w) && w.2 == i as usize;
                            assert(v0.ready.count(w) <= v0.ready.len());
                        }
                        assert forall|e: ReadyEntry| #[trigger] start.ready.contains(e)
                            implies !slot_ready(slots@[e.2 as int]) by {
                            assert(v0.ready.count(e) <= v0.ready.len());
                        }
                    }
                    self.populate_with_new_priorities();
                    crossed = true;
                    proof {
                        let v1 = self@;
                        assert forall|i: int| 0 <= i < n && #[trigger] slot_ready(slots@[i])
                            implies in_ready(v1, i as usize) by {
                            assert(in_ready(v1, i as usize));
                        }
                    }
                },
                Some(e) => {
                    let i = e.2;
                    proof {
                        assert(v0.ready.contains(e));
                    }
                    match slots[i] {
                        Some(p) => {
                            if p.ready {
                                chosen = e;
                                break;
                            } else {
                                let h = self.retire_head();
                                proof {
                                    lemma_least_unique(h, e, v0.ready);
                                    assert(self@.priorities == v0.priorities);
                                }
                            }
                        },
                        None => {
                            let h = self.retire_head();
                            proof {
                                lemma_least_unique(h, e, v0.ready);
                            }
                            let ghost vm = self@;
                            self.nodes.set(i, PRRProcessNode::new(i, 0));
                            proof {
                                let v1 = self@;
                                assert(v1.priorities =~= vm.priorities.update(i as int, 0));
                                assert(vm.done.contains(i)) by {
                                    assert(vm.done[vm.done.len() - 1] == i);
                                }
                                assert forall|a: ReadyEntry| #[trigger] v1.ready.contains(a) implies a.2 != i by {
                                    if a.2 == i {
                                        assert(in_ready(vm, i));
                                    }
                                }
                                assert forall|j: usize| j < n implies (#[trigger] in_ready(v1, j) == in_ready(vm, j)) by {
                                    assert(v1.ready == vm.ready);
                                }
                                assert(core_wf(v1));
                                assert(v1.priorities == v0.priorities.update(i as int, 0));
                            }
                        },
                    }
                    proof {
                        let v1 = self@;
                        assert(v1.priorities == v0.priorities || v1.priorities == v0.priorities.update(e.2 as int, 0));
                        assert(!slot_ready(slots@[e.2 as int]));
                        assert(v1.ready.count(e) == 0);
                        assert forall|o: ReadyEntry| #[trigger] v1.ready.contains(o) implies v0.ready.contains(o) && o != e by {
                            assert(v1.ready.count(o) <= v0.ready.count(o));
                        }
                        if !crossed {
                            assert forall|a: ReadyEntry| #[trigger] start.ready.contains(a) && !v1.ready.contains(a)
                                && slots@[a.2 as int] is None implies v1.priorities[a.2 as int] == 0 by {
                                if a != e {
                                    assert(!v0.ready.contains(a));
                                    assert(start.ready.contains(e));
                                    assert(a.2 != e.2);
                                    assert(start.ready.contains(a));
                                    if v1.priorities != v0.priorities {
                                        assert(v1.priorities[a.2 as int] == v0.priorities.update(e.2 as int, 0)[a.2 as int]);
                                    }
                                    assert(v1.priorities[a.2 as int] == v0.priorities[a.2 as int]);
                                    assert(v0.priorities[a.2 as int] == 0);
                                }
                            }
                        }
                        if crossed {
                            assert forall|j: int| 0 <= j < n && #[trigger] slot_ready(slots@[j])
                                implies in_ready(v1, j as usize) by {
                                assert(in_ready(v0, j as usize));
                                let w = choose|w: ReadyEntry| #[trigger] v0.ready.contains(w) && w.2 == j as usize;
                                assert(w != e);
                                assert(v1.ready.contains(w));
                            }
                        }
                    }
                },
            }
        }
        let ghost v_end = self@;
        let p = slots[chosen.2].unwrap();
        let timeslice: u32 = if self.last_rescheduled {
            self.time_remaining
        } else {
            let t: u32 = match p.timeslice {
                Some(t) => t,
                None => DEFAULT_TIMESLICE_US,
            };
            self.time_remaining = t;
            t
        };
        proof {
            let v = self@;
            assert(sane_timeslice(slots@[chosen.2 as int]));
            assert(v.ready == v_end.ready);
            assert forall|j: usize| j < n implies (#[trigger] in_ready(v, j) == in_ready(v_end, j)) by {
                assert(v.ready == v_end.ready);
            }
            assert(core_wf(v));
            assert(v.ready.count(chosen) <= v.ready.len());
            lemma_head_is_least(v, chosen);
            if ready_holds_runnable(start, slots@) {
                let w = choose|w: ReadyEntry| #[trigger] start.ready.contains(w) && slot_ready(slots@[w.2 as int]);
                if crossed {
                    assert(!slot_ready(slots@[w.2 as int]));
                }
                assert(start.ready.contains(chosen));
                assert forall|e: ReadyEntry| #[trigger] start.ready.contains(e) && slot_ready(slots@[e.2 as int])
                    implies entry_le(chosen, e) by {
                    assert(v.ready.contains(e));
                }
                assert forall|e: ReadyEntry| #[trigger] start.ready.contains(e) && !entry_le(chosen, e)
                    && slots@[e.2 as int] is None implies v.priorities[e.2 as int] == 0 by {
                    if v.ready.contains(e) {
                        assert(entry_le(chosen, e));
                    }
                }
                assert forall|e: ReadyEntry| #[trigger] v.ready.count(e)
                    == if entry_le(chosen, e) { start.ready.count(e) } else { 0 } by {
                    if entry_le(chosen, e) {
                        if start.ready.contains(e) && !v.ready.contains(e) {
                            assert(entry_le(e, chosen));
                        }
                        if v.ready.contains(e) {
                            assert(start.ready.contains(e));
                        }
                    } else {
                        if v.ready.contains(e) {
                            assert(entry_le(chosen, e));
                        }
                    }
                }
            } else {
                if !crossed {
                    assert(start.ready.contains(chosen));
                }
                assert forall|i: int| 0 <= i < n && #[trigger] slot_ready(slots@[i])
                    implies v.priorities[chosen.2 as int] <= v.priorities[i] by {
                    assert(in_ready(v, i as usize));
                    let w = choose|w: ReadyEntry| #[trigger] v.ready.contains(w) && w.2 == i as usize;
                    assert(entry_le(chosen, w));
                }
            }
        }
        SchedulingDecision::RunProcess((p.id, Some(timeslice)))
    }

    /// Takes note that the process at the head of the ready set stopped for
    /// `reason` after running for `execution_time_us` microseconds.
    pub fn result(&mut self, reason: StoppedExecutingReason, execution_time_us: Option<u32>)
        requires
            old(self).wf(),
            old(self)@.ready.len() > 0,
            execution_time_us is Some,
        ensures
            final(self).wf(),
            result_post(old(self)@, final(self)@, reason, execution_time_us.unwrap()),
    {
        let used_time = execution_time_us.unwrap();
        let ghost v0 = self@;
        let reschedule = match reason {
            StoppedExecutingReason::KernelPreemption => {
                if self.time_remaining > used_time {
                    self.time_remaining = self.time_remaining - used_time;
                    true
                } else {
                    false
                }
            },
            _ => false,
        };
        self.last_rescheduled = reschedule;
        proof {
            let v = self@;
            assert forall|j: usize| j < v.priorities.len() implies (#[trigger] in_ready(v, j) == in_ready(v0, j)) by {
                assert(v.ready == v0.ready);
            }
            assert(core_wf(v));
        }
        if !reschedule {
            let returned = self.retire_head();
            proof {
                lemma_head_is_least(v0, returned);
            }
            let index = returned.2;
            proof {
                assert(index < 8);
                assert((index as u64) * (used_time as u64) <= 8 * 0xffff_ffffu64) by (nonlinear_arith)
                    requires
                        index < 8,
                        used_time <= 0xffff_ffffu32,
                ;
            }
            let product: u64 = (index as u64) * (used_time as u64);
            let priority: u32 = if product > u32::MAX as u64 {
                u32::MAX
            } else {
                product as u32
            };
            let ghost vm = self@;
            self.nodes.set(index, PRRProcessNode::new(index, priority));
            proof {
                let v1 = self@;
                assert(v1.priorities =~= vm.priorities.update(index as int, priority));
                assert(vm.done.contains(index)) by {
                    assert(vm.done[vm.done.len() - 1] == index);
                }
                assert forall|a: ReadyEntry| #[trigger] v1.ready.contains(a) implies a.2 != index by {
                    if a.2 == index {
                        assert(in_ready(vm, index));
                    }
                }
                assert forall|j: usize| j < v1.priorities.len() implies (#[trigger] in_ready(v1, j) == in_ready(vm, j)) by {
                    assert(v1.ready == vm.ready);
                }
                assert(core_wf(v1));
            }
            if heap_peek(&self.processes).is_none() {
                self.populate_with_new_priorities();
            } else {
                proof {
                    assert(v0.ready.len() > 1);
                }
            }
        }
    }

    /// An empty scheduler, with no nodes yet.
    pub fn new() -> (r: PriorityRoundRobinSched)
        ensures
            r.wf(),
            r@.priorities.len() == 0,
            r@.ready.len() == 0,
            r@.done.len() == 0,
            r@.time_remaining == DEFAULT_TIMESLICE_US,
            !r@.last_rescheduled,
    {
        let r = PriorityRoundRobinSched {
            time_remaining: DEFAULT_TIMESLICE_US,
            processes: heap_new(),
            done: vec_new(),
            last_rescheduled: false,
            nodes: Vec::new(),
            next_seq: 0,
        };
        proof {
            let v = r@;
            assert forall|e: ReadyEntry| !#[trigger] v.ready.contains(e) by {
                assert(v.ready.count(e) <= v.ready.len());
            }
        }
        r
    }

    /// Adds the node of the next process slot, with `priority`, to the ready
    /// set. Returns false, and changes nothing, when the scheduler already
    /// tracks `MAX_PROCESSES` nodes.
    pub fn add_node(&mut self, priority: u32) -> (added: bool)
        requires
            old(self).wf(),
        ensures
            final(self).wf(),
            added == (old(self)@.priorities.len() < MAX_PROCESSES),
            !added ==> final(self)@ == old(self)@,
            added ==> final(self)@.priorities == old(self)@.priorities.push(priority),
            added ==> final(self)@.ready == old(self)@.ready.insert(
                (priority, old(self)@.next_seq, old(self)@.priorities.len() as usize),
            ),
            final(self)@.done == old(self)@.done,
            final(self)@.time_remaining == old(self)@.time_remaining,
            final(self)@.last_rescheduled == old(self)@.last_rescheduled,
    {
        let n = self.nodes.len();
        if n >= MAX_PROCESSES {
            return false;
        }
        let ghost v0 = self@;
        let e: ReadyEntry = (priority, self.next_seq, n);
        let _ = heap_push(&mut self.processes, e);
        self.nodes.push(PRRProcessNode::new(n, priority));
        self.next_seq = self.next_seq + 1;
        proof {
            let v1 = self@;
            assert(v1.priorities =~= v0.priorities.push(priority));
            assert(!v0.ready.contains(e));
            assert forall|a: ReadyEntry| #[trigger] v1.ready.contains(a) implies {
                &&& a.2 < v1.priorities.len()
                &&& a.0 == v1.priorities[a.2 as int]
                &&& a.1 < v1.next_seq
                &&& v1.ready.count(a) == 1
            } by {
                if a != e {
                    assert(v0.ready.contains(a));
                }
            }
            assert forall|a: ReadyEntry, b: ReadyEntry|
                #[trigger] v1.ready.contains(a) && #[trigger] v1.ready.contains(b) && (a.2 == b.2 || a.1 == b.1)
                    implies a == b by {
                if a != e {
                    assert(v0.ready.contains(a));
                }
                if b != e {
                    assert(v0.ready.contains(b));
                }
            }
            assert forall|i: usize| i < v1.priorities.len() implies (#[trigger] in_ready(v1, i) <==> !v1.done.contains(i)) by {
                if i == n {
                    assert(v1.ready.contains(e));
                    if v1.done.contains(i) {
                        let k = choose|k: int| 0 <= k < v1.done.len() && v1.done[k] == i;
                        assert(v0.done[k] < n);
                    }
                } else {
                    if in_ready(v0, i) {
                        let w = choose|w: ReadyEntry| #[trigger] v0.ready.contains(w) && w.2 == i;
                        assert(v1.ready.contains(w));
                    }
                    if in_ready(v1, i) {
                        let w = choose|w: ReadyEntry| #[trigger] v1.ready.contains(w) && w.2 == i;
                        assert(v0.ready.contains(w));
                    }
                }
            }
            assert(v1.ready.count(e) <= v1.ready.len());
            assert(core_wf(v1));
        }
        true
    }

    /// The node at the head of the ready set: the one `next` chose last.
    pub fn head(&self) -> (r: Option<usize>)
        requires
            self.wf(),
        ensures
            r == (match head_of(self@) {
                Some(h) => Some(h.2),
                None => None,
            }),
    {
        match heap_peek(&self.processes) {
            Some(e) => {
                proof {
                    lemma_head_is_least(self@, e);
                }
                Some(e.2)
            },
            None => None,
        }
    }

    /// How many nodes the scheduler tracks.
    pub fn num_nodes(&self) -> (r: usize)
        ensures
            r == self@.priorities.len(),
    {
        self.nodes.len()
    }

    /// The priority of node `i`.
    pub fn priority(&self, i: usize) -> (r: u32)
        requires
            i < self@.priorities.len(),
        ensures
            r == self@.priorities[i as int],
    {
        self.nodes[i].priority
    }

    /// Microseconds left in the timeslice last granted.
    pub fn time_remaining(&self) -> (r: u32)
        ensures
            r == self@.time_remaining,
    {
        self.time_remaining
    }

    /// Whether the head of the ready set is running on the rest of its
    /// previous timeslice.
    pub fn last_rescheduled(&self) -> (r: bool)
        ensures
            r == self@.last_rescheduled,
    {
        self.last_rescheduled
    }
}

/// Between calls every node is in exactly one of the ready and done sets.
pub proof fn lemma_membership_partition(v: PrrView, i: usize)
    requires
        view_wf(v),
        i < v.priorities.len(),
    ensures
        in_ready(v, i) != v.done.contains(i),
        in_ready(v, i) ==> exists|e: ReadyEntry| #[trigger] v.ready.contains(e) && e.2 == i && v.ready.count(e) == 1,
        v.done.contains(i) ==> exists|k: int| 0 <= k < v.done.len() && v.done[k] == i
            && forall|k2: int| 0 <= k2 < v.done.len() && #[trigger] v.done[k2] == i ==> k2 == k,
{
    if in_ready(v, i) {
        let e = choose|e: ReadyEntry| #[trigger] v.ready.contains(e) && e.2 == i;
        assert(v.ready.count(e) == 1);
    }
    if v.done.contains(i) {
        let k = choose|k: int| 0 <= k < v.done.len() && v.done[k] == i;
        assert forall|k2: int| 0 <= k2 < v.done.len() && #[trigger] v.done[k2] == i implies k2 == k by {
            assert(v.done[k2] == v.done[k]);
        }
    }
}

/// Between calls the head of the ready set has the lowest priority of all
/// nodes in it.
pub proof fn lemma_head_has_least_priority(v: PrrView, i: usize)
    requires
        view_wf(v),
        i < v.priorities.len(),
        in_ready(v, i),
    ensures
        head_of(v) is Some,
        v.priorities[head_of(v).unwrap().2 as int] <= v.priorities[i as int],
{
    let e = choose|e: ReadyEntry| #[trigger] v.ready.contains(e) && e.2 == i;
    assert(v.ready.count(e) <= v.ready.len());
    lemma_head_least(v);
    let h = head_of(v).unwrap();
    assert(entry_le(h, e));
}

/// Among ready entries of equal priority, the one pushed earlier (the lower
/// insertion order) comes out first: a later one is never the head while an
/// earlier one is in the ready set. Pushes give increasing insertion orders,
/// since every entry present is below `next_seq`.
pub proof fn lemma_fifo_among_equals(v: PrrView, a: ReadyEntry, b: ReadyEntry)
    requires
        view_wf(v),
        v.ready.contains(a),
        v.ready.contains(b),
        a.0 == b.0,
        a.1 < b.1,
    ensures
        head_of(v) != Some(b),
        a.1 < v.next_seq && b.1 < v.next_seq,
{
    lemma_head_least(v);
    if head_of(v) == Some(b) {
        assert(entry_le(b, a));
    }
}

/// Between calls the ready set is not empty while some slot holds a ready
/// process.
pub proof fn lemma_ready_nonempty_while_runnable(v: PrrView, slots: Seq<Option<ProcessState>>)
    requires
        view_wf(v),
        slots.len() == v.priorities.len(),
        any_ready(slots),
    ensures
        v.ready.len() > 0,
{
}

/// The node that `next` chose to run is the one the following `result`
/// acts on: without a reschedule it earns its new priority and, unless a
/// round boundary follows, it is the node last put in the done set; with a
/// reschedule it stays at the head.
pub proof fn lemma_result_acts_on_chosen(
    v0: PrrView,
    v1: PrrView,
    v2: PrrView,
    slots: Seq<Option<ProcessState>>,
    r: SchedulingDecision,
    reason: StoppedExecutingReason,
    elapsed: u32,
)
    requires
        view_wf(v0),
        view_wf(v1),
        next_post(v0, v1, false, slots, r),
        result_post(v1, v2, reason, elapsed),
    ensures
        ({
            let i = head_of(v1).unwrap().2;
            &&& r matches SchedulingDecision::RunProcess((id, _)) && id == slots[i as int].unwrap().id
            &&& !is_reschedule(v1, reason, elapsed) ==> v2.priorities[i as int] == earned_priority(i, elapsed)
            &&& !is_reschedule(v1, reason, elapsed) && v1.ready.len() > 1 ==> v2.done.last() == i
                && !in_ready(v2, i)
            &&& is_reschedule(v1, reason, elapsed) ==> head_of(v2) == head_of(v1)
        }),
{
    let h = head_of(v1).unwrap();
    lemma_head_least(v1);
    if !is_reschedule(v1, reason, elapsed) && v1.ready.len() > 1 {
        if in_ready(v2, h.2) {
            let e = choose|e: ReadyEntry| #[trigger] v2.ready.contains(e) && e.2 == h.2;
            assert(v2.ready.count(e) <= v1.ready.count(e));
            assert(v1.ready.contains(e));
            assert(v2.ready.count(h) == 0);
        }
    }
}

/// After a `result` without a reschedule, the node of slot `i` that ran has
/// priority `i * elapsed` (saturated at `u32::MAX`).
pub proof fn lemma_priority_recomputed(v1: PrrView, v2: PrrView, reason: StoppedExecutingReason, elapsed: u32)
    requires
        view_wf(v1),
        v1.ready.len() > 0,
        result_post(v1, v2, reason, elapsed),
        !is_reschedule(v1, reason, elapsed),
    ensures
        ({
            let i = head_of(v1).unwrap().2;
            &&& i < v2.priorities.len()
            &&& i * elapsed <= u32::MAX ==> v2.priorities[i as int] == i * elapsed
            &&& i * elapsed > u32::MAX ==> v2.priorities[i as int] == u32::MAX
        }),
{
    lemma_head_least(v1);
}

/// After a `result` that is not a preemption, the following `next` chooses
/// another node than the one that just finished, provided neither call
/// crossed a round boundary: `result` left other nodes in the ready set and
/// one of those stands for a ready process.
pub proof fn lemma_finished_node_not_chosen_again(
    v0: PrrView,
    v1: PrrView,
    v2: PrrView,
    reason: StoppedExecutingReason,
    elapsed: u32,
    slots: Seq<Option<ProcessState>>,
    r: SchedulingDecision,
)
    requires
        view_wf(v0),
        view_wf(v1),
        v0.ready.len() > 1,
        reason != StoppedExecutingReason::KernelPreemption,
        result_post(v0, v1, reason, elapsed),
        ready_holds_runnable(v1, slots),
        next_post(v1, v2, false, slots, r),
    ensures
        head_of(v2).unwrap().2 != head_of(v0).unwrap().2,
{
    lemma_head_least(v0);
    let f = head_of(v0).unwrap();
    let h = head_of(v2).unwrap();
    assert(v1.ready.contains(h));
    if h.2 == f.2 {
        assert(v1.done[v1.done.len() - 1] == f.2);
        assert(in_ready(v1, f.2));
    }
}

/// `next` followed by `result(KernelPreemption, 0)` leaves the timeslice as
/// it was and the same node at the head, marked as rescheduled.
pub proof fn lemma_zero_preemption_keeps_head(
    v0: PrrView,
    v1: PrrView,
    v2: PrrView,
    slots: Seq<Option<ProcessState>>,
    r: SchedulingDecision,
)
    requires
        next_post(v0, v1, false, slots, r),
        result_post(v1, v2, StoppedExecutingReason::KernelPreemption, 0),
    ensures
        v2.time_remaining == v1.time_remaining,
        head_of(v2) == head_of(v1),
        v2.last_rescheduled,
{
}

} // verus!
