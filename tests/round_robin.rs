use prr_sched::components::PriorityRoundRobinComponent;
use prr_sched::scheduler::priority_round_robin::{PriorityRoundRobinSched, DEFAULT_TIMESLICE_US};
use prr_sched::scheduler::{ProcessId, ProcessState, SchedulingDecision, StoppedExecutingReason};

fn pid(i: usize) -> ProcessId {
    ProcessId { index: i, identifier: 100 + i }
}

fn ready(i: usize) -> Option<ProcessState> {
    Some(ProcessState { id: pid(i), ready: true, timeslice: None })
}

fn blocked(i: usize) -> Option<ProcessState> {
    Some(ProcessState { id: pid(i), ready: false, timeslice: None })
}

fn build(slots: &[Option<ProcessState>]) -> PriorityRoundRobinSched {
    PriorityRoundRobinComponent::new(slots).finalize()
}

fn run(i: usize, t: u32) -> SchedulingDecision {
    SchedulingDecision::RunProcess((pid(i), Some(t)))
}

#[test]
fn finalize_sets_index_priorities() {
    let slots = vec![ready(0), ready(1), ready(2)];
    let s = build(&slots);
    assert_eq!(s.num_nodes(), 3);
    assert_eq!(s.priority(0), 0);
    assert_eq!(s.priority(1), 1);
    assert_eq!(s.priority(2), 2);
    assert_eq!(s.head(), Some(0));
    assert_eq!(s.time_remaining(), DEFAULT_TIMESLICE_US);
    assert!(!s.last_rescheduled());
}

#[test]
fn round_robin_among_equals_cycles() {
    let slots = vec![ready(0), ready(1), ready(2)];
    let mut s = build(&slots);
    for _round in 0..3 {
        for i in 0..3 {
            assert_eq!(s.next(false, &slots), run(i, 10_000));
            s.result(StoppedExecutingReason::NoWorkLeft, Some(10_000));
        }
        assert_eq!(s.priority(0), 0);
        assert_eq!(s.priority(1), 10_000);
        assert_eq!(s.priority(2), 20_000);
    }
}

#[test]
fn thrifty_low_index_process_goes_first() {
    let slots = vec![ready(0), ready(1)];
    let mut s = build(&slots);
    for _round in 0..3 {
        assert_eq!(s.next(false, &slots), run(0, 10_000));
        s.result(StoppedExecutingReason::NoWorkLeft, Some(1000));
        assert_eq!(s.next(false, &slots), run(1, 10_000));
        s.result(StoppedExecutingReason::KernelPreemption, Some(10_000));
        assert_eq!(s.priority(0), 0);
        assert_eq!(s.priority(1), 10_000);
        assert!(!s.last_rescheduled());
    }
}

#[test]
fn preemption_keeps_residual_timeslice() {
    let slots = vec![ready(0)];
    let mut s = build(&slots);
    assert_eq!(s.next(false, &slots), run(0, 10_000));
    s.result(StoppedExecutingReason::KernelPreemption, Some(3000));
    assert_eq!(s.time_remaining(), 7000);
    assert!(s.last_rescheduled());
    assert_eq!(s.head(), Some(0));
    assert_eq!(s.next(false, &slots), run(0, 7000));
}

#[test]
fn preemption_that_exhausts_timeslice_grants_fresh_one() {
    let slots = vec![ready(0)];
    let mut s = build(&slots);
    assert_eq!(s.next(false, &slots), run(0, 10_000));
    s.result(StoppedExecutingReason::KernelPreemption, Some(3000));
    assert_eq!(s.next(false, &slots), run(0, 7000));
    s.result(StoppedExecutingReason::KernelPreemption, Some(7000));
    assert!(!s.last_rescheduled());
    assert_eq!(s.priority(0), 0);
    assert_eq!(s.head(), Some(0));
    assert_eq!(s.next(false, &slots), run(0, 10_000));
}

#[test]
fn vacant_first_slot_is_passed_over() {
    let slots = vec![None, ready(1), ready(2)];
    let mut s = build(&slots);
    assert_eq!(s.next(false, &slots), run(1, 10_000));
    assert_eq!(s.priority(0), 0);
    assert_eq!(s.head(), Some(1));
}

#[test]
fn vacant_slot_priority_is_zeroed() {
    let slots = vec![ready(0), None, ready(2)];
    let mut s = build(&slots);
    assert_eq!(s.next(false, &slots), run(0, 10_000));
    s.result(StoppedExecutingReason::NoWorkLeft, Some(500));
    assert_eq!(s.priority(1), 1);
    assert_eq!(s.next(false, &slots), run(2, 10_000));
    assert_eq!(s.priority(1), 0);
}

#[test]
fn not_ready_process_keeps_its_priority() {
    let slots = vec![blocked(0), ready(1), ready(2)];
    let mut s = build(&slots);
    s.result(StoppedExecutingReason::NoWorkLeft, Some(5));
    assert_eq!(s.priority(0), 0);
    let slots2 = vec![ready(0), blocked(1), ready(2)];
    assert_eq!(s.next(false, &slots2), run(2, 10_000));
    assert_eq!(s.priority(1), 1);
}

#[test]
fn all_blocked_sleeps_without_change() {
    let slots = vec![blocked(0), blocked(1)];
    let mut s = build(&slots);
    assert_eq!(s.next(true, &slots), SchedulingDecision::TrySleep);
    assert_eq!(s.head(), Some(0));
    assert_eq!(s.priority(0), 0);
    assert_eq!(s.priority(1), 1);
    assert_eq!(s.time_remaining(), DEFAULT_TIMESLICE_US);
}

#[test]
fn preferred_timeslice_is_granted() {
    let slots = vec![Some(ProcessState { id: pid(0), ready: true, timeslice: Some(2500) })];
    let mut s = build(&slots);
    assert_eq!(s.next(false, &slots), run(0, 2500));
    assert_eq!(s.time_remaining(), 2500);
}

#[test]
fn round_boundary_inside_next() {
    let slots = vec![ready(0), ready(1), blocked(2)];
    let mut s = build(&slots);
    assert_eq!(s.next(false, &slots), run(0, 10_000));
    s.result(StoppedExecutingReason::NoWorkLeft, Some(100));
    assert_eq!(s.next(false, &slots), run(1, 10_000));
    s.result(StoppedExecutingReason::NoWorkLeft, Some(100));
    // Only the blocked node is left; it moves to done and a new round starts.
    assert_eq!(s.priority(0), 0);
    assert_eq!(s.priority(1), 100);
    assert_eq!(s.next(false, &slots), run(0, 10_000));
    assert_eq!(s.priority(2), 2);
}

#[test]
fn finished_node_is_not_chosen_again() {
    let slots = vec![ready(0), ready(1), ready(2)];
    let mut s = build(&slots);
    assert_eq!(s.next(false, &slots), run(0, 10_000));
    s.result(StoppedExecutingReason::Stopped, Some(10));
    assert_eq!(s.next(false, &slots), run(1, 10_000));
    s.result(StoppedExecutingReason::StoppedFaulted, Some(10));
    assert_eq!(s.next(false, &slots), run(2, 10_000));
}

#[test]
fn finished_node_can_return_after_round_boundary() {
    let slots = vec![ready(0), ready(1), blocked(2)];
    let mut s = build(&slots);
    assert_eq!(s.next(false, &slots), run(0, 10_000));
    s.result(StoppedExecutingReason::NoWorkLeft, Some(10));
    assert_eq!(s.next(false, &slots), run(1, 10_000));
    s.result(StoppedExecutingReason::NoWorkLeft, Some(0));
    // Only the blocked node is left, so `next` starts a new round, in which
    // node 1 (priority 0, pushed before node 0) comes first again.
    assert_eq!(s.next(false, &slots), run(1, 10_000));
}

#[test]
fn zero_preemption_is_a_no_op_on_time_remaining() {
    let slots = vec![ready(0), ready(1)];
    let mut s = build(&slots);
    assert_eq!(s.next(false, &slots), run(0, 10_000));
    s.result(StoppedExecutingReason::KernelPreemption, Some(0));
    assert_eq!(s.time_remaining(), 10_000);
    assert_eq!(s.head(), Some(0));
    assert!(s.last_rescheduled());
    assert_eq!(s.next(false, &slots), run(0, 10_000));
}

#[test]
fn equal_priorities_leave_in_push_order() {
    let slots = vec![ready(0), ready(1), ready(2)];
    let mut s = build(&slots);
    for i in 0..3 {
        assert_eq!(s.next(false, &slots), run(i, 10_000));
        s.result(StoppedExecutingReason::NoWorkLeft, Some(0));
    }
    // All priorities are 0; the round boundary pushed the done nodes last
    // first, so that is the order they come out in.
    assert_eq!(s.priority(0), 0);
    assert_eq!(s.priority(1), 0);
    assert_eq!(s.priority(2), 0);
    assert_eq!(s.next(false, &slots), run(2, 10_000));
    s.result(StoppedExecutingReason::NoWorkLeft, Some(0));
    assert_eq!(s.next(false, &slots), run(1, 10_000));
    s.result(StoppedExecutingReason::NoWorkLeft, Some(0));
    assert_eq!(s.next(false, &slots), run(0, 10_000));
}

#[test]
fn earned_priority_saturates() {
    let slots = vec![blocked(0), blocked(1), ready(2)];
    let mut s = build(&slots);
    assert_eq!(s.next(false, &slots), run(2, 10_000));
    s.result(StoppedExecutingReason::NoWorkLeft, Some(u32::MAX));
    assert_eq!(s.priority(2), u32::MAX);
}

#[test]
fn timeslice_is_never_zero() {
    let slots = vec![ready(0)];
    let mut s = build(&slots);
    let mut used: u32 = 9_999;
    for _ in 0..5 {
        match s.next(false, &slots) {
            SchedulingDecision::RunProcess((_, Some(t))) => assert!(t > 0),
            other => panic!("unexpected decision {:?}", other),
        }
        s.result(StoppedExecutingReason::KernelPreemption, Some(used));
        used = used / 2;
    }
}

#[test]
fn add_node_stops_at_capacity() {
    let mut s = PriorityRoundRobinSched::new();
    for i in 0..8u32 {
        assert!(s.add_node(i));
    }
    assert!(!s.add_node(8));
    assert_eq!(s.num_nodes(), 8);
}
