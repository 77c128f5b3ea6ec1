use prr_sched::scheduler::priority::PrioritySched;
use prr_sched::scheduler::{ProcessId, ProcessState, SchedulingDecision, StoppedExecutingReason};

fn pid(i: usize) -> ProcessId {
    ProcessId { index: i, identifier: 7 * i + 1 }
}

fn slot(i: usize, ready: bool) -> Option<ProcessState> {
    Some(ProcessState { id: pid(i), ready, timeslice: None })
}

#[test]
fn runs_first_ready_process_without_timeslice() {
    let slots = vec![None, slot(1, false), slot(2, true), slot(3, true)];
    let mut s = PrioritySched::new();
    assert_eq!(s.next(false, &slots), SchedulingDecision::RunProcess((pid(2), None)));
}

#[test]
fn sleeps_when_all_blocked() {
    let slots = vec![slot(0, false)];
    let mut s = PrioritySched::new();
    assert_eq!(s.next(true, &slots), SchedulingDecision::TrySleep);
}

#[test]
fn continues_without_interference() {
    let slots = vec![slot(0, false), slot(1, true)];
    let mut s = PrioritySched::new();
    assert_eq!(s.next(false, &slots), SchedulingDecision::RunProcess((pid(1), None)));
    assert!(s.continue_process(pid(1), &slots, false, None));
    assert!(s.continue_process(pid(1), &slots, false, Some(false)));
}

#[test]
fn yields_to_interrupts_and_deferred_calls() {
    let slots = vec![slot(0, true)];
    let mut s = PrioritySched::new();
    s.next(false, &slots);
    assert!(!s.continue_process(pid(0), &slots, true, None));
    assert!(!s.continue_process(pid(0), &slots, false, Some(true)));
}

#[test]
fn yields_to_higher_priority_process() {
    let mut slots = vec![slot(0, false), slot(1, true)];
    let mut s = PrioritySched::new();
    assert_eq!(s.next(false, &slots), SchedulingDecision::RunProcess((pid(1), None)));
    slots[0] = slot(0, true);
    assert!(!s.continue_process(pid(1), &slots, false, None));
}

#[test]
fn result_forgets_running_process() {
    let mut slots = vec![slot(0, false), slot(1, true)];
    let mut s = PrioritySched::new();
    s.next(false, &slots);
    s.result(StoppedExecutingReason::NoWorkLeft, None);
    slots[0] = slot(0, true);
    assert!(s.continue_process(pid(1), &slots, false, None));
}
