use prr_sched::scheduler::priority_round_robin::PRRProcessNode;
use std::cmp::Ordering;

#[test]
fn nodes_compare_by_priority_only() {
    let a = PRRProcessNode::new(0, 7);
    let b = PRRProcessNode::new(3, 7);
    let c = PRRProcessNode::new(1, 2);
    assert!(a == b);
    assert!(a != c);
    assert_eq!(a.partial_cmp(&b), Some(Ordering::Equal));
    assert_eq!(c.partial_cmp(&a), Some(Ordering::Less));
    assert_eq!(a.partial_cmp(&c), Some(Ordering::Greater));
    assert!(c < a);
}

#[test]
fn priority_can_be_set() {
    let mut n = PRRProcessNode::new(4, 4);
    assert_eq!(n.priority(), 4);
    n.set_priority(40_000);
    assert_eq!(n.priority(), 40_000);
    assert_eq!(n.slot, 4);
}
