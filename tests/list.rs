use prr_sched::collections::list::List;
use prr_sched::scheduler::priority_round_robin::PRRProcessNode;

fn node(slot: usize, prio: u32) -> PRRProcessNode {
    PRRProcessNode::new(slot, prio)
}

fn slots_of(list: &List<PRRProcessNode>) -> Vec<usize> {
    let mut it = list.iter();
    let mut out = Vec::new();
    while let Some(n) = it.next() {
        out.push(n.slot);
    }
    out
}

#[test]
fn insert_with_prio_keeps_ascending_order() {
    let mut l = List::new();
    l.insert_with_prio(node(0, 5));
    l.insert_with_prio(node(1, 1));
    l.insert_with_prio(node(2, 9));
    l.insert_with_prio(node(3, 3));
    assert_eq!(slots_of(&l), vec![1, 3, 0, 2]);
}

#[test]
fn insert_with_prio_is_fifo_among_equals() {
    let mut l = List::new();
    l.insert_with_prio(node(0, 2));
    l.insert_with_prio(node(1, 2));
    l.insert_with_prio(node(2, 1));
    l.insert_with_prio(node(3, 2));
    assert_eq!(slots_of(&l), vec![2, 0, 1, 3]);
    assert_eq!(l.pop_head().map(|n| n.slot), Some(2));
    assert_eq!(l.pop_head().map(|n| n.slot), Some(0));
    assert_eq!(l.pop_head().map(|n| n.slot), Some(1));
}

#[test]
fn insert_with_prio_appends_largest() {
    let mut l = List::new();
    l.insert_with_prio(node(0, 1));
    l.insert_with_prio(node(1, 7));
    assert_eq!(slots_of(&l), vec![0, 1]);
}

#[test]
fn push_head_and_tail() {
    let mut l = List::new();
    assert!(l.head().is_none());
    l.push_tail(node(0, 0));
    l.push_head(node(1, 0));
    l.push_tail(node(2, 0));
    assert_eq!(slots_of(&l), vec![1, 0, 2]);
    assert_eq!(l.head().map(|n| n.slot), Some(1));
}

#[test]
fn pop_head_on_empty_list() {
    let mut l: List<PRRProcessNode> = List::new();
    assert!(l.pop_head().is_none());
    assert!(l.iter().next().is_none());
}
