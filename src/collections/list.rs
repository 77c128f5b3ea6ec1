//! A list kept in ascending priority order, first inserted first among equal
//! priorities.
use vstd::prelude::*;

verus! {

/// An item that may carry a priority; lower is more favoured.
pub trait ListNode {
    /// The item's priority, if it has one.
    spec fn prio_spec(&self) -> Option<u32>;

    fn prio(&self) -> (r: Option<u32>)
        ensures
            r == self.prio_spec(),
    ;
}

/// The priority of an item that has one.
pub open spec fn prio_of<T: ListNode>(x: T) -> u32 {
    x.prio_spec().unwrap()
}

/// Every item of `s` has a priority.
pub open spec fn all_prioritized<T: ListNode>(s: Seq<T>) -> bool {
    forall|j: int| 0 <= j < s.len() ==> (#[trigger] s[j]).prio_spec() is Some
}

/// Where an item of priority `p` goes in `s`: after every item before `k`,
/// whose priority is at most `p`, and before the item at `k`, whose
/// priority is above `p`.
pub open spec fn is_insert_position<T: ListNode>(s: Seq<T>, p: u32, k: int) -> bool {
    &&& 0 <= k <= s.len()
    &&& forall|j: int| 0 <= j < k ==> prio_of(#[trigger] s[j]) <= p
    &&& k < s.len() ==> prio_of(s[k]) > p
}

/// A sequence of items.
pub struct List<T> {
    items: Vec<T>,
}

impl<T> View for List<T> {
    type V = Seq<T>;

    closed spec fn view(&self) -> Seq<T> {
        self.items@
    }
}

impl<T: ListNode + Copy> List<T> {
    pub fn new() -> (r: List<T>)
        ensures
            r@ == Seq::<T>::empty(),
    {
        List { items: Vec::new() }
    }

    /// Inserts `node` after every item whose priority is at most its own,
    /// before the first item whose priority is above it (at the end when
    /// there is none).
    pub fn insert_with_prio(&mut self, node: T)
        requires
            node.prio_spec() is Some,
            all_prioritized(old(self)@),
        ensures
            exists|k: int| is_insert_position(old(self)@, prio_of(node), k)
                && final(self)@ == old(self)@.insert(k, node),
    {
        let p = node.prio().unwrap();
        let mut k: usize = 0;
        while k < self.items.len()
            invariant
                k <= self.items@.len(),
                all_prioritized(self.items@),
                forall|j: int| 0 <= j < k ==> prio_of(#[trigger] self.items@[j]) <= p,
            ensures
                k <= self.items@.len(),
                forall|j: int| 0 <= j < k ==> prio_of(#[trigger] self.items@[j]) <= p,
                k < self.items@.len() ==> prio_of(self.items@[k as int]) > p,
            decreases self.items@.len() - k,
        {
            proof {
                assert(self.items@[k as int].prio_spec() is Some);
            }
            let q = self.items[k].prio().unwrap();
            if q > p {
                break;
            }
            k = k + 1;
        }
        let ghost s0 = self.items@;
        assert(is_insert_position(s0, p, k as int));
        self.items.insert(k, node);
    }

    /// The first item, if any.
    pub fn head(&self) -> (r: Option<T>)
        ensures
            r == (if self@.len() > 0 { Some(self@[0]) } else { None::<T> }),
    {
        if self.items.len() > 0 {
            Some(self.items[0])
        } else {
            None
        }
    }

    /// Puts `node` first.
    pub fn push_head(&mut self, node: T)
        ensures
            final(self)@ == seq![node] + old(self)@,
    {
        self.items.insert(0, node);
        assert(self@ =~= seq![node] + old(self)@);
    }

    /// Puts `node` last.
    pub fn push_tail(&mut self, node: T)
        ensures
            final(self)@ == old(self)@.push(node),
    {
        self.items.push(node);
    }

    /// Removes and returns the first item, if any.
    pub fn pop_head(&mut self) -> (r: Option<T>)
        ensures
            old(self)@.len() == 0 ==> r is None && final(self)@ == old(self)@,
            old(self)@.len() > 0 ==> r == Some(old(self)@[0]) && final(self)@ == old(self)@.drop_first(),
    {
        if self.items.len() > 0 {
            let x = self.items.remove(0);
            assert(self@ =~= old(self)@.drop_first());
            Some(x)
        } else {
            None
        }
    }

    /// An iterator over the items, first to last.
    pub fn iter(&self) -> (r: ListIterator<'_, T>)
        ensures
            r.items() == self@,
            r.position() == 0,
    {
        ListIterator { list: self, cur: 0 }
    }
}

/// Hands out the items of a list, first to last.
pub struct ListIterator<'a, T> {
    list: &'a List<T>,
    cur: usize,
}

impl<'a, T: ListNode + Copy> ListIterator<'a, T> {
    /// The items being handed out.
    pub closed spec fn items(&self) -> Seq<T> {
        self.list@
    }

    /// How many items were handed out so far.
    pub closed spec fn position(&self) -> int {
        self.cur as int
    }

    /// The next item, if any is left.
    pub fn next(&mut self) -> (r: Option<T>)
        requires
            old(self).position() <= old(self).items().len(),
        ensures
            final(self).items() == old(self).items(),
            old(self).position() < old(self).items().len() ==> r == Some(old(self).items()[old(self).position()])
                && final(self).position() == old(self).position() + 1,
            old(self).position() == old(self).items().len() ==> r is None
                && final(self).position() == old(self).position(),
    {
        if self.cur < self.list.items.len() {
            let x = self.list.items[self.cur];
            self.cur = self.cur + 1;
            Some(x)
        } else {
            None
        }
    }
}

} // verus!
