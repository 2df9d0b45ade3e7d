//! The priority queue that drives the best-first searches: a binary heap
//! of candidates.

use vstd::multiset::Multiset;
use vstd::prelude::*;

verus! {

/// A node waiting to be expanded: the cost at which it was reached and the
/// priority under which it waits.
#[derive(Clone, Copy, Debug)]
pub struct Candidate {
    /// What the queue orders by: the cost, plus an estimate of what remains.
    pub priority: u64,
    /// The node that was reached.
    pub node: u32,
    /// The sum of the weights along the walk by which it was reached.
    pub cost: u64,
}

/// `a` leaves the queue before `b`: lower priority first, and among equal
/// priorities the lower node.
pub open spec fn comes_before(a: Candidate, b: Candidate) -> bool {
    a.priority < b.priority || (a.priority == b.priority && a.node < b.node)
}

/// Tells whether `a` leaves the queue before `b`.
fn leaves_before(a: &Candidate, b: &Candidate) -> (before: bool)
    ensures
        before == comes_before(*a, *b),
{
    a.priority < b.priority || (a.priority == b.priority && a.node < b.node)
}

/// The place in the heap of the parent of the item at place `child`.
spec fn parent_of(child: int) -> int {
    (child - 1) / 2
}

/// The heap while an item moves up: no item comes before its parent,
/// except perhaps the item at `loose`, and the children of `loose` do not
/// come before its parent.
spec fn heap_while_rising(items: Seq<Candidate>, loose: int) -> bool {
    &&& forall|k: int|
        1 <= k < items.len() && k != loose ==> !comes_before(
            #[trigger] items[k],
            items[parent_of(k)],
        )
    &&& forall|k: int|
        1 <= k < items.len() && parent_of(k) == loose && loose >= 1 ==> !comes_before(
            #[trigger] items[k],
            items[parent_of(loose)],
        )
}

/// The heap while an item moves down: no item comes before its parent,
/// except perhaps the children of `loose`, and these do not come before
/// the parent of `loose`.
spec fn heap_while_sinking(items: Seq<Candidate>, loose: int) -> bool {
    &&& forall|k: int|
        1 <= k < items.len() && parent_of(k) != loose ==> !comes_before(
            #[trigger] items[k],
            items[parent_of(k)],
        )
    &&& forall|k: int|
        1 <= k < items.len() && parent_of(k) == loose && loose >= 1 ==> !comes_before(
            #[trigger] items[k],
            items[parent_of(loose)],
        )
}

/// No item of the heap comes before its parent.
spec fn is_heap(items: Seq<Candidate>) -> bool {
    forall|k: int|
        1 <= k < items.len() ==> !comes_before(#[trigger] items[k], items[parent_of(k)])
}

/// In a heap nothing comes before the first item.
proof fn lemma_first_is_least(items: Seq<Candidate>, k: int)
    requires
        is_heap(items),
        0 <= k < items.len(),
    ensures
        !comes_before(items[k], items[0]),
    decreases k,
{
    if k > 0 {
        lemma_first_is_least(items, parent_of(k));
        assert(!comes_before(items[k], items[parent_of(k)]));
    }
}

/// Exchanging two items keeps what the heap holds.
proof fn lemma_exchange_keeps_contents(items: Seq<Candidate>, i: int, j: int)
    requires
        0 <= i < items.len(),
        0 <= j < items.len(),
    ensures
        items.update(i, items[j]).update(j, items[i]).to_multiset() == items.to_multiset(),
{
    broadcast use vstd::multiset::group_multiset_axioms;

    let once = items.update(i, items[j]);
    vstd::seq_lib::to_multiset_update(items, i, items[j]);
    vstd::seq_lib::to_multiset_update(once, j, items[i]);
    vstd::seq_lib::to_multiset_contains(items, items[i]);
    vstd::seq_lib::to_multiset_contains(items, items[j]);
    assert(items.contains(items[i]));
    assert(items.contains(items[j]));
    assert(once.update(j, items[i]).to_multiset() =~= items.to_multiset());
}

/// A queue of candidates that always hands out one that no other comes
/// before.
pub struct MinQueue {
    items: Vec<Candidate>,
}

impl View for MinQueue {
    type V = Multiset<Candidate>;

    /// The candidates that wait in the queue.
    closed spec fn view(&self) -> Multiset<Candidate> {
        self.items@.to_multiset()
    }
}

impl MinQueue {
    /// The items are in heap order.
    pub closed spec fn well_formed(&self) -> bool {
        is_heap(self.items@)
    }

    /// Creates an empty queue.
    pub fn new() -> (queue: Self)
        ensures
            queue.well_formed(),
            queue@ == Multiset::<Candidate>::empty(),
    {
        let queue = MinQueue { items: Vec::new() };
        proof {
            broadcast use vstd::seq_lib::group_to_multiset_ensures;

            assert(queue.items@.to_multiset() =~= Multiset::<Candidate>::empty());
        }
        queue
    }

    /// Exchanges the items at the places `i` and `j`.
    fn exchange(&mut self, i: usize, j: usize)
        requires
            i < old(self).items.len(),
            j < old(self).items.len(),
        ensures
            final(self).items@ == old(self).items@.update(
                i as int,
                old(self).items@[j as int],
            ).update(j as int, old(self).items@[i as int]),
            final(self)@ == old(self)@,
    {
        proof {
            lemma_exchange_keeps_contents(self.items@, i as int, j as int);
        }
        let first = self.items[i];
        let second = self.items[j];
        self.items[i] = second;
        self.items[j] = first;
    }

    /// Adds a candidate.
    pub fn push(&mut self, candidate: Candidate)
        requires
            old(self).well_formed(),
        ensures
            final(self).well_formed(),
            final(self)@ == old(self)@.insert(candidate),
    {
        proof {
            vstd::seq_lib::to_multiset_build(self.items@, candidate);
        }
        self.items.push(candidate);
        let mut at: usize = self.items.len() - 1;
        proof {
            let items = self.items@;
            assert forall|k: int| 1 <= k < items.len() && k != at implies !comes_before(
                #[trigger] items[k],
                items[parent_of(k)],
            ) by {
                assert(!comes_before(old(self).items@[k], old(self).items@[parent_of(k)]));
            }
        }
        while at > 0 && leaves_before(&self.items[at], &self.items[(at - 1) / 2])
            invariant
                at < self.items.len(),
                heap_while_rising(self.items@, at as int),
                self@ == old(self)@.insert(candidate),
            decreases at,
        {
            let above = (at - 1) / 2;
            let ghost before = self.items@;
            self.exchange(at, above);
            proof {
                let after = self.items@;
                assert forall|k: int| 1 <= k < after.len() && k != above implies !comes_before(
                    #[trigger] after[k],
                    after[parent_of(k)],
                ) by {
                    if k == at {
                    } else if parent_of(k) == at {
                        assert(!comes_before(before[k], before[parent_of(at as int)]));
                    } else if parent_of(k) == above {
                        assert(!comes_before(before[k], before[parent_of(k)]));
                    } else {
                        assert(!comes_before(before[k], before[parent_of(k)]));
                    }
                }
                assert forall|k: int|
                    1 <= k < after.len() && parent_of(k) == above && above
                        >= 1 implies !comes_before(
                    #[trigger] after[k],
                    after[parent_of(above as int)],
                ) by {
                    assert(!comes_before(before[above as int], before[parent_of(above as int)]));
                    if k != at {
                        assert(!comes_before(before[k], before[parent_of(k)]));
                    }
                }
            }
            at = above;
        }
        proof {
            let items = self.items@;
            assert forall|k: int| 1 <= k < items.len() implies !comes_before(
                #[trigger] items[k],
                items[parent_of(k)],
            ) by {}
        }
    }

    /// Takes out a candidate that no other comes before, if there is any.
    pub fn pop(&mut self) -> (popped: Option<Candidate>)
        requires
            old(self).well_formed(),
        ensures
            final(self).well_formed(),
            match popped {
                None => old(self)@.len() == 0 && final(self)@ == old(self)@,
                Some(first) => {
                    &&& old(self)@.contains(first)
                    &&& final(self)@ == old(self)@.remove(first)
                    &&& forall|other: Candidate| #[trigger]
                        old(self)@.contains(other) ==> !comes_before(other, first)
                },
            },
    {
        let len = self.items.len();
        proof {
            vstd::seq_lib::to_multiset_len(self.items@);
        }
        if len == 0 {
            return None;
        }
        let ghost before = self.items@;
        let first = self.items.swap_remove(0);
        proof {
            let last = before.len() - 1;
            assert(before.contains(first)) by {
                assert(before[0] == first);
            }
            vstd::seq_lib::to_multiset_contains(before, first);
            assert forall|other: Candidate| #[trigger]
                before.to_multiset().contains(other) implies !comes_before(other, first) by {
                vstd::seq_lib::to_multiset_contains(before, other);
                let j = choose|j: int| 0 <= j < before.len() && before[j] == other;
                lemma_first_is_least(before, j);
            }
            if last == 0 {
                assert(self.items@ =~= before.remove(last));
                vstd::seq_lib::to_multiset_remove(before, last);
            } else {
                assert(self.items@ =~= before.update(0, before[last]).remove(last));
                vstd::seq_lib::to_multiset_update(before, 0, before[last]);
                vstd::seq_lib::to_multiset_remove(before.update(0, before[last]), last);
                assert(self.items@.to_multiset() =~= before.to_multiset().remove(first));
            }
            let items = self.items@;
            assert forall|k: int| 1 <= k < items.len() && parent_of(k) != 0 implies !comes_before(
                #[trigger] items[k],
                items[parent_of(k)],
            ) by {
                assert(!comes_before(before[k], before[parent_of(k)]));
            }
        }
        self.settle(Ghost(before.to_multiset().remove(first)));
        Some(first)
    }

    /// Moves the first item down until none of its children comes before
    /// it.
    fn settle(&mut self, Ghost(contents): Ghost<Multiset<Candidate>>)
        requires
            heap_while_sinking(old(self).items@, 0),
            old(self)@ == contents,
        ensures
            final(self).well_formed(),
            final(self)@ == contents,
    {
        let len = self.items.len();
        let mut at: usize = 0;
        loop
            invariant
                len == self.items.len(),
                at < len || len == 0,
                heap_while_sinking(self.items@, at as int),
                self@ == contents,
            ensures
                is_heap(self.items@),
                self@ == contents,
            decreases len - at,
        {
            if at >= len / 2 {
                proof {
                    let items = self.items@;
                    assert forall|k: int| 1 <= k < items.len() implies !comes_before(
                        #[trigger] items[k],
                        items[parent_of(k)],
                    ) by {
                        assert(parent_of(k) != at);
                    }
                }
                break ;
            }
            let left = 2 * at + 1;
            let right = left + 1;
            let mut least = at;
            if leaves_before(&self.items[left], &self.items[least]) {
                least = left;
            }
            if right < len && leaves_before(&self.items[right], &self.items[least]) {
                least = right;
            }
            if least == at {
                proof {
                    let items = self.items@;
                    assert forall|k: int| 1 <= k < items.len() implies !comes_before(
                        #[trigger] items[k],
                        items[parent_of(k)],
                    ) by {
                        if parent_of(k) == at {
                            assert(k == left || k == right);
                        }
                    }
                }
                break ;
            }
            let ghost before = self.items@;
            self.exchange(at, least);
            proof {
                let after = self.items@;
                assert(parent_of(least as int) == at);
                assert forall|k: int|
                    1 <= k < after.len() && parent_of(k) != least implies !comes_before(
                    #[trigger] after[k],
                    after[parent_of(k)],
                ) by {
                    if k == least {
                    } else if parent_of(k) == at {
                        assert(k == left || k == right);
                    } else if k == at {
                        assert(!comes_before(before[least as int], before[parent_of(at as int)]));
                    } else {
                        assert(!comes_before(before[k], before[parent_of(k)]));
                    }
                }
                assert forall|k: int|
                    1 <= k < after.len() && parent_of(k) == least && least
                        >= 1 implies !comes_before(
                    #[trigger] after[k],
                    after[parent_of(least as int)],
                ) by {
                    assert(!comes_before(before[k], before[parent_of(k)]));
                }
            }
            at = least;
        }
    }
}

} // verus!
