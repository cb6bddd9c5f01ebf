//! A priority queue that hands out the smallest key first.

use vstd::multiset::Multiset;
use vstd::prelude::*;

verus! {

/// A binary heap of keys.
pub struct MinQueue {
    heap: Vec<u128>,
}

impl View for MinQueue {
    type V = Multiset<u128>;

    closed spec fn view(&self) -> Multiset<u128> {
        self.heap@.to_multiset()
    }
}

spec fn parent(index: int) -> int {
    (index - 1) / 2
}

/// Every parent but those of `hole` and of its children is in order; so is the parent of `hole` with
/// the children of `hole`.
spec fn heap_but_up(heap: Seq<u128>, hole: int) -> bool {
    &&& forall|j: int|
        0 < j < heap.len() && j != hole ==> heap[parent(j)] <= #[trigger] heap[j]
    &&& forall|j: int|
        0 < j < heap.len() && parent(j) == hole && hole > 0 ==> heap[parent(hole)]
            <= #[trigger] heap[j]
}

spec fn heap_but_down(heap: Seq<u128>, hole: int) -> bool {
    &&& forall|j: int|
        0 < j < heap.len() && parent(j) != hole ==> heap[parent(j)] <= #[trigger] heap[j]
    &&& forall|j: int|
        0 < j < heap.len() && parent(j) == hole && hole > 0 ==> heap[parent(hole)]
            <= #[trigger] heap[j]
}

spec fn heap_ordered(heap: Seq<u128>) -> bool {
    forall|j: int| 0 < j < heap.len() ==> heap[parent(j)] <= #[trigger] heap[j]
}

proof fn lemma_root_least(heap: Seq<u128>, index: int)
    requires
        heap_ordered(heap),
        0 <= index < heap.len(),
    ensures
        heap[0] <= heap[index],
    decreases index,
{
    if index > 0 {
        lemma_root_least(heap, parent(index));
        assert(heap[parent(index)] <= heap[index]);
    }
}

proof fn lemma_swap(heap: Seq<u128>, i: int, j: int)
    requires
        0 <= i < heap.len(),
        0 <= j < heap.len(),
    ensures
        heap.update(i, heap[j]).update(j, heap[i]).to_multiset() == heap.to_multiset(),
{
    let first = heap.update(i, heap[j]);
    heap.to_multiset_ensures();
    first.to_multiset_ensures();
    vstd::seq_lib::to_multiset_update(heap, i, heap[j]);
    vstd::seq_lib::to_multiset_update(first, j, heap[i]);
    assert(first.update(j, heap[i]).to_multiset() =~= heap.to_multiset());
}

/// Moving the smaller child up moves the hole down.
proof fn lemma_down_step(heap: Seq<u128>, index: int, child: int)
    requires
        heap_but_down(heap, index),
        0 <= index < child < heap.len(),
        parent(child) == index,
        heap[child] < heap[index],
        forall|j: int|
            0 < j < heap.len() && parent(j) == index ==> heap[child] <= #[trigger] heap[j],
    ensures
        heap_but_down(heap.update(index, heap[child]).update(child, heap[index]), child),
{
    let after = heap.update(index, heap[child]).update(child, heap[index]);
    assert forall|j: int| 0 < j < after.len() && parent(j) != child implies after[parent(j)]
        <= #[trigger] after[j] by {
        let original = heap[j];
        if parent(j) == index {
            if j == child {
            } else {
                assert(after[j] == heap[j]);
            }
        } else if j == index {
            assert(heap[parent(index)] <= heap[child]);
        } else {
            assert(heap[parent(j)] <= heap[j]);
        }
    }
    assert forall|j: int| 0 < j < after.len() && parent(j) == child && child
        > 0 implies after[parent(child)] <= #[trigger] after[j] by {
        assert(j != index && j != child);
        assert(parent(j) != index);
        assert(heap[parent(j)] <= heap[j]);
    }
}

impl MinQueue {
    pub closed spec fn wf(&self) -> bool {
        heap_ordered(self.heap@)
    }

    pub fn new() -> (queue: Self)
        ensures
            queue.wf(),
            queue@ == Multiset::<u128>::empty(),
    {
        let queue = MinQueue { heap: Vec::new() };
        proof {
            queue.heap@.to_multiset_ensures();
            assert(queue@ =~= Multiset::<u128>::empty());
        }
        queue
    }

    pub fn push(&mut self, key: u128)
        requires
            old(self).wf(),
        ensures
            final(self).wf(),
            final(self)@ == old(self)@.insert(key),
    {
        let ghost before = self.heap@;
        self.heap.push(key);
        proof {
            before.to_multiset_ensures();
            assert(self.heap@.to_multiset() =~= before.to_multiset().insert(key));
        }
        let ghost content = self.heap@.to_multiset();
        let mut index: usize = self.heap.len() - 1;
        while index > 0
            invariant_except_break
                heap_but_up(self.heap@, index as int),
            invariant
                index < self.heap.len(),
                self.heap@.to_multiset() == content,
            ensures
                heap_ordered(self.heap@),
            decreases index,
        {
            let above: usize = (index - 1) / 2;
            if self.heap[above] <= self.heap[index] {
                break;
            }
            let low: u128 = self.heap[index];
            let high: u128 = self.heap[above];
            let ghost heap = self.heap@;
            proof {
                lemma_swap(heap, above as int, index as int);
            }
            self.heap.set(above, low);
            self.heap.set(index, high);
            proof {
                let after = self.heap@;
                assert(after =~= heap.update(above as int, low).update(index as int, high));
                assert forall|j: int| 0 < j < after.len() && j != above implies after[parent(j)]
                    <= #[trigger] after[j] by {
                    if j != index {
                        assert(heap[parent(j)] <= heap[j]);
                    }
                }
                assert forall|j: int|
                    0 < j < after.len() && parent(j) == above && above > 0 implies after[parent(
                    above as int,
                )] <= #[trigger] after[j] by {
                    assert(heap[parent(above as int)] <= heap[above as int]);
                    if j != index {
                        assert(heap[parent(j)] <= heap[j]);
                    }
                }
            }
            index = above;
        }
    }

    /// Removes and returns the smallest key.
    pub fn pop(&mut self) -> (key: Option<u128>)
        requires
            old(self).wf(),
        ensures
            final(self).wf(),
            match key {
                Some(key) => {
                    &&& old(self)@.count(key) > 0
                    &&& final(self)@ == old(self)@.remove(key)
                    &&& final(self)@.len() + 1 == old(self)@.len()
                    &&& forall|other: u128| #[trigger] old(self)@.count(other) > 0 ==> key <= other
                },
                None => old(self)@ == Multiset::<u128>::empty() && final(self)@ == old(self)@,
            },
    {
        let ghost before = self.heap@;
        proof {
            before.to_multiset_ensures();
        }
        if self.heap.len() == 0 {
            assert(self@ =~= Multiset::<u128>::empty());
            return None;
        }
        let least: u128 = self.heap[0];
        proof {
            assert(before.contains(before[0]));
            assert forall|other: u128| #[trigger] before.to_multiset().count(other)
                > 0 implies least <= other by {
                assert(before.contains(other));
                let i = choose|i: int| 0 <= i < before.len() && before[i] == other;
                lemma_root_least(before, i);
            }
        }
        let last: u128 = self.heap[self.heap.len() - 1];
        self.heap.pop();
        proof {
            let rest = self.heap@;
            assert(before =~= rest.push(last));
            rest.to_multiset_ensures();
            assert(before.to_multiset() =~= rest.to_multiset().insert(last));
        }
        if self.heap.len() > 0 {
            let ghost rest = self.heap@;
            proof {
                assert(rest[0] == least);
                vstd::seq_lib::to_multiset_update(rest, 0, last);
                rest.to_multiset_ensures();
                rest.update(0, last).to_multiset_ensures();
                assert(rest.update(0, last).to_multiset() =~= before.to_multiset().remove(least));
            }
            self.heap.set(0, last);
            let ghost content = self.heap@.to_multiset();
            proof {
                let after = self.heap@;
                assert forall|j: int| 0 < j < after.len() && parent(j) != 0 implies after[parent(j)]
                    <= #[trigger] after[j] by {
                    assert(before[parent(j)] <= before[j]);
                }
            }
            let mut index: usize = 0;
            loop
                invariant_except_break
                    heap_but_down(self.heap@, index as int),
                invariant
                    index < self.heap.len(),
                    self.heap@.to_multiset() == content,
                ensures
                    heap_ordered(self.heap@),
                decreases self.heap.len() - index,
            {
                let len: usize = self.heap.len();
                if index > (len - 1) / 2 || 2 * index + 1 >= len {
                    proof {
                        assert forall|j: int| 0 < j < self.heap@.len() implies self.heap@[parent(j)]
                            <= #[trigger] self.heap@[j] by {
                            assert(parent(j) != index);
                        }
                    }
                    break;
                }
                let left: usize = 2 * index + 1;
                let child: usize = if left + 1 < len && self.heap[left + 1] < self.heap[left] {
                    left + 1
                } else {
                    left
                };
                if self.heap[index] <= self.heap[child] {
                    proof {
                        assert forall|j: int| 0 < j < self.heap@.len() implies self.heap@[parent(j)]
                            <= #[trigger] self.heap@[j] by {
                            if parent(j) == index {
                                assert(j == left || j == left + 1);
                            }
                        }
                    }
                    break;
                }
                let high: u128 = self.heap[index];
                let low: u128 = self.heap[child];
                let ghost heap = self.heap@;
                proof {
                    lemma_swap(heap, index as int, child as int);
                    assert forall|j: int| 0 < j < heap.len() && parent(j)
                        == index implies heap[child as int]
                        <= #[trigger] heap[j] by {
                        assert(j == left || j == left + 1);
                    }
                }
                self.heap.set(index, low);
                self.heap.set(child, high);
                proof {
                    assert(self.heap@ =~= heap.update(index as int, low).update(
                        child as int,
                        high,
                    ));
                    lemma_down_step(heap, index as int, child as int);
                }
                index = child;
            }
        } else {
            proof {
                self.heap@.to_multiset_ensures();
                assert(self.heap@.to_multiset() =~= before.to_multiset().remove(least));
            }
        }
        Some(least)
    }
}

} // verus!
