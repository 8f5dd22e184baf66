//! A binary min-heap of search nodes ordered by a pair of costs.
use vstd::prelude::*;
use vstd::multiset::Multiset;

verus! {

broadcast use vstd::seq_lib::group_to_multiset_ensures;

/// A heap entry: the cost pair it is ordered by (compared first by the first cost, then
/// by the second) and the index of the node it stands for.
pub type HeapItem = (u64, u64, usize);

/// `a` comes no later than `b`.
pub open spec fn item_le(a: HeapItem, b: HeapItem) -> bool {
    a.0 < b.0 || (a.0 == b.0 && a.1 <= b.1)
}

pub open spec fn parent(i: int) -> int {
    (i - 1) / 2
}

/// Every entry comes no earlier than its parent.
pub open spec fn heap_order(s: Seq<HeapItem>) -> bool {
    forall|i: int| 0 < i < s.len() ==> item_le(s[parent(i)], #[trigger] s[i])
}

/// A priority queue that hands out the entry with the smallest cost pair first.
pub struct MinHeap {
    pub items: Vec<HeapItem>,
}

impl View for MinHeap {
    type V = Multiset<HeapItem>;

    open spec fn view(&self) -> Multiset<HeapItem> {
        self.items@.to_multiset()
    }
}

/// The root of a heap comes no later than any entry.
proof fn lemma_root_min(s: Seq<HeapItem>, i: int)
    requires
        heap_order(s),
        0 <= i < s.len(),
    ensures
        item_le(s[0], s[i]),
    decreases i,
{
    if i > 0 {
        lemma_root_min(s, parent(i));
        assert(item_le(s[parent(i)], s[i]));
    }
}

/// Swapping two entries keeps the multiset of entries.
proof fn lemma_swap_multiset(s: Seq<HeapItem>, i: int, j: int)
    requires
        0 <= i < s.len(),
        0 <= j < s.len(),
    ensures
        s.update(i, s[j]).update(j, s[i]).to_multiset() == s.to_multiset(),
{
    broadcast use vstd::multiset::group_multiset_axioms;

    let t = s.update(i, s[j]);
    assert(t[j] == if i == j { s[j] } else { s[j] });
    assert(t.update(j, s[i]).to_multiset() =~= s.to_multiset());
}

impl MinHeap {
    pub open spec fn wf(&self) -> bool {
        heap_order(self.items@)
    }

    pub fn new() -> (h: MinHeap)
        ensures
            h.wf(),
            h@ == Multiset::<HeapItem>::empty(),
    {
        MinHeap { items: Vec::new() }
    }

    pub fn len(&self) -> (n: usize)
        ensures
            n == self@.len(),
    {
        self.items.len()
    }

    fn swap(&mut self, i: usize, j: usize)
        requires
            i < old(self).items@.len(),
            j < old(self).items@.len(),
        ensures
            final(self).items@ == old(self).items@.update(i as int, old(self).items@[j as int]).update(
                j as int,
                old(self).items@[i as int],
            ),
            final(self)@ == old(self)@,
    {
        let a = self.items[i];
        let b = self.items[j];
        proof {
            lemma_swap_multiset(self.items@, i as int, j as int);
        }
        self.items.set(i, b);
        self.items.set(j, a);
    }

    /// Adds an entry.
    pub fn push(&mut self, item: HeapItem)
        requires
            old(self).wf(),
        ensures
            final(self).wf(),
            final(self)@ == old(self)@.insert(item),
    {
        self.items.push(item);
        let mut k: usize = self.items.len() - 1;
        while k > 0
            invariant
                k < self.items@.len(),
                self@ == old(self)@.insert(item),
                forall|i: int| 0 < i < self.items@.len() && i != k ==> item_le(self.items@[parent(i)], #[trigger] self.items@[i]),
                forall|i: int|
                    0 < i < self.items@.len() && parent(i) == k && k > 0 ==> item_le(
                        self.items@[parent(k as int)],
                        #[trigger] self.items@[i],
                    ),
            ensures
                heap_order(self.items@),
                self@ == old(self)@.insert(item),
            decreases k,
        {
            let p = (k - 1) / 2;
            let a = self.items[k];
            let b = self.items[p];
            if a.0 < b.0 || (a.0 == b.0 && a.1 < b.1) {
                let ghost s = self.items@;
                self.swap(k, p);
                proof {
                    assert forall|i: int| 0 < i < self.items@.len() && i != p implies item_le(self.items@[parent(i)], #[trigger] self.items@[i]) by {
                        if i == k as int {
                        } else if parent(i) == k as int {
                            assert(item_le(s[parent(k as int)], s[i]));
                        } else if parent(i) == p as int {
                            assert(item_le(s[p as int], s[i]));
                        } else {
                            assert(item_le(s[parent(i)], s[i]));
                        }
                    }
                    assert forall|i: int|
                        0 < i < self.items@.len() && parent(i) == p && p > 0 implies item_le(
                            self.items@[parent(p as int)],
                            #[trigger] self.items@[i],
                        ) by {
                        assert(item_le(s[parent(p as int)], s[p as int]));
                        if i != k as int {
                            assert(item_le(s[p as int], s[i]));
                        }
                    }
                }
                k = p;
            } else {
                proof {
                    assert forall|i: int| 0 < i < self.items@.len() implies item_le(self.items@[parent(i)], #[trigger] self.items@[i]) by {
                        if i == k as int {
                        }
                    }
                }
                break;
            }
        }
    }

    /// Removes and returns an entry whose cost pair comes no later than any other entry's;
    /// `None` when the heap is empty.
    pub fn pop(&mut self) -> (r: Option<HeapItem>)
        requires
            old(self).wf(),
        ensures
            final(self).wf(),
            match r {
                None => old(self)@.len() == 0 && final(self)@ == old(self)@,
                Some(x) => {
                    &&& old(self)@.contains(x)
                    &&& final(self)@ == old(self)@.remove(x)
                    &&& forall|y: HeapItem| old(self)@.contains(y) ==> item_le(x, y)
                },
            },
    {
        if self.items.len() == 0 {
            return None;
        }
        let ghost s0 = self.items@;
        let top = self.items[0];
        proof {
            assert forall|y: HeapItem| s0.to_multiset().contains(y) implies item_le(top, y) by {
                assert(s0.contains(y));
                let i = choose|i: int| 0 <= i < s0.len() && s0[i] == y;
                lemma_root_min(s0, i);
            }
        }
        let n = self.items.len();
        self.swap(0, n - 1);
        let last = self.items.pop().unwrap();
        proof {
            assert(last == top);
            let s1 = s0.update(0, s0[n - 1]).update(n - 1, s0[0]);
            assert(s1.drop_last() == self.items@);
            assert(s1 == self.items@.push(top));
            assert(self.items@.push(top).to_multiset() == self.items@.to_multiset().insert(top));
            assert(self.items@.to_multiset() =~= s0.to_multiset().remove(top));
        }
        let len = self.items.len();
        let mut k: usize = 0;
        while k < len
            invariant
                len == self.items@.len(),
                self@ == s0.to_multiset().remove(top),
                forall|i: int| 0 < i < self.items@.len() && parent(i) != k ==> item_le(self.items@[parent(i)], #[trigger] self.items@[i]),
                forall|i: int|
                    0 < i < self.items@.len() && parent(i) == k && k > 0 ==> item_le(
                        self.items@[parent(k as int)],
                        #[trigger] self.items@[i],
                    ),
            ensures
                heap_order(self.items@),
                self@ == s0.to_multiset().remove(top),
            decreases len - k,
        {
            if k >= len / 2 {
                proof {
                    assert forall|i: int| 0 < i < self.items@.len() implies item_le(self.items@[parent(i)], #[trigger] self.items@[i]) by {
                        if parent(i) == k as int {
                            assert(2 * k + 1 <= i);
                        }
                    }
                }
                break;
            }
            let l = 2 * k + 1;
            let r = l + 1;
            let c = if r < len && (self.items[r].0 < self.items[l].0 || (self.items[r].0 == self.items[l].0 && self.items[r].1 < self.items[l].1)) {
                r
            } else {
                l
            };
            let a = self.items[c];
            let b = self.items[k];
            if a.0 < b.0 || (a.0 == b.0 && a.1 < b.1) {
                let ghost s = self.items@;
                self.swap(c, k);
                proof {
                    assert(parent(c as int) == k);
                    assert forall|i: int| 0 < i < self.items@.len() && parent(i) != c implies item_le(self.items@[parent(i)], #[trigger] self.items@[i]) by {
                        if i == c as int {
                        } else if parent(i) == k as int {
                            assert(i == l || i == r);
                        } else if i == k as int {
                            assert(item_le(s[parent(k as int)], s[c as int]));
                        } else {
                            assert(item_le(s[parent(i)], s[i]));
                        }
                    }
                    assert forall|i: int|
                        0 < i < self.items@.len() && parent(i) == c && c > 0 implies item_le(
                            self.items@[parent(c as int)],
                            #[trigger] self.items@[i],
                        ) by {
                        assert(item_le(s[c as int], s[i]));
                    }
                }
                k = c;
            } else {
                proof {
                    assert forall|i: int| 0 < i < self.items@.len() implies item_le(self.items@[parent(i)], #[trigger] self.items@[i]) by {
                        if parent(i) == k as int {
                            assert(i == l || i == r);
                        }
                    }
                }
                break;
            }
        }
        Some(top)
    }
}

} // verus!
