//! The frontier of the two cost-ordered searches: a binary heap that gives
//! out the entry of least priority first.

use vstd::multiset::Multiset;
use vstd::prelude::*;

verus! {

broadcast use vstd::seq_lib::group_to_multiset_ensures;

/// An entry `(priority, cost, node)`.
pub type Entry = (u64, u64, usize);

/// `a` leaves the heap no later than `b`: it has the lower priority or, at
/// the same priority, the higher cost or, at the same cost too, the higher
/// or the same node.
pub open spec fn precedes(a: Entry, b: Entry) -> bool {
    a.0 < b.0 || (a.0 == b.0 && (a.1 > b.1 || (a.1 == b.1 && a.2 >= b.2)))
}

/// The place above place `k` in the heap.
pub open spec fn above(k: int) -> int {
    (k - 1) / 2
}

/// Every item but the one at `hole` comes no earlier than the item above it,
/// and the items below `hole` come no earlier than the item above `hole`.
pub open spec fn ordered_but(items: Seq<Entry>, hole: int) -> bool {
    &&& forall|k: int|
        0 < k < items.len() && k != hole ==> precedes(items[above(k)], #[trigger] items[k])
    &&& forall|k: int|
        0 < k < items.len() && above(k) == hole && hole > 0 ==> precedes(
            items[above(hole)],
            #[trigger] items[k],
        )
}

/// Every item comes no earlier than the item above it, but for the items
/// just below `hole`; these come no earlier than the item above `hole`.
pub open spec fn ordered_below(items: Seq<Entry>, hole: int) -> bool {
    &&& forall|k: int|
        0 < k < items.len() && above(k) != hole ==> precedes(items[above(k)], #[trigger] items[k])
    &&& forall|k: int|
        0 < k < items.len() && above(k) == hole && hole > 0 ==> precedes(
            items[above(hole)],
            #[trigger] items[k],
        )
}

/// Every item comes no earlier than the item above it.
pub open spec fn ordered(items: Seq<Entry>) -> bool {
    forall|k: int| 0 < k < items.len() ==> precedes(items[above(k)], #[trigger] items[k])
}

/// In an ordered heap the first item precedes every item.
pub proof fn lemma_first_precedes(items: Seq<Entry>, k: int)
    requires
        ordered(items),
        0 <= k < items.len(),
    ensures
        precedes(items[0], items[k]),
    decreases k,
{
    if k > 0 {
        lemma_first_precedes(items, above(k));
        assert(precedes(items[above(k)], items[k]));
    }
}

/// Exchanging two items keeps what the sequence holds.
pub proof fn lemma_exchange(items: Seq<Entry>, i: int, j: int)
    requires
        0 <= i < items.len(),
        0 <= j < items.len(),
    ensures
        items.update(i, items[j]).update(j, items[i]).to_multiset() == items.to_multiset(),
{
    let mid = items.update(i, items[j]);
    assert(mid.to_multiset() == items.to_multiset().insert(items[j]).remove(items[i]));
    assert(mid.update(j, items[i]).to_multiset() == mid.to_multiset().insert(items[i]).remove(
        mid[j],
    ));
    if i == j {
        assert(items.update(i, items[j]).update(j, items[i]) =~= items);
    } else {
        assert(mid[j] == items[j]);
        assert(items.to_multiset().insert(items[j]).remove(items[i]).insert(items[i]).remove(
            items[j],
        ) =~= items.to_multiset());
    }
}

/// A binary heap of entries, the one that precedes all others at the top.
pub struct MinHeap {
    items: Vec<Entry>,
}

/// Whether `a` leaves the heap no later than `b`.
fn comes_first(a: Entry, b: Entry) -> (r: bool)
    ensures
        r == precedes(a, b),
{
    a.0 < b.0 || (a.0 == b.0 && (a.1 > b.1 || (a.1 == b.1 && a.2 >= b.2)))
}

impl View for MinHeap {
    type V = Multiset<Entry>;

    /// What the heap holds.
    closed spec fn view(&self) -> Multiset<Entry> {
        self.items@.to_multiset()
    }
}

impl MinHeap {
    /// The items lie in heap order.
    pub closed spec fn wf(&self) -> bool {
        ordered(self.items@)
    }

    /// An empty heap.
    pub fn new() -> (h: Self)
        ensures
            h.wf(),
            h@ == Multiset::<Entry>::empty(),
    {
        let h = MinHeap { items: Vec::new() };
        assert(h.items@.to_multiset() =~= Multiset::<Entry>::empty());
        h
    }

    /// The number of entries held.
    pub fn len(&self) -> (n: usize)
        ensures
            n == self@.len(),
    {
        self.items.len()
    }

    /// Exchanges the items at two places.
    fn exchange(&mut self, i: usize, j: usize)
        requires
            i < old(self).items.len(),
            j < old(self).items.len(),
        ensures
            final(self).items@ == old(self).items@.update(i as int, old(self).items[j as int]).update(
                j as int,
                old(self).items[i as int],
            ),
            final(self)@ == old(self)@,
    {
        let a = self.items[i];
        let b = self.items[j];
        self.items[i] = b;
        self.items[j] = a;
        proof {
            lemma_exchange(old(self).items@, i as int, j as int);
        }
    }

    /// Adds an entry.
    pub fn push(&mut self, item: Entry)
        requires
            old(self).wf(),
        ensures
            final(self).wf(),
            final(self)@ == old(self)@.insert(item),
    {
        self.items.push(item);
        let mut i = self.items.len() - 1;
        while i > 0
            invariant
                i < self.items.len(),
                self@ == old(self)@.insert(item),
                ordered_but(self.items@, i as int),
            ensures
                ordered(self.items@),
            decreases i,
        {
            let up = (i - 1) / 2;
            if comes_first(self.items[up], self.items[i]) {
                break ;
            }
            let ghost was = self.items@;
            self.exchange(up, i);
            proof {
                let now = self.items@;
                assert forall|k: int| 0 < k < now.len() && k != up implies precedes(
                    now[above(k)],
                    #[trigger] now[k],
                ) by {
                    if k == i {
                    } else if above(k) == i {
                        assert(precedes(was[above(i as int)], was[k]));
                    } else if above(k) == up {
                        assert(precedes(was[above(k)], was[k]));
                    } else {
                        assert(precedes(was[above(k)], was[k]));
                    }
                }
                assert forall|k: int| 0 < k < now.len() && above(k) == up && up > 0 implies precedes(
                    now[above(up as int)],
                    #[trigger] now[k],
                ) by {
                    assert(precedes(was[above(up as int)], was[up as int]));
                    if k != i {
                        assert(precedes(was[above(k)], was[k]));
                    }
                }
            }
            i = up;
        }
    }

    /// Takes out the entry that precedes all others.
    pub fn pop(&mut self) -> (r: Option<Entry>)
        requires
            old(self).wf(),
        ensures
            final(self).wf(),
            match r {
                Some(x) => {
                    &&& old(self)@.count(x) > 0
                    &&& final(self)@ == old(self)@.remove(x)
                    &&& forall|y: Entry| old(self)@.count(y) > 0 ==> precedes(x, y)
                },
                None => old(self)@.len() == 0 && final(self)@ == old(self)@,
            },
    {
        let n = self.items.len();
        if n == 0 {
            return None;
        }
        let top = self.items[0];
        proof {
            assert forall|y: Entry| old(self)@.count(y) > 0 implies precedes(top, y) by {
                let k = choose|k: int| 0 <= k < self.items@.len() && self.items@[k] == y;
                lemma_first_precedes(self.items@, k);
            }
        }
        self.exchange(0, n - 1);
        let ghost mixed = self.items@;
        self.items.pop();
        proof {
            assert(self.items@ =~= mixed.remove(n - 1));
        }
        let len = n - 1;
        let mut i: usize = 0;
        while i < len / 2
            invariant
                len == self.items.len(),
                self@ == old(self)@.remove(top),
                ordered_below(self.items@, i as int),
            ensures
                ordered(self.items@),
            decreases len - i,
        {
            let left = 2 * i + 1;
            let right = left + 1;
            let down = if right < len && comes_first(self.items[right], self.items[left]) {
                right
            } else {
                left
            };
            if comes_first(self.items[i], self.items[down]) {
                proof {
                    let now = self.items@;
                    assert forall|k: int| 0 < k < now.len() implies precedes(
                        now[above(k)],
                        #[trigger] now[k],
                    ) by {
                        if above(k) == i {
                            assert(k == left || k == right);
                        }
                    }
                }
                break ;
            }
            let ghost was = self.items@;
            self.exchange(i, down);
            proof {
                let now = self.items@;
                assert forall|k: int| 0 < k < now.len() && above(k) != down implies precedes(
                    now[above(k)],
                    #[trigger] now[k],
                ) by {
                    if above(k) == i {
                        assert(k == left || k == right);
                    } else if k == i {
                        assert(precedes(was[above(i as int)], was[down as int]));
                    } else {
                        assert(precedes(was[above(k)], was[k]));
                    }
                }
                assert forall|k: int|
                    0 < k < now.len() && above(k) == down && down > 0 implies precedes(
                    now[above(down as int)],
                    #[trigger] now[k],
                ) by {
                    assert(precedes(was[above(k)], was[k]));
                }
            }
            i = down;
        }
        proof {
            if i >= len / 2 {
                let now = self.items@;
                assert forall|k: int| 0 < k < now.len() implies precedes(
                    now[above(k)],
                    #[trigger] now[k],
                ) by {
                    assert(above(k) != i);
                }
            }
        }
        Some(top)
    }
}

} // verus!
