use vstd::multiset::Multiset;
use vstd::prelude::*;

use crate::heap_item::HeapItem;

verus! {

/// `item` is in `m` and precedes every item of `m`.
pub open spec fn is_min_of(item: HeapItem, m: Multiset<HeapItem>) -> bool {
    &&& m.contains(item)
    &&& forall|x: HeapItem| m.contains(x) ==> item.precedes(x)
}

/// The item of `m` that precedes all others. Only meaningful for a non-empty `m`.
pub open spec fn min_item(m: Multiset<HeapItem>) -> HeapItem {
    choose|item: HeapItem| is_min_of(item, m)
}

/// A multiset has at most one minimum, because `precedes` is a total order.
pub proof fn lemma_min_unique(a: HeapItem, b: HeapItem, m: Multiset<HeapItem>)
    requires
        is_min_of(a, m),
        is_min_of(b, m),
    ensures
        a == b,
{
    assert(a.precedes(b));
    assert(b.precedes(a));
}

/// Whoever is a minimum of `m` is `min_item(m)`.
pub proof fn lemma_min_item(a: HeapItem, m: Multiset<HeapItem>)
    requires
        is_min_of(a, m),
    ensures
        min_item(m) == a,
{
    lemma_min_unique(a, min_item(m), m);
}

/// Taking out an item that is there leaves one item less.
pub proof fn lemma_remove_len(m: Multiset<HeapItem>, item: HeapItem)
    requires
        m.contains(item),
    ensures
        m.remove(item).len() == m.len() - 1,
{
    broadcast use vstd::multiset::group_multiset_axioms;

    assert(Multiset::singleton(item).subset_of(m)) by {
        assert forall|x: HeapItem| Multiset::singleton(item).count(x) <= m.count(x) by {
            if x != item {
            }
        }
    }
}

/// Every queue that holds something holds an item that precedes all others.
pub proof fn lemma_min_exists(m: Multiset<HeapItem>)
    requires
        m.len() > 0,
    ensures
        is_min_of(min_item(m), m),
    decreases m.len(),
{
    broadcast use vstd::multiset::group_multiset_axioms;

    let x = m.choose();
    assert(m.contains(x));
    lemma_remove_len(m, x);
    let rest = m.remove(x);
    if rest.len() == 0 {
        assert forall|y: HeapItem| m.contains(y) implies x.precedes(y) by {
            if y != x {
                assert(rest.contains(y));
            }
        }
        assert(is_min_of(x, m));
    } else {
        lemma_min_exists(rest);
        let least = min_item(rest);
        assert(rest.contains(least));
        assert(m.contains(least));
        let winner = if x.precedes(least) {
            x
        } else {
            least
        };
        assert forall|y: HeapItem| m.contains(y) implies winner.precedes(y) by {
            if y == x {
            } else {
                assert(rest.contains(y));
                assert(least.precedes(y));
            }
        }
        assert(is_min_of(winner, m));
    }
}

spec fn parent(i: int) -> int {
    (i - 1) / 2
}

/// Every entry but the root is preceded by its parent.
spec fn heap_ordered(s: Seq<HeapItem>) -> bool {
    forall|k: int| 1 <= k < s.len() ==> s[parent(k)].precedes(#[trigger] s[k])
}

/// Heap order everywhere but between `hole` and its parent (sifting up), with the
/// children of `hole` already above its parent.
spec fn ordered_but_above(s: Seq<HeapItem>, hole: int) -> bool {
    &&& forall|k: int| 1 <= k < s.len() && k != hole ==> s[parent(k)].precedes(#[trigger] s[k])
    &&& forall|k: int|
        1 <= k < s.len() && parent(k) == hole && hole >= 1 ==> s[parent(hole)].precedes(
            #[trigger] s[k],
        )
}

/// Heap order everywhere but between `hole` and its children (sifting down), with the
/// children of `hole` already above its parent.
spec fn ordered_but_below(s: Seq<HeapItem>, hole: int) -> bool {
    &&& forall|k: int|
        1 <= k < s.len() && parent(k) != hole ==> s[parent(k)].precedes(#[trigger] s[k])
    &&& forall|k: int|
        1 <= k < s.len() && parent(k) == hole && hole >= 1 ==> s[parent(hole)].precedes(
            #[trigger] s[k],
        )
}

proof fn lemma_root_precedes(s: Seq<HeapItem>, k: int)
    requires
        heap_ordered(s),
        0 <= k < s.len(),
    ensures
        s[0].precedes(s[k]),
    decreases k,
{
    if k > 0 {
        lemma_root_precedes(s, parent(k));
        assert(s[parent(k)].precedes(s[k]));
    }
}

proof fn lemma_root_is_min(s: Seq<HeapItem>)
    requires
        heap_ordered(s),
        s.len() > 0,
    ensures
        is_min_of(s[0], s.to_multiset()),
        min_item(s.to_multiset()) == s[0],
{
    broadcast use vstd::seq_lib::group_to_multiset_ensures;

    assert(s.contains(s[0]));
    assert forall|x: HeapItem| s.to_multiset().contains(x) implies s[0].precedes(x) by {
        assert(s.contains(x));
        let k = choose|k: int| 0 <= k < s.len() && s[k] == x;
        lemma_root_precedes(s, k);
    }
    lemma_min_item(s[0], s.to_multiset());
}

proof fn lemma_swap_keeps_items(s: Seq<HeapItem>, i: int, j: int)
    requires
        0 <= i < s.len(),
        0 <= j < s.len(),
    ensures
        s.update(i, s[j]).update(j, s[i]).to_multiset() == s.to_multiset(),
{
    broadcast use vstd::seq_lib::group_to_multiset_ensures;

    assert(s.contains(s[i]));
    assert(s.contains(s[j]));
    if i == j {
        assert(s.update(i, s[j]).update(j, s[i]) =~= s);
    } else {
        let t = s.update(i, s[j]);
        assert(t.to_multiset() == s.to_multiset().insert(s[j]).remove(s[i]));
        assert(t[j] == s[j]);
        assert(t.update(j, s[i]).to_multiset() == t.to_multiset().insert(s[i]).remove(s[j]));
        assert(t.update(j, s[i]).to_multiset() =~= s.to_multiset());
    }
}

/// A queue of heap items that hands out the item that precedes all others.
pub struct MinHeap {
    items: Vec<HeapItem>,
}

impl View for MinHeap {
    type V = Multiset<HeapItem>;

    /// What the queue holds, each item as often as it was pushed and not yet popped.
    closed spec fn view(&self) -> Multiset<HeapItem> {
        self.items@.to_multiset()
    }
}

impl MinHeap {
    pub closed spec fn wf(&self) -> bool {
        heap_ordered(self.items@)
    }

    pub fn new() -> (heap: Self)
        ensures
            heap.wf(),
            heap@ == Multiset::<HeapItem>::empty(),
    {
        let heap = MinHeap { items: Vec::new() };
        proof {
            broadcast use vstd::seq_lib::group_to_multiset_ensures;

            assert(heap@ =~= Multiset::<HeapItem>::empty());
        }
        heap
    }

    pub fn len(&self) -> (n: usize)
        ensures
            n == self@.len(),
    {
        proof {
            broadcast use vstd::seq_lib::group_to_multiset_ensures;

        }
        self.items.len()
    }

    pub fn is_empty(&self) -> (empty: bool)
        ensures
            empty == (self@.len() == 0),
    {
        proof {
            broadcast use vstd::seq_lib::group_to_multiset_ensures;

        }
        self.items.len() == 0
    }

    pub fn clear(&mut self)
        ensures
            final(self).wf(),
            final(self)@ == Multiset::<HeapItem>::empty(),
    {
        self.items.clear();
        proof {
            broadcast use vstd::seq_lib::group_to_multiset_ensures;

            assert(self@ =~= Multiset::<HeapItem>::empty());
        }
    }

    /// The item that `pop` would hand out.
    pub fn peek(&self) -> (top: Option<HeapItem>)
        requires
            self.wf(),
        ensures
            self@.len() == 0 ==> top is None,
            self@.len() > 0 ==> top == Some(min_item(self@)) && is_min_of(min_item(self@), self@),
    {
        proof {
            broadcast use vstd::seq_lib::group_to_multiset_ensures;

        }
        if self.items.len() == 0 {
            None
        } else {
            proof {
                lemma_root_is_min(self.items@);
            }
            Some(self.items[0])
        }
    }

    pub fn push(&mut self, item: HeapItem)
        requires
            old(self).wf(),
        ensures
            final(self).wf(),
            final(self)@ == old(self)@.insert(item),
    {
        self.items.push(item);
        proof {
            broadcast use vstd::seq_lib::group_to_multiset_ensures;

            assert(self.items@ == old(self).items@.push(item));
        }
        let ghost all = self.items@.to_multiset();
        let mut i: usize = self.items.len() - 1;
        while i > 0
            invariant_except_break
                ordered_but_above(self.items@, i as int),
            invariant
                0 <= i < self.items@.len(),
                self.items@.to_multiset() == all,
            ensures
                heap_ordered(self.items@),
            decreases i,
        {
            let p: usize = (i - 1) / 2;
            let child = self.items[i];
            let par = self.items[p];
            if par.comes_before(&child) {
                break;
            }
            let ghost before = self.items@;
            self.items[i] = par;
            self.items[p] = child;
            proof {
                lemma_swap_keeps_items(before, i as int, p as int);
                assert(self.items@ == before.update(i as int, before[p as int]).update(
                    p as int,
                    before[i as int],
                ));
                assert(child.precedes(par));
                assert forall|k: int| 1 <= k < self.items@.len() && k != p implies self.items@[parent(
                    k,
                )].precedes(#[trigger] self.items@[k]) by {
                    if k == i {
                    } else if parent(k) == i {
                        assert(before[parent(i as int)].precedes(before[k]));
                    } else if parent(k) == p {
                        assert(before[parent(k)].precedes(before[k]));
                    } else {
                        assert(before[parent(k)].precedes(before[k]));
                    }
                }
                assert forall|k: int|
                    1 <= k < self.items@.len() && parent(k) == p && p >= 1 implies self.items@[parent(
                    p as int,
                )].precedes(#[trigger] self.items@[k]) by {
                    assert(before[parent(p as int)].precedes(before[p as int]));
                    if k == i {
                    } else {
                        assert(before[parent(k)].precedes(before[k]));
                    }
                }
            }
            i = p;
        }
    }

    /// Takes out the item that precedes all others.
    pub fn pop(&mut self) -> (top: Option<HeapItem>)
        requires
            old(self).wf(),
        ensures
            final(self).wf(),
            old(self)@.len() == 0 ==> top is None && final(self)@ == old(self)@,
            old(self)@.len() > 0 ==> top == Some(min_item(old(self)@)) && final(self)@ == old(
                self,
            )@.remove(min_item(old(self)@)) && is_min_of(min_item(old(self)@), old(self)@),
    {
        proof {
            broadcast use vstd::seq_lib::group_to_multiset_ensures;

        }
        let n = self.items.len();
        if n == 0 {
            return None;
        }
        let top = self.items[0];
        let last = self.items[n - 1];
        proof {
            lemma_root_is_min(self.items@);
            lemma_swap_keeps_items(self.items@, 0, n - 1);
        }
        let ghost swapped = self.items@.update(0, last).update(n - 1, top);
        self.items[0] = last;
        self.items.pop();
        proof {
            assert(self.items@ =~= swapped.remove(n - 1));
            assert(swapped[n - 1] == top);
            assert(self.items@.to_multiset() == old(self)@.remove(top));
        }
        let ghost all = self.items@.to_multiset();
        let len = self.items.len();
        let mut i: usize = 0;
        while i < len / 2
            invariant
                len == self.items@.len(),
                0 <= i,
                self.items@.to_multiset() == all,
                ordered_but_below(self.items@, i as int),
                old(self)@.len() > 0,
                top == min_item(old(self)@),
                is_min_of(top, old(self)@),
                all == old(self)@.remove(top),
            decreases len - i,
        {
            let left: usize = 2 * i + 1;
            let right: usize = left + 1;
            let mut c: usize = left;
            if right < len {
                let l = self.items[left];
                let r = self.items[right];
                if !l.comes_before(&r) {
                    c = right;
                }
            }
            let cur = self.items[i];
            let child = self.items[c];
            if cur.comes_before(&child) {
                proof {
                    assert forall|k: int|
                        1 <= k < self.items@.len() implies self.items@[parent(k)].precedes(
                        #[trigger] self.items@[k],
                    ) by {
                        if parent(k) == i {
                            assert(k == left || k == right);
                        }
                    }
                }
                return Some(top);
            }
            let ghost before = self.items@;
            self.items[i] = child;
            self.items[c] = cur;
            proof {
                lemma_swap_keeps_items(before, i as int, c as int);
                assert(self.items@ == before.update(i as int, before[c as int]).update(
                    c as int,
                    before[i as int],
                ));
                assert(child.precedes(cur));
                assert forall|k: int|
                    1 <= k < self.items@.len() && parent(k) != c implies self.items@[parent(
                    k,
                )].precedes(#[trigger] self.items@[k]) by {
                    if k == c {
                    } else if parent(k) == i {
                        assert(k == left || k == right);
                    } else if k == i {
                        assert(before[parent(i as int)].precedes(before[c as int]));
                    } else {
                        assert(before[parent(k)].precedes(before[k]));
                    }
                }
                assert forall|k: int|
                    1 <= k < self.items@.len() && parent(k) == c && c >= 1 implies self.items@[parent(
                    c as int,
                )].precedes(#[trigger] self.items@[k]) by {
                    assert(before[parent(k)].precedes(before[k]));
                }
            }
            i = c;
        }
        proof {
            assert forall|k: int| 1 <= k < self.items@.len() implies self.items@[parent(k)].precedes(
                #[trigger] self.items@[k],
            ) by {
                if parent(k) == i {
                }
            }
        }
        Some(top)
    }
}

} // verus!
