//! A binary min-heap of states keyed by accumulated cost.
//!
//! The heap is the frontier of the search: it hands back an entry of least
//! cost first.  Among entries of equal cost the order is left open.

use vstd::multiset::Multiset;
use vstd::prelude::*;
use vstd::seq_lib::to_multiset_update;

verus! {

/// The index of the parent of slot `i` in the implicit binary tree.
pub open spec fn parent(i: int) -> int {
    (i - 1) / 2
}

/// Every slot but `hole` costs at least as much as its parent.
pub open spec fn ordered_except<N>(s: Seq<(N, usize)>, hole: int) -> bool {
    forall|i: int| 0 < i < s.len() && i != hole ==> s[parent(i)].1 <= (#[trigger] s[i]).1
}

/// Every slot whose parent is not `hole` costs at least as much as its parent.
pub open spec fn ordered_below<N>(s: Seq<(N, usize)>, hole: int) -> bool {
    forall|i: int| 0 < i < s.len() && parent(i) != hole ==> s[parent(i)].1 <= (#[trigger] s[i]).1
}

/// The children of `hole` cost at least as much as the parent of `hole`.
pub open spec fn bridged<N>(s: Seq<(N, usize)>, hole: int) -> bool {
    forall|i: int|
        0 < i < s.len() && parent(i) == hole && hole > 0 ==> s[parent(hole)].1 <= (#[trigger] s[i]).1
}

/// The heap order: every slot costs at least as much as its parent.
pub open spec fn heap_ordered<N>(s: Seq<(N, usize)>) -> bool {
    forall|i: int| 0 < i < s.len() ==> s[parent(i)].1 <= (#[trigger] s[i]).1
}

/// `s` with the entries in slots `i` and `j` exchanged.
pub open spec fn swapped<N>(s: Seq<(N, usize)>, i: int, j: int) -> Seq<(N, usize)> {
    s.update(i, s[j]).update(j, s[i])
}

/// In a heap-ordered sequence no slot costs less than the root.
pub proof fn lemma_root_is_least<N>(s: Seq<(N, usize)>, i: int)
    requires
        heap_ordered(s),
        0 <= i < s.len(),
    ensures
        s[0].1 <= s[i].1,
    decreases i,
{
    if i > 0 {
        lemma_root_is_least(s, parent(i));
    }
}

/// Exchanging two slots keeps the entries, counted with multiplicity.
pub proof fn lemma_swapped_same_entries<N>(s: Seq<(N, usize)>, i: int, j: int)
    requires
        0 <= i < s.len(),
        0 <= j < s.len(),
    ensures
        swapped(s, i, j).to_multiset() == s.to_multiset(),
{
    to_multiset_update(s, i, s[j]);
    to_multiset_update(s.update(i, s[j]), j, s[i]);
    s.to_multiset_ensures();
    assert(s.contains(s[i]));
    assert(s.contains(s[j]));
    assert(swapped(s, i, j).to_multiset() =~= s.to_multiset());
}

/// One step of sifting up: exchanging an entry with a costlier parent moves
/// the hole to the parent.
proof fn lemma_sift_up_step<N>(s: Seq<(N, usize)>, pos: int)
    requires
        0 < pos < s.len(),
        ordered_except(s, pos),
        bridged(s, pos),
        s[parent(pos)].1 > s[pos].1,
    ensures
        ordered_except(swapped(s, parent(pos), pos), parent(pos)),
        bridged(swapped(s, parent(pos), pos), parent(pos)),
{
    let up = parent(pos);
    let t = swapped(s, up, pos);
    assert forall|i: int| 0 < i < t.len() && i != up implies t[parent(i)].1 <= (#[trigger] t[i]).1 by {
        if i == pos {
        } else if parent(i) == pos {
            assert(s[parent(pos)].1 <= s[i].1);
        } else if parent(i) == up {
            assert(s[up].1 <= s[i].1);
        } else {
            assert(s[parent(i)].1 <= s[i].1);
        }
    }
    assert forall|i: int| 0 < i < t.len() && parent(i) == up && up > 0 implies t[parent(up)].1 <= (
    #[trigger] t[i]).1 by {
        assert(s[parent(up)].1 <= s[up].1);
        if i != pos {
            assert(s[up].1 <= s[i].1);
        }
    }
}

/// One step of sifting down: exchanging an entry with its cheapest child,
/// where that child is cheaper, moves the hole to the child.
proof fn lemma_sift_down_step<N>(s: Seq<(N, usize)>, pos: int, child: int)
    requires
        0 <= pos < child < s.len(),
        parent(child) == pos,
        ordered_below(s, pos),
        bridged(s, pos),
        s[child].1 < s[pos].1,
        forall|i: int| 0 < i < s.len() && parent(i) == pos ==> s[child].1 <= (#[trigger] s[i]).1,
    ensures
        ordered_below(swapped(s, pos, child), child),
        bridged(swapped(s, pos, child), child),
{
    let t = swapped(s, pos, child);
    assert forall|i: int| 0 < i < t.len() && parent(i) != child implies t[parent(i)].1 <= (
    #[trigger] t[i]).1 by {
        if i == child {
        } else if parent(i) == pos {
            assert(s[child].1 <= s[i].1);
        } else if i == pos {
            assert(s[parent(pos)].1 <= s[child].1);
        } else {
            assert(s[parent(i)].1 <= s[i].1);
        }
    }
    assert forall|i: int| 0 < i < t.len() && parent(i) == child && child > 0 implies t[parent(
        child,
    )].1 <= (#[trigger] t[i]).1 by {
        assert(s[child].1 <= s[i].1);
    }
}

/// Exchanges the entries in slots `i` and `j`.
fn exchange<N>(v: &mut Vec<(N, usize)>, i: usize, j: usize)
    requires
        i < j < old(v).len(),
    ensures
        final(v)@ == swapped(old(v)@, i as int, j as int),
{
    let s = v.as_mut_slice();
    let (a, b) = s.split_at_mut(j);
    core::mem::swap(&mut a[i], &mut b[0]);
}

/// A priority queue of `(state, cost)` entries that yields an entry of least
/// cost first.
pub struct MinHeap<N> {
    entries: Vec<(N, usize)>,
}

impl<N> View for MinHeap<N> {
    type V = Multiset<(N, usize)>;

    closed spec fn view(&self) -> Multiset<(N, usize)> {
        self.entries@.to_multiset()
    }
}

impl<N> MinHeap<N> {
    /// The slots are in heap order.
    pub closed spec fn wf(&self) -> bool {
        heap_ordered(self.entries@)
    }

    /// An empty heap.
    pub fn new() -> (heap: Self)
        ensures
            heap.wf(),
            heap@ == Multiset::<(N, usize)>::empty(),
    {
        let heap = MinHeap { entries: Vec::new() };
        assert(heap.entries@.to_multiset() =~= Multiset::<(N, usize)>::empty()) by {
            heap.entries@.to_multiset_ensures();
        }
        heap
    }

    /// The number of entries.
    pub fn len(&self) -> (n: usize)
        ensures
            n == self@.len(),
    {
        proof {
            self.entries@.to_multiset_ensures();
        }
        self.entries.len()
    }

    /// Whether the heap holds no entry.
    pub fn is_empty(&self) -> (b: bool)
        ensures
            b <==> self@.len() == 0,
    {
        proof {
            self.entries@.to_multiset_ensures();
        }
        self.entries.len() == 0
    }

    /// Adds the entry `(value, cost)`.
    pub fn push(&mut self, value: N, cost: usize)
        requires
            old(self).wf(),
        ensures
            final(self).wf(),
            final(self)@ == old(self)@.insert((value, cost)),
    {
        proof {
            old(self).entries@.to_multiset_ensures();
        }
        self.entries.push((value, cost));
        let ghost pushed = self.entries@;
        let mut pos: usize = self.entries.len() - 1;
        while pos > 0 && self.entries[(pos - 1) / 2].1 > self.entries[pos].1
            invariant
                pos < self.entries.len(),
                self.entries@.len() == pushed.len(),
                self.entries@.to_multiset() == pushed.to_multiset(),
                ordered_except(self.entries@, pos as int),
                bridged(self.entries@, pos as int),
            decreases pos,
        {
            let up: usize = (pos - 1) / 2;
            proof {
                lemma_swapped_same_entries(self.entries@, up as int, pos as int);
                lemma_sift_up_step(self.entries@, pos as int);
            }
            exchange(&mut self.entries, up, pos);
            pos = up;
        }
    }

    /// Removes and returns an entry of least cost, or `None` from an empty
    /// heap.
    pub fn pop(&mut self) -> (least: Option<(N, usize)>)
        requires
            old(self).wf(),
        ensures
            final(self).wf(),
            match least {
                None => old(self)@.len() == 0 && final(self)@ == old(self)@,
                Some(e) => {
                    &&& old(self)@.contains(e)
                    &&& final(self)@ == old(self)@.remove(e)
                    &&& forall|x: (N, usize)| #[trigger] old(self)@.contains(x) ==> e.1 <= x.1
                },
            },
    {
        proof {
            old(self).entries@.to_multiset_ensures();
        }
        if self.entries.len() == 0 {
            return None;
        }
        let ghost before = self.entries@;
        let least = self.entries.swap_remove(0);
        proof {
            assert(before.contains(before[0]));
            assert forall|x: (N, usize)| #[trigger] before.to_multiset().contains(x) implies least.1
                <= x.1 by {
                let i = choose|i: int| 0 <= i < before.len() && before[i] == x;
                lemma_root_is_least(before, i);
            }
            lemma_swapped_same_entries(before, 0, before.len() - 1);
            let moved = swapped(before, 0, before.len() - 1);
            assert(self.entries@ =~= moved.remove(moved.len() - 1));
            moved.to_multiset_ensures();
        }
        let ghost removed = self.entries@;
        let n: usize = self.entries.len();
        let mut pos: usize = 0;
        loop
            invariant
                n == self.entries.len(),
                pos < n || n == 0,
                self.entries@.to_multiset() == removed.to_multiset(),
                ordered_below(self.entries@, pos as int),
                bridged(self.entries@, pos as int),
            ensures
                heap_ordered(self.entries@),
                self.entries@.to_multiset() == removed.to_multiset(),
            decreases n - pos,
        {
            if n < 2 || pos > (n - 2) / 2 {
                break ;
            }
            let left: usize = 2 * pos + 1;
            let mut child: usize = left;
            if left + 1 < n && self.entries[left + 1].1 < self.entries[left].1 {
                child = left + 1;
            }
            if self.entries[pos].1 <= self.entries[child].1 {
                break ;
            }
            proof {
                lemma_swapped_same_entries(self.entries@, pos as int, child as int);
                lemma_sift_down_step(self.entries@, pos as int, child as int);
            }
            exchange(&mut self.entries, pos, child);
            pos = child;
        }
        Some(least)
    }
}

} // verus!
