//! A binary min-heap in a growable array.

use vstd::prelude::*;
use vstd::multiset::Multiset;
use vstd::multiset::group_multiset_axioms;
use vstd::seq_lib::{to_multiset_build, to_multiset_contains, to_multiset_len, to_multiset_remove, to_multiset_update};

verus! {

/// The index of a node's parent in the array layout of the tree.
pub open spec fn parent_of(i: int) -> int {
    (i - 1) / 2
}

/// Every node whose parent lies at index `k` or beyond is no smaller than
/// that parent: the heap order holds on the bottom part of the tree.
pub open spec fn heap_from(s: Seq<i64>, k: int) -> bool {
    forall|c: int| 1 <= c < s.len() && parent_of(c) >= k ==> s[parent_of(c)] <= #[trigger] s[c]
}

/// The heap order holds everywhere.
pub open spec fn is_heap(s: Seq<i64>) -> bool {
    heap_from(s, 0)
}

/// The heap order holds everywhere, except that the node at `x` may be
/// smaller than its parent; its own children are still bounded by its
/// parent. The shape the array passes through while a light element
/// bubbles up.
spec fn heap_except_up(s: Seq<i64>, x: int) -> bool {
    &&& forall|c: int| 1 <= c < s.len() && c != x ==> s[parent_of(c)] <= #[trigger] s[c]
    &&& x >= 1 ==> forall|c: int|
        1 <= c < s.len() && parent_of(c) == x ==> s[parent_of(x)] <= #[trigger] s[c]
}

/// On the bottom part of the tree from `k` on, the heap order holds except
/// that the node at `x` may be larger than its children; they are still
/// bounded by `x`'s parent. The shape the array passes through while a
/// heavy element trickles down.
spec fn heap_from_except_down(s: Seq<i64>, k: int, x: int) -> bool {
    &&& forall|c: int|
        1 <= c < s.len() && parent_of(c) >= k && parent_of(c) != x ==> s[parent_of(c)] <= (
        #[trigger] s[c])
    &&& parent_of(x) >= k ==> forall|c: int|
        1 <= c < s.len() && parent_of(c) == x ==> s[parent_of(x)] <= #[trigger] s[c]
}

/// In a heap the root is a minimum.
proof fn lemma_heap_root_min(s: Seq<i64>, i: int)
    requires
        is_heap(s),
        0 <= i < s.len(),
    ensures
        s[0] <= s[i],
    decreases i,
{
    if i > 0 {
        lemma_heap_root_min(s, parent_of(i));
    }
}

/// Exchanging two elements of a sequence leaves its multiset unchanged.
proof fn lemma_swap_multiset(s: Seq<i64>, i: int, j: int)
    requires
        0 <= i < s.len(),
        0 <= j < s.len(),
    ensures
        s.update(i, s[j]).update(j, s[i]).to_multiset() == s.to_multiset(),
{
    broadcast use group_multiset_axioms, to_multiset_update, to_multiset_contains;

    if i == j {
        assert(s.update(i, s[j]).update(j, s[i]) =~= s);
    } else {
        let s1 = s.update(i, s[j]);
        assert(s1[j] == s[j]);
        assert(s.contains(s[i]));
        assert(s1.contains(s1[j]));
        assert(s1.update(j, s[i]).to_multiset() =~= s.to_multiset());
    }
}

/// A heavy element at `x` swapped with its least child `m` moves the hole
/// down to `m`.
proof fn lemma_trickle_swap(s: Seq<i64>, k: int, x: int, m: int)
    requires
        heap_from_except_down(s, k, x),
        0 <= k <= x,
        x < m < s.len(),
        parent_of(m) == x,
        s[x] > s[m],
        forall|c: int| 1 <= c < s.len() && parent_of(c) == x ==> s[m] <= #[trigger] s[c],
    ensures
        heap_from_except_down(s.update(x, s[m]).update(m, s[x]), k, m),
{
    let s2 = s.update(x, s[m]).update(m, s[x]);
    assert forall|c: int|
        1 <= c < s2.len() && parent_of(c) >= k && parent_of(c) != m implies s2[parent_of(c)] <= (
    #[trigger] s2[c]) by {
        if c == m {
        } else if parent_of(c) == x {
            assert(s[m] <= s[c]);
        } else if c == x {
            assert(s[parent_of(x)] <= s[m]);
        } else {
            assert(s[parent_of(c)] <= s[c]);
        }
    }
    assert forall|c: int| 1 <= c < s2.len() && parent_of(c) == m implies s2[parent_of(m)] <= (
    #[trigger] s2[c]) by {
        assert(parent_of(c) != x);
        assert(s[m] <= s[c]);
    }
}

/// A hole whose children are all at least the element in it is no hole:
/// the heap order holds outright.
proof fn lemma_trickle_done(s: Seq<i64>, k: int, x: int)
    requires
        heap_from_except_down(s, k, x),
        0 <= k,
        forall|c: int| 1 <= c < s.len() && parent_of(c) == x ==> s[x] <= #[trigger] s[c],
    ensures
        heap_from(s, k),
{
}

/// A light element at `x` swapped with its larger parent moves the hole up
/// to the parent.
proof fn lemma_bubble_swap(s: Seq<i64>, x: int)
    requires
        heap_except_up(s, x),
        1 <= x < s.len(),
        s[x] < s[parent_of(x)],
    ensures
        heap_except_up(s.update(x, s[parent_of(x)]).update(parent_of(x), s[x]), parent_of(x)),
{
    let p = parent_of(x);
    let s2 = s.update(x, s[p]).update(p, s[x]);
    assert forall|c: int| 1 <= c < s2.len() && c != p implies s2[parent_of(c)] <= (
    #[trigger] s2[c]) by {
        if c == x {
        } else if parent_of(c) == x {
            assert(s[parent_of(x)] <= s[c]);
        } else if parent_of(c) == p {
            assert(s[p] <= s[c]);
        } else {
            assert(s[parent_of(c)] <= s[c]);
        }
    }
    if p >= 1 {
        assert forall|c: int| 1 <= c < s2.len() && parent_of(c) == p implies s2[parent_of(p)] <= (
        #[trigger] s2[c]) by {
            assert(s[parent_of(p)] <= s[p]);
            if c != x {
                assert(s[p] <= s[c]);
            }
        }
    }
}

/// A hole no smaller than its parent, or sitting at the root, is no hole:
/// the heap order holds outright.
proof fn lemma_bubble_done(s: Seq<i64>, x: int)
    requires
        heap_except_up(s, x),
        0 <= x < s.len(),
        x == 0 || s[parent_of(x)] <= s[x],
    ensures
        is_heap(s),
{
    assert forall|c: int| 1 <= c < s.len() && parent_of(c) >= 0 implies s[parent_of(c)] <= (
    #[trigger] s[c]) by {
        if c != x {
            assert(s[parent_of(c)] <= s[c]);
        }
    }
}

/// A growable array holding its elements in heap order: every node is at
/// least its parent, so a minimum sits at the root.
#[derive(Debug)]
pub struct BinaryHeap {
    src: Vec<i64>,
    n: usize,
}

impl View for BinaryHeap {
    type V = Multiset<i64>;

    closed spec fn view(&self) -> Multiset<i64> {
        self.src@.to_multiset()
    }
}

impl BinaryHeap {
    /// The count mirrors the array and the heap order holds.
    pub closed spec fn wf(&self) -> bool {
        &&& self.n == self.src@.len()
        &&& is_heap(self.src@)
    }

    /// An empty heap.
    pub fn new() -> (r: Self)
        ensures
            r.wf(),
            r@ == Multiset::<i64>::empty(),
    {
        let r = Self { src: Vec::new(), n: 0 };
        proof {
            broadcast use group_multiset_axioms, to_multiset_len,
                vstd::multiset::lemma_multiset_empty_len;

            assert(r.src@.to_multiset().len() == 0);
        }
        r
    }

    /// The left child's index.
    fn left(idx: usize) -> (r: usize)
        requires
            idx < usize::MAX / 2,
        ensures
            r == 2 * idx + 1,
    {
        2 * idx + 1
    }

    /// The right child's index.
    fn right(idx: usize) -> (r: usize)
        requires
            idx < usize::MAX / 2,
        ensures
            r == 2 * idx + 2,
    {
        2 * idx + 2
    }

    /// The parent's index.
    fn parent(idx: usize) -> (r: usize)
        requires
            idx >= 1,
        ensures
            r == parent_of(idx as int),
    {
        (idx - 1) / 2
    }

    /// Whether the heap holds no elements.
    pub fn is_empty(&self) -> (r: bool)
        requires
            self.wf(),
        ensures
            r <==> self@.len() == 0,
    {
        proof {
            broadcast use to_multiset_len;

        }
        self.n == 0
    }

    /// Restores the heap order after the element at `i` was replaced by a
    /// possibly larger one, letting it sink below its children.
    fn trickle_down(&mut self, i: usize)
        requires
            old(self).n == old(self).src@.len(),
            heap_from(old(self).src@, i as int + 1),
        ensures
            final(self).n == final(self).src@.len(),
            final(self).n == old(self).n,
            heap_from(final(self).src@, i as int),
            final(self).src@.to_multiset() == old(self).src@.to_multiset(),
    {
        let mut cur = i;
        proof {
            assert(heap_from_except_down(self.src@, i as int, cur as int));
        }
        while cur < self.n / 2
            invariant
                i <= cur,
                self.n == self.src@.len(),
                self.n == old(self).n,
                heap_from_except_down(self.src@, i as int, cur as int),
                self.src@.to_multiset() == old(self).src@.to_multiset(),
            decreases self.n - cur,
        {
            let l = Self::left(cur);
            let r = Self::right(cur);
            let ghost s = self.src@;
            if r >= self.n {
                // only a left child, and it is the last node of the tree
                if self.src[cur] > self.src[l] {
                    let a = self.src[cur];
                    let b = self.src[l];
                    self.src[cur] = b;
                    self.src[l] = a;
                    proof {
                        lemma_swap_multiset(s, cur as int, l as int);
                        lemma_trickle_swap(s, i as int, cur as int, l as int);
                        lemma_trickle_done(self.src@, i as int, l as int);
                    }
                } else {
                    proof {
                        lemma_trickle_done(s, i as int, cur as int);
                    }
                }
                return;
            }
            // both children exist: compare against the smaller one
            if self.src[l] < self.src[r] {
                if self.src[cur] > self.src[l] {
                    let a = self.src[cur];
                    let b = self.src[l];
                    self.src[cur] = b;
                    self.src[l] = a;
                    proof {
                        lemma_swap_multiset(s, cur as int, l as int);
                        lemma_trickle_swap(s, i as int, cur as int, l as int);
                    }
                    cur = l;
                } else {
                    proof {
                        lemma_trickle_done(s, i as int, cur as int);
                    }
                    return;
                }
            } else {
                if self.src[cur] > self.src[r] {
                    let a = self.src[cur];
                    let b = self.src[r];
                    self.src[cur] = b;
                    self.src[r] = a;
                    proof {
                        lemma_swap_multiset(s, cur as int, r as int);
                        lemma_trickle_swap(s, i as int, cur as int, r as int);
                    }
                    cur = r;
                } else {
                    proof {
                        lemma_trickle_done(s, i as int, cur as int);
                    }
                    return;
                }
            }
        }
        proof {
            lemma_trickle_done(self.src@, i as int, cur as int);
        }
    }

    /// Builds a heap over the elements of `v` in place.
    pub fn from_vec(v: Vec<i64>) -> (r: Self)
        ensures
            r.wf(),
            r@ == v@.to_multiset(),
    {
        let len = v.len();
        let mut heap = Self { src: v, n: len };
        let mut i = len / 2;
        while i > 0
            invariant
                i <= len / 2,
                heap.n == heap.src@.len(),
                heap.n == len,
                heap_from(heap.src@, i as int),
                heap.src@.to_multiset() == v@.to_multiset(),
            decreases i,
        {
            i -= 1;
            heap.trickle_down(i);
        }
        heap
    }

    /// Hands the backing array over, still in heap order.
    pub fn into_vec(self) -> (r: Vec<i64>)
        requires
            self.wf(),
        ensures
            r@.to_multiset() == self@,
            is_heap(r@),
    {
        self.src
    }

    /// Restores the heap order after a push at the back, letting the new
    /// element rise above larger parents.
    #[verifier::rlimit(50)]
    fn bubble_up(&mut self)
        requires
            old(self).n == old(self).src@.len(),
            old(self).n >= 1,
            heap_except_up(old(self).src@, old(self).n as int - 1),
        ensures
            final(self).n == final(self).src@.len(),
            final(self).n == old(self).n,
            is_heap(final(self).src@),
            final(self).src@.to_multiset() == old(self).src@.to_multiset(),
    {
        if self.n == 1 {
            proof {
                lemma_bubble_done(self.src@, 0);
            }
            return;
        }
        let mut i = self.n - 1;
        let mut p = Self::parent(i);
        while i > 0 && self.src[i] < self.src[p]
            invariant
                i < self.n,
                self.n == self.src@.len(),
                self.n == old(self).n,
                i > 0 ==> p == parent_of(i as int),
                heap_except_up(self.src@, i as int),
                self.src@.to_multiset() == old(self).src@.to_multiset(),
            decreases i,
        {
            let ghost s = self.src@;
            let a = self.src[i];
            let b = self.src[p];
            self.src[i] = b;
            self.src[p] = a;
            proof {
                lemma_swap_multiset(s, i as int, p as int);
                lemma_bubble_swap(s, i as int);
            }
            i = p;
            if p != 0 {
                p = Self::parent(p);
            }
        }
        proof {
            lemma_bubble_done(self.src@, i as int);
        }
    }

    /// Adds `x` to the heap.
    pub fn insert(&mut self, x: i64)
        requires
            old(self).wf(),
            old(self)@.len() < usize::MAX,
        ensures
            final(self).wf(),
            final(self)@ == old(self)@.insert(x),
    {
        proof {
            broadcast use to_multiset_len;

        }
        self.src.push(x);
        self.n += 1;
        proof {
            broadcast use group_multiset_axioms, to_multiset_build;

            assert(heap_except_up(self.src@, self.n as int - 1));
        }
        self.bubble_up();
    }

    /// Removes and returns a minimum of the heap, if there is one: the
    /// result is no larger than anything left behind.
    pub fn pop(&mut self) -> (r: Option<i64>)
        requires
            old(self).wf(),
        ensures
            final(self).wf(),
            old(self)@.len() == 0 ==> r is None && final(self)@ == old(self)@,
            old(self)@.len() > 0 ==> (r matches Some(m) && old(self)@.count(m) > 0
                && final(self)@ == old(self)@.remove(m) && forall|y: i64|
                old(self)@.count(y) > 0 ==> m <= y),
    {
        proof {
            broadcast use to_multiset_len;

        }
        if self.is_empty() {
            return None;
        }
        let ghost s = self.src@;
        let last = self.n - 1;
        let a = self.src[last];
        let b = self.src[0];
        self.src[last] = b;
        self.src[0] = a;
        let x = self.src.pop().unwrap();
        self.n -= 1;
        proof {
            broadcast use group_multiset_axioms, to_multiset_contains, to_multiset_remove;

            lemma_swap_multiset(s, last as int, 0);
            let s1 = s.update(last as int, s[0]).update(0, s[last as int]);
            assert(self.src@ =~= s1.remove(last as int));
            assert(x == s[0]);
            assert(self.src@.to_multiset() == s1.to_multiset().remove(s1[last as int]));
            assert(s1[last as int] == s[0]);
            assert(heap_from(self.src@, 1)) by {
                assert forall|c: int|
                    1 <= c < self.src@.len() && parent_of(c) >= 1 implies self.src@[parent_of(c)]
                    <= #[trigger] self.src@[c] by {
                    assert(s[parent_of(c)] <= s[c]);
                }
            }
            assert forall|y: i64| old(self)@.count(y) > 0 implies x <= y by {
                assert(s.contains(y));
                let w = choose|w: int| 0 <= w < s.len() && s[w] == y;
                lemma_heap_root_min(s, w);
            }
        }
        self.trickle_down(0);
        Some(x)
    }
}

} // verus!
