//! A growable ring buffer: the bounded block behind the space-efficient list.

use vstd::prelude::*;
use crate::backing_array::BackingArray;

verus! {

/// The physical cell that logical position `i` occupies when the elements
/// start at `head` in a buffer of `len` cells, wrapping past the end.
pub(crate) open spec fn slot(head: int, i: int, len: int) -> int {
    if head + i < len {
        head + i
    } else {
        head + i - len
    }
}

/// A double-ended positional list in one flat array. The elements occupy
/// `n` cells starting at `head`, wrapping around the end of the backing
/// array, so that both ends support cheap insertion and removal.
#[derive(Debug, Clone, PartialEq, Eq)]
pub struct ArrayDeque {
    arr: BackingArray,
    n: usize,
    head: usize,
}

impl View for ArrayDeque {
    type V = Seq<i64>;

    closed spec fn view(&self) -> Seq<i64> {
        Seq::new(
            self.n as nat,
            |i: int| self.arr@[slot(self.head as int, i, self.arr@.len() as int)],
        )
    }
}

/// The physical cell of logical position `i`, computed without overflow.
pub(crate) fn slot_index(head: usize, i: usize, len: usize) -> (r: usize)
    requires
        head < len,
        i < len,
    ensures
        r == slot(head as int, i as int, len as int),
{
    if i < len - head {
        head + i
    } else {
        i - (len - head)
    }
}

impl ArrayDeque {
    /// The elements fit in the buffer and `head` addresses a cell.
    pub closed spec fn wf(&self) -> bool {
        &&& self.n <= self.arr@.len()
        &&& self.arr@.len() == 0 ==> self.head == 0
        &&& self.arr@.len() > 0 ==> (self.head as int) < self.arr@.len()
    }

    /// An empty deque with no cells allocated.
    pub fn new() -> (r: Self)
        ensures
            r.wf(),
            r@ == Seq::<i64>::empty(),
    {
        let r = Self { arr: BackingArray::new(), n: 0, head: 0 };
        proof {
            assert(r@ =~= Seq::<i64>::empty());
        }
        r
    }

    /// A deque of `n` zeros.
    pub fn with_size(n: usize) -> (r: Self)
        ensures
            r.wf(),
            r@ == Seq::new(n as nat, |i: int| 0i64),
    {
        let r = Self { arr: BackingArray::with_size(n), n, head: 0 };
        proof {
            assert(r@ =~= Seq::new(n as nat, |i: int| 0i64));
        }
        r
    }

    /// An empty deque over `n` allocated cells.
    pub fn with_capacity(n: usize) -> (r: Self)
        ensures
            r.wf(),
            r@ == Seq::<i64>::empty(),
    {
        let r = Self { arr: BackingArray::with_size(n), n: 0, head: 0 };
        proof {
            assert(r@ =~= Seq::<i64>::empty());
        }
        r
    }

    /// The number of elements held.
    pub fn size(&self) -> (r: usize)
        requires
            self.wf(),
        ensures
            r == self@.len(),
    {
        self.n
    }

    /// Whether `i` addresses an element.
    fn check_idx(&self, i: usize) -> (r: bool)
        requires
            self.wf(),
        ensures
            r == (i < self@.len()),
    {
        i < self.size()
    }

    /// The element at `idx`, or nothing when `idx` is out of range.
    pub fn get(&self, idx: usize) -> (r: Option<&i64>)
        requires
            self.wf(),
        ensures
            idx < self@.len() ==> (r matches Some(v) && *v == self@[idx as int]),
            idx >= self@.len() ==> r is None,
    {
        if self.check_idx(idx) {
            let len = self.arr.len();
            Some(self.arr.get(slot_index(self.head, idx, len)))
        } else {
            None
        }
    }

    /// A mutable borrow of the element at `idx`, or nothing when `idx` is out
    /// of range; writes through the borrow land at position `idx`.
    pub fn get_mut(&mut self, idx: usize) -> (r: Option<&mut i64>)
        requires
            old(self).wf(),
        ensures
            final(self).wf(),
            idx < old(self)@.len() ==> (r matches Some(v) && *v == old(self)@[idx as int]
                && final(self)@ == old(self)@.update(idx as int, *final(v))),
            idx >= old(self)@.len() ==> r is None && final(self)@ == old(self)@,
    {
        if self.check_idx(idx) {
            let len = self.arr.len();
            let r = self.arr.get_mut(slot_index(self.head, idx, len));
            Some(r)
        } else {
            None
        }
    }

    /// Replaces the element at `idx` with `x` and hands back the one it
    /// displaced; out of range, nothing changes and nothing comes back.
    pub fn set(&mut self, idx: usize, x: i64) -> (r: Option<i64>)
        requires
            old(self).wf(),
        ensures
            final(self).wf(),
            idx < old(self)@.len() ==> r == Some(old(self)@[idx as int])
                && final(self)@ == old(self)@.update(idx as int, x),
            idx >= old(self)@.len() ==> r is None && final(self)@ == old(self)@,
    {
        if !self.check_idx(idx) {
            return None;
        }
        let len = self.arr.len();
        let s = slot_index(self.head, idx, len);
        let old_x = *self.arr.get(s);
        self.arr.set(s, x);
        proof {
            assert(self@ =~= old(self)@.update(idx as int, x));
        }
        Some(old_x)
    }

    /// Moves the elements, unwrapped, into a buffer of length `max(1, 2 * n)`.
    fn resize(&mut self)
        requires
            old(self).wf(),
            old(self)@.len() <= usize::MAX / 2,
        ensures
            final(self).wf(),
            final(self)@ == old(self)@,
            final(self).n == old(self).n,
            final(self).n < final(self).arr@.len(),
    {
        let new_len = if self.n == 0 { 1 } else { 2 * self.n };
        let mut new_arr = BackingArray::with_size(new_len);
        let len = self.arr.len();
        let mut i: usize = 0;
        while i < self.n
            invariant
                i <= self.n,
                self == old(self),
                self.wf(),
                len == self.arr@.len(),
                self.n < new_len,
                new_arr@.len() == new_len,
                forall|k: int| 0 <= k < i ==> new_arr@[k] == self@[k],
            decreases self.n - i,
        {
            let v = *self.arr.get(slot_index(self.head, i, len));
            new_arr.set(i, v);
            i += 1;
        }
        self.arr = new_arr;
        self.head = 0;
        proof {
            assert(self@ =~= old(self)@);
        }
    }

    /// Inserts `x` before the element at `idx`, shifting whichever side of
    /// the ring is shorter; when `idx > size()`, the deque is left as it was.
    pub fn add(&mut self, idx: usize, x: i64)
        requires
            old(self).wf(),
            old(self)@.len() < usize::MAX / 2,
        ensures
            final(self).wf(),
            idx <= old(self)@.len() ==> final(self)@ == old(self)@.insert(idx as int, x),
            idx > old(self)@.len() ==> final(self)@ == old(self)@,
    {
        if idx > self.size() {
            return;
        }
        if self.n == self.arr.len() {
            self.resize();
        }
        let ghost v0 = old(self)@;
        let len = self.arr.len();
        let ghost a0 = self.arr@;
        let ghost h0 = self.head as int;
        let ghost l = len as int;
        if idx < self.n / 2 {
            let old_head = self.head;
            let new_head = if old_head == 0 { len - 1 } else { old_head - 1 };
            self.head = new_head;
            let ghost h1 = new_head as int;
            let mut i: usize = 0;
            while i < idx
                invariant
                    i <= idx,
                    2 * idx < self.n,
                    self.n < len,
                    self.n == old(self).n,
                    len == self.arr@.len(),
                    l == len as int,
                    a0.len() == l,
                    0 <= h0 < l,
                    self.head == new_head,
                    old_head as int == h0,
                    h1 == new_head as int,
                    h1 == slot(h0, l - 1, l),
                    forall|k: int| 0 <= k < i
                        ==> self.arr@[slot(h1, k, l)] == a0[slot(h0, k, l)],
                    forall|k: int| i <= k < self.n
                        ==> self.arr@[slot(h0, k, l)] == a0[slot(h0, k, l)],
                decreases idx - i,
            {
                let v = *self.arr.get(slot_index(old_head, i, len));
                let w = slot_index(new_head, i, len);
                self.arr.set(w, v);
                i += 1;
            }
            let w = slot_index(new_head, idx, len);
            self.arr.set(w, x);
            self.n += 1;
            proof {
                assert(self@ =~= v0.insert(idx as int, x));
            }
        } else {
            let mut i: usize = self.n;
            while i > idx
                invariant
                    idx <= i <= self.n,
                    self.n < len,
                    self.n == old(self).n,
                    len == self.arr@.len(),
                    l == len as int,
                    a0.len() == l,
                    0 <= h0 < l,
                    self.head as int == h0,
                    forall|k: int| 0 <= k < i
                        ==> self.arr@[slot(h0, k, l)] == a0[slot(h0, k, l)],
                    forall|k: int| i < k <= self.n
                        ==> self.arr@[slot(h0, k, l)] == a0[slot(h0, k - 1, l)],
                decreases i,
            {
                let v = *self.arr.get(slot_index(self.head, i - 1, len));
                let w = slot_index(self.head, i, len);
                self.arr.set(w, v);
                i -= 1;
            }
            let w = slot_index(self.head, idx, len);
            self.arr.set(w, x);
            self.n += 1;
            proof {
                assert(self@ =~= v0.insert(idx as int, x));
            }
        }
    }

    /// Appends `x` after the last element.
    pub fn push_back(&mut self, x: i64)
        requires
            old(self).wf(),
            old(self)@.len() < usize::MAX / 2,
        ensures
            final(self).wf(),
            final(self)@ == old(self)@.push(x),
    {
        let n = self.size();
        self.add(n, x);
        proof {
            assert(self@ =~= old(self)@.push(x));
        }
    }

    /// Prepends `x` before the first element.
    pub fn push_front(&mut self, x: i64)
        requires
            old(self).wf(),
            old(self)@.len() < usize::MAX / 2,
        ensures
            final(self).wf(),
            final(self)@ == old(self)@.insert(0, x),
    {
        self.add(0, x)
    }

    /// Removes and returns the element at `idx`, closing the gap from
    /// whichever side of the ring is shorter; out of range, nothing changes
    /// and nothing comes back.
    pub fn remove(&mut self, idx: usize) -> (r: Option<i64>)
        requires
            old(self).wf(),
        ensures
            final(self).wf(),
            idx < old(self)@.len() ==> r == Some(old(self)@[idx as int])
                && final(self)@ == old(self)@.remove(idx as int),
            idx >= old(self)@.len() ==> r is None && final(self)@ == old(self)@,
    {
        if !self.check_idx(idx) {
            return None;
        }
        let ghost v0 = old(self)@;
        let len = self.arr.len();
        let ghost a0 = self.arr@;
        let ghost h0 = self.head as int;
        let ghost l = len as int;
        let x = *self.arr.get(slot_index(self.head, idx, len));
        if idx < self.n / 2 {
            let mut i: usize = idx;
            while i > 0
                invariant
                    i <= idx,
                    2 * idx < self.n,
                    self.n <= len,
                    self.n == old(self).n,
                    len == self.arr@.len(),
                    l == len as int,
                    a0.len() == l,
                    0 <= h0 < l,
                    self.head as int == h0,
                    forall|k: int| 0 <= k <= i
                        ==> self.arr@[slot(h0, k, l)] == a0[slot(h0, k, l)],
                    forall|k: int| i < k <= idx
                        ==> self.arr@[slot(h0, k, l)] == a0[slot(h0, k - 1, l)],
                    forall|k: int| idx < k < self.n
                        ==> self.arr@[slot(h0, k, l)] == a0[slot(h0, k, l)],
                decreases i,
            {
                let v = *self.arr.get(slot_index(self.head, i - 1, len));
                let w = slot_index(self.head, i, len);
                self.arr.set(w, v);
                i -= 1;
            }
            self.head = slot_index(self.head, 1, len);
            self.n -= 1;
            proof {
                let h1 = self.head as int;
                assert forall|k: int| 0 <= k < self@.len() implies self@[k] == v0.remove(
                    idx as int,
                )[k] by {
                    assert(slot(h1, k, l) == slot(h0, k + 1, l));
                    assert(self.arr@[slot(h0, k + 1, l)] == v0.remove(idx as int)[k]);
                };
                assert(self@ =~= v0.remove(idx as int));
            }
        } else {
            let mut i: usize = idx;
            while i < self.n - 1
                invariant
                    idx <= i <= self.n - 1,
                    idx < self.n <= len,
                    self.n == old(self).n,
                    len == self.arr@.len(),
                    l == len as int,
                    a0.len() == l,
                    0 <= h0 < l,
                    self.head as int == h0,
                    forall|k: int| 0 <= k < idx
                        ==> self.arr@[slot(h0, k, l)] == a0[slot(h0, k, l)],
                    forall|k: int| idx <= k < i
                        ==> self.arr@[slot(h0, k, l)] == a0[slot(h0, k + 1, l)],
                    forall|k: int| i <= k < self.n
                        ==> self.arr@[slot(h0, k, l)] == a0[slot(h0, k, l)],
                decreases self.n - i,
            {
                let v = *self.arr.get(slot_index(self.head, i + 1, len));
                let w = slot_index(self.head, i, len);
                self.arr.set(w, v);
                i += 1;
            }
            self.n -= 1;
            proof {
                assert(self@ =~= v0.remove(idx as int));
            }
        }
        if self.arr.len() / 3 >= self.n {
            self.resize();
        }
        Some(x)
    }

    /// Removes and returns the last element, if there is one.
    pub fn pop_back(&mut self) -> (r: Option<i64>)
        requires
            old(self).wf(),
        ensures
            final(self).wf(),
            old(self)@.len() > 0 ==> r == Some(old(self)@.last())
                && final(self)@ == old(self)@.drop_last(),
            old(self)@.len() == 0 ==> r is None && final(self)@ == old(self)@,
    {
        if self.size() == 0 {
            None
        } else {
            let n = self.size();
            let r = self.remove(n - 1);
            proof {
                assert(self@ =~= old(self)@.drop_last());
            }
            r
        }
    }

    /// Removes and returns the first element, if there is one.
    pub fn pop_front(&mut self) -> (r: Option<i64>)
        requires
            old(self).wf(),
        ensures
            final(self).wf(),
            old(self)@.len() > 0 ==> r == Some(old(self)@.first())
                && final(self)@ == old(self)@.drop_first(),
            old(self)@.len() == 0 ==> r is None && final(self)@ == old(self)@,
    {
        let r = self.remove(0);
        proof {
            if old(self)@.len() > 0 {
                assert(self@ =~= old(self)@.drop_first());
            }
        }
        r
    }
}

} // verus!
