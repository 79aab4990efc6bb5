//! A growable array holding a sequence in its first `n` cells.

use vstd::prelude::*;
use crate::backing_array::BackingArray;

verus! {

/// A positional list in one flat array: the elements sit in cells `0..n`,
/// and insertion or removal at `idx` shifts the tail of that range.
#[derive(Debug, Clone, PartialEq, Eq)]
pub struct ArrayStack {
    arr: BackingArray,
    n: usize,
}

impl View for ArrayStack {
    type V = Seq<i64>;

    closed spec fn view(&self) -> Seq<i64> {
        self.arr@.take(self.n as int)
    }
}

impl ArrayStack {
    /// The elements on hand never outnumber the cells that back them.
    pub closed spec fn wf(&self) -> bool {
        self.n <= self.arr@.len()
    }

    /// An empty list.
    pub fn new() -> (r: Self)
        ensures
            r.wf(),
            r@ == Seq::<i64>::empty(),
    {
        let r = Self { arr: BackingArray::new(), n: 0 };
        proof {
            assert(r@ =~= Seq::<i64>::empty());
        }
        r
    }

    /// A list of `n` zeros.
    pub fn with_size(n: usize) -> (r: Self)
        ensures
            r.wf(),
            r@ == Seq::new(n as nat, |i: int| 0i64),
    {
        let r = Self { arr: BackingArray::with_size(n), n };
        proof {
            assert(r@ =~= Seq::new(n as nat, |i: int| 0i64));
        }
        r
    }

    /// The number of elements held.
    pub fn size(&self) -> (r: usize)
        requires
            self.wf(),
        ensures
            r == self@.len(),
    {
        self.n
    }

    /// Whether `i` addresses an element.
    fn check_idx(&self, i: usize) -> (r: bool)
        requires
            self.wf(),
        ensures
            r == (i < self@.len()),
    {
        i < self.size()
    }

    /// The element at `i`, or nothing when `i` is out of range.
    pub fn get(&self, i: usize) -> (r: Option<&i64>)
        requires
            self.wf(),
        ensures
            i < self@.len() ==> (r matches Some(v) && *v == self@[i as int]),
            i >= self@.len() ==> r is None,
    {
        if self.check_idx(i) {
            Some(self.arr.get(i))
        } else {
            None
        }
    }

    /// A mutable borrow of the element at `i`, or nothing when `i` is out of
    /// range; writes through the borrow land at position `i`.
    pub fn get_mut(&mut self, i: usize) -> (r: Option<&mut i64>)
        requires
            old(self).wf(),
        ensures
            final(self).wf(),
            i < old(self)@.len() ==> (r matches Some(v) && *v == old(self)@[i as int]
                && final(self)@ == old(self)@.update(i as int, *final(v))),
            i >= old(self)@.len() ==> r is None && final(self)@ == old(self)@,
    {
        if self.check_idx(i) {
            Some(self.arr.get_mut(i))
        } else {
            None
        }
    }

    /// Replaces the element at `idx` with `x` and hands back the one it
    /// displaced; out of range, nothing changes and nothing comes back.
    pub fn set(&mut self, idx: usize, x: i64) -> (r: Option<i64>)
        requires
            old(self).wf(),
        ensures
            final(self).wf(),
            idx < old(self)@.len() ==> r == Some(old(self)@[idx as int])
                && final(self)@ == old(self)@.update(idx as int, x),
            idx >= old(self)@.len() ==> r is None && final(self)@ == old(self)@,
    {
        if !self.check_idx(idx) {
            return None;
        }
        let old_x = *self.arr.get(idx);
        self.arr.set(idx, x);
        proof {
            assert(self@ =~= old(self)@.update(idx as int, x));
        }
        Some(old_x)
    }

    /// Moves the elements into a backing array of length `max(1, 2 * n)`.
    fn resize(&mut self)
        requires
            old(self).wf(),
            old(self)@.len() <= usize::MAX / 2,
        ensures
            final(self).wf(),
            final(self)@ == old(self)@,
            final(self).n == old(self).n,
            final(self).n < final(self).arr@.len(),
    {
        let new_len = if self.n == 0 { 1 } else { 2 * self.n };
        let mut new_arr = BackingArray::with_size(new_len);
        let mut i: usize = 0;
        while i < self.n
            invariant
                i <= self.n,
                self == old(self),
                self.wf(),
                self.n < new_len,
                new_arr@.len() == new_len,
                forall|k: int| 0 <= k < i ==> new_arr@[k] == self.arr@[k],
            decreases self.n - i,
        {
            new_arr.set(i, *self.arr.get(i));
            i += 1;
        }
        self.arr = new_arr;
        proof {
            assert(self@ =~= old(self)@);
        }
    }

    /// Inserts `x` before the element at `idx`, shifting the tail right;
    /// when `idx` addresses no element, the list is left as it was.
    pub fn add(&mut self, idx: usize, x: i64)
        requires
            old(self).wf(),
            old(self)@.len() <= usize::MAX / 2,
        ensures
            final(self).wf(),
            idx < old(self)@.len() ==> final(self)@ == old(self)@.insert(idx as int, x),
            idx >= old(self)@.len() ==> final(self)@ == old(self)@,
    {
        if !self.check_idx(idx) {
            return;
        }
        if self.n == self.arr.len() {
            self.resize();
        }
        let ghost a0 = self.arr@;
        let mut i: usize = self.n;
        while i > idx
            invariant
                idx <= i <= self.n,
                self.n < self.arr@.len(),
                self.arr@.len() == a0.len(),
                self.n == old(self).n,
                forall|k: int| 0 <= k <= i ==> self.arr@[k] == a0[k],
                forall|k: int| i < k <= self.n ==> self.arr@[k] == a0[k - 1],
            decreases i,
        {
            let v = *self.arr.get(i - 1);
            self.arr.set(i, v);
            i -= 1;
        }
        self.arr.set(idx, x);
        self.n += 1;
        proof {
            assert(self@ =~= old(self)@.insert(idx as int, x));
        }
    }

    /// Removes and returns the element at `idx`, closing the gap; out of
    /// range, nothing changes and nothing comes back.
    pub fn remove(&mut self, idx: usize) -> (r: Option<i64>)
        requires
            old(self).wf(),
        ensures
            final(self).wf(),
            idx < old(self)@.len() ==> r == Some(old(self)@[idx as int])
                && final(self)@ == old(self)@.remove(idx as int),
            idx >= old(self)@.len() ==> r is None && final(self)@ == old(self)@,
    {
        if !self.check_idx(idx) {
            return None;
        }
        let x = *self.arr.get(idx);
        let ghost a0 = self.arr@;
        let mut i: usize = idx;
        while i < self.n - 1
            invariant
                idx <= i <= self.n - 1,
                idx < self.n <= self.arr@.len(),
                self.arr@.len() == a0.len(),
                self.n == old(self).n,
                forall|k: int| 0 <= k < idx ==> self.arr@[k] == a0[k],
                forall|k: int| idx <= k < i ==> self.arr@[k] == a0[k + 1],
                forall|k: int| i <= k < self.arr@.len() ==> self.arr@[k] == a0[k],
            decreases self.n - i,
        {
            let v = *self.arr.get(i + 1);
            self.arr.set(i, v);
            i += 1;
        }
        self.n -= 1;
        proof {
            assert(self@ =~= old(self)@.remove(idx as int));
        }
        if self.arr.len() / 3 >= self.n {
            self.resize();
        }
        Some(x)
    }
}

} // verus!
