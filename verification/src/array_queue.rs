//! A first-in first-out queue over a ring buffer.

use vstd::prelude::*;
use crate::array_deque::{slot, slot_index};
use crate::backing_array::BackingArray;

verus! {

/// A queue in one flat array: the elements occupy `n` cells starting at
/// `head`, wrapping around the end, so that adding at the back and removing
/// at the front both cost one cell write.
#[derive(Debug, Clone, PartialEq, Eq)]
pub struct ArrayQueue {
    arr: BackingArray,
    n: usize,
    head: usize,
}

impl View for ArrayQueue {
    type V = Seq<i64>;

    closed spec fn view(&self) -> Seq<i64> {
        Seq::new(
            self.n as nat,
            |i: int| self.arr@[slot(self.head as int, i, self.arr@.len() as int)],
        )
    }
}

impl ArrayQueue {
    /// The elements fit in the buffer and `head` addresses a cell.
    pub closed spec fn wf(&self) -> bool {
        &&& self.n <= self.arr@.len()
        &&& self.arr@.len() == 0 ==> self.head == 0
        &&& self.arr@.len() > 0 ==> (self.head as int) < self.arr@.len()
    }

    /// The length of the backing array: the queue's current capacity.
    pub closed spec fn spec_capacity(&self) -> int {
        self.arr@.len() as int
    }

    /// An empty queue with no cells allocated.
    pub fn new() -> (r: Self)
        ensures
            r.wf(),
            r@ == Seq::<i64>::empty(),
    {
        let r = Self { arr: BackingArray::new(), n: 0, head: 0 };
        proof {
            assert(r@ =~= Seq::<i64>::empty());
        }
        r
    }

    /// A queue of `n` zeros.
    pub fn with_size(n: usize) -> (r: Self)
        ensures
            r.wf(),
            r@ == Seq::new(n as nat, |i: int| 0i64),
    {
        let r = Self { arr: BackingArray::with_size(n), n, head: 0 };
        proof {
            assert(r@ =~= Seq::new(n as nat, |i: int| 0i64));
        }
        r
    }

    /// The queue's capacity: how many cells its backing array has, not how
    /// many elements it holds.
    pub fn size(&self) -> (r: usize)
        requires
            self.wf(),
        ensures
            r == self.spec_capacity(),
            r >= self@.len(),
    {
        self.arr.len()
    }

    /// Moves the elements, unwrapped, into a buffer of length `max(1, 2 * n)`.
    fn resize(&mut self)
        requires
            old(self).wf(),
            old(self)@.len() <= usize::MAX / 2,
        ensures
            final(self).wf(),
            final(self)@ == old(self)@,
            final(self).n == old(self).n,
            final(self).n < final(self).arr@.len(),
    {
        let new_len = if self.n == 0 { 1 } else { 2 * self.n };
        let mut new_arr = BackingArray::with_size(new_len);
        let len = self.arr.len();
        let mut i: usize = 0;
        while i < self.n
            invariant
                i <= self.n,
                self == old(self),
                self.wf(),
                len == self.arr@.len(),
                self.n < new_len,
                new_arr@.len() == new_len,
                forall|k: int| 0 <= k < i ==> new_arr@[k] == self@[k],
            decreases self.n - i,
        {
            let v = *self.arr.get(slot_index(self.head, i, len));
            new_arr.set(i, v);
            i += 1;
        }
        self.arr = new_arr;
        self.head = 0;
        proof {
            assert(self@ =~= old(self)@);
        }
    }

    /// Appends `x` at the back of the queue.
    pub fn add(&mut self, x: i64)
        requires
            old(self).wf(),
            old(self)@.len() < usize::MAX / 2,
        ensures
            final(self).wf(),
            final(self)@ == old(self)@.push(x),
    {
        if self.n == self.arr.len() {
            self.resize();
        }
        let len = self.arr.len();
        let w = slot_index(self.head, self.n, len);
        self.arr.set(w, x);
        self.n += 1;
        proof {
            assert(self@ =~= old(self)@.push(x));
        }
    }

    /// Removes and returns the element at the front, if there is one.
    pub fn remove(&mut self) -> (r: Option<i64>)
        requires
            old(self).wf(),
        ensures
            final(self).wf(),
            old(self)@.len() > 0 ==> r == Some(old(self)@.first())
                && final(self)@ == old(self)@.drop_first(),
            old(self)@.len() == 0 ==> r is None && final(self)@ == old(self)@,
    {
        if self.n == 0 {
            return None;
        }
        let len = self.arr.len();
        let x = *self.arr.get(self.head);
        self.head = if self.head + 1 == len {
            0
        } else {
            self.head + 1
        };
        self.n -= 1;
        proof {
            assert(self@ =~= old(self)@.drop_first());
        }
        if self.arr.len() / 3 >= self.n {
            self.resize();
        }
        Some(x)
    }
}

} // verus!
