//! The flat storage that the array-based containers grow and shrink by hand.

use vstd::prelude::*;

verus! {

/// A fixed-length run of `i64` cells. It never grows on its own: the
/// containers built on top allocate a fresh one and copy when they resize.
#[derive(Debug, Clone, PartialEq, Eq)]
pub struct BackingArray {
    arr: Vec<i64>,
}

impl View for BackingArray {
    type V = Seq<i64>;

    closed spec fn view(&self) -> Seq<i64> {
        self.arr@
    }
}

impl BackingArray {
    /// An empty array of length zero.
    pub fn new() -> (r: Self)
        ensures
            r@ == Seq::<i64>::empty(),
    {
        Self { arr: Vec::<i64>::new() }
    }

    /// An array of `n` cells, each holding zero.
    pub fn with_size(n: usize) -> (r: Self)
        ensures
            r@ == Seq::new(n as nat, |i: int| 0i64),
    {
        let r = Self { arr: vec![0i64; n] };
        proof {
            assert(r@ =~= Seq::new(n as nat, |i: int| 0i64));
        }
        r
    }

    /// The number of cells.
    pub fn len(&self) -> (r: usize)
        ensures
            r == self@.len(),
    {
        self.arr.len()
    }

    /// A borrow of the cell at `idx`.
    pub fn get(&self, idx: usize) -> (r: &i64)
        requires
            idx < self@.len(),
        ensures
            *r == self@[idx as int],
    {
        &self.arr[idx]
    }

    /// A mutable borrow of the cell at `idx`; writes through it land there.
    pub fn get_mut(&mut self, idx: usize) -> (r: &mut i64)
        requires
            idx < old(self)@.len(),
        ensures
            *r == old(self)@[idx as int],
            final(self)@ == old(self)@.update(idx as int, *final(r)),
    {
        &mut self.arr[idx]
    }

    /// Overwrites the cell at `idx`.
    pub fn set(&mut self, idx: usize, x: i64)
        requires
            idx < old(self)@.len(),
        ensures
            final(self)@ == old(self)@.update(idx as int, x),
    {
        self.arr[idx] = x;
    }
}

} // verus!
