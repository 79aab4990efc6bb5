//! A space-efficient positional list: a chain of bounded blocks.
//!
//! The list holds its elements in a chain of nodes, each node owning one
//! bounded block (an [`ArrayDeque`] kept at no more than `block_size`
//! elements). The chain is stored as a vector of blocks in chain order, so a
//! node's handle is its position and the forward and backward links of the
//! classical doubly-linked formulation are the neighbouring positions; an
//! empty vector is the empty chain, standing in for the sentinel node.
//!
//! A positional operation first resolves its global index to an owning node
//! and a local offset, walking from whichever end is nearer. Insertion and
//! deletion keep every node's block within `[1, block_size]` by shifting
//! single elements between neighbouring blocks and, when a whole window of
//! `block_size` neighbours is saturated (or drained), by growing or
//! shrinking the chain by exactly one node: the `spread` and `gather`
//! rebalancing passes.

use vstd::prelude::*;
use vstd::seq_lib::lemma_flatten_concat;
use crate::array_deque::ArrayDeque;

verus! {

/// The per-block element sequences of a chain of blocks, in chain order.
pub(crate) open spec fn views_of(blocks: Seq<ArrayDeque>) -> Seq<Seq<i64>> {
    blocks.map_values(|b: ArrayDeque| b@)
}

/// How many elements the first `j` blocks hold together.
pub(crate) open spec fn lens_prefix(bs: Seq<Seq<i64>>, j: int) -> int
    decreases j,
{
    if j <= 0 {
        0
    } else {
        lens_prefix(bs, j - 1) + bs[j - 1].len()
    }
}

/// Flattening splits at any block boundary.
proof fn lemma_flatten_split(bs: Seq<Seq<i64>>, j: int)
    requires
        0 <= j <= bs.len(),
    ensures
        bs.flatten() == bs.take(j).flatten() + bs.skip(j).flatten(),
{
    assert(bs =~= bs.take(j) + bs.skip(j));
    lemma_flatten_concat(bs.take(j), bs.skip(j));
}

/// Flattening splits around any single block.
proof fn lemma_flatten_split3(bs: Seq<Seq<i64>>, j: int)
    requires
        0 <= j < bs.len(),
    ensures
        bs.flatten() == bs.take(j).flatten() + bs[j] + bs.skip(j + 1).flatten(),
{
    lemma_flatten_split(bs, j);
    assert(bs.skip(j) =~= seq![bs[j]] + bs.skip(j + 1));
    lemma_flatten_concat(seq![bs[j]], bs.skip(j + 1));
    seq![bs[j]].lemma_flatten_singleton();
}

/// The first `j` blocks hold `lens_prefix(bs, j)` elements.
proof fn lemma_lens_prefix_flatten(bs: Seq<Seq<i64>>, j: int)
    requires
        0 <= j <= bs.len(),
    ensures
        bs.take(j).flatten().len() == lens_prefix(bs, j),
    decreases j,
{
    if j == 0 {
        assert(bs.take(0) =~= Seq::<Seq<i64>>::empty());
    } else {
        lemma_lens_prefix_flatten(bs, j - 1);
        assert(bs.take(j) =~= bs.take(j - 1) + seq![bs[j - 1]]);
        lemma_flatten_concat(bs.take(j - 1), seq![bs[j - 1]]);
        seq![bs[j - 1]].lemma_flatten_singleton();
    }
}

/// The whole chain holds `lens_prefix(bs, bs.len())` elements.
proof fn lemma_flatten_len(bs: Seq<Seq<i64>>)
    ensures
        bs.flatten().len() == lens_prefix(bs, bs.len() as int),
{
    lemma_lens_prefix_flatten(bs, bs.len() as int);
    assert(bs.take(bs.len() as int) =~= bs);
}

/// Block prefixes only grow along the chain.
proof fn lemma_lens_prefix_mono(bs: Seq<Seq<i64>>, j1: int, j2: int)
    requires
        0 <= j1 <= j2,
    ensures
        lens_prefix(bs, j1) <= lens_prefix(bs, j2),
    decreases j2 - j1,
{
    if j1 < j2 {
        lemma_lens_prefix_mono(bs, j1, j2 - 1);
    }
}

/// Chains that agree block for block up to `j` hold the same prefix count.
proof fn lemma_lens_prefix_agree(bs1: Seq<Seq<i64>>, bs2: Seq<Seq<i64>>, j: int)
    requires
        0 <= j <= bs1.len(),
        j <= bs2.len(),
        forall|t: int| 0 <= t < j ==> bs1[t] == bs2[t],
    ensures
        lens_prefix(bs1, j) == lens_prefix(bs2, j),
    decreases j,
{
    if j > 0 {
        lemma_lens_prefix_agree(bs1, bs2, j - 1);
    }
}

/// Chains of equal length that agree block for block from `k` on hold the
/// same element count past `k`.
proof fn lemma_lens_suffix_agree(bs1: Seq<Seq<i64>>, bs2: Seq<Seq<i64>>, k: int)
    requires
        bs1.len() == bs2.len(),
        0 <= k <= bs1.len(),
        forall|t: int| k <= t < bs1.len() ==> bs1[t] == bs2[t],
    ensures
        lens_prefix(bs1, bs1.len() as int) - lens_prefix(bs1, k) == lens_prefix(
            bs2,
            bs2.len() as int,
        ) - lens_prefix(bs2, k),
    decreases bs1.len() - k,
{
    if k < bs1.len() {
        lemma_lens_suffix_agree(bs1, bs2, k + 1);
    }
}

/// Bounds on how much a run of blocks can hold, each block being bounded.
proof fn lemma_lens_prefix_run_bound(bs: Seq<Seq<i64>>, lo: int, hi: int, c: int)
    requires
        0 <= lo <= hi <= bs.len(),
        forall|t: int| lo <= t < hi ==> (#[trigger] bs[t].len()) <= c,
    ensures
        lens_prefix(bs, hi) - lens_prefix(bs, lo) <= c * (hi - lo),
    decreases hi - lo,
{
    if lo < hi {
        lemma_lens_prefix_run_bound(bs, lo, hi - 1, c);
        assert(c * (hi - lo) == c * (hi - 1 - lo) + c) by (nonlinear_arith);
    } else {
        assert(c * (hi - lo) == 0) by (nonlinear_arith)
            requires hi == lo;
    }
}

/// A run of blocks holding exactly `c` elements each holds `c` per block.
proof fn lemma_lens_prefix_run_exact(bs: Seq<Seq<i64>>, lo: int, hi: int, c: int)
    requires
        0 <= lo <= hi <= bs.len(),
        forall|t: int| lo <= t < hi ==> (#[trigger] bs[t].len()) == c,
    ensures
        lens_prefix(bs, hi) - lens_prefix(bs, lo) == c * (hi - lo),
    decreases hi - lo,
{
    if lo < hi {
        lemma_lens_prefix_run_exact(bs, lo, hi - 1, c);
        assert(c * (hi - lo) == c * (hi - 1 - lo) + c) by (nonlinear_arith);
    } else {
        assert(c * (hi - lo) == 0) by (nonlinear_arith)
            requires hi == lo;
    }
}

/// A chain of non-empty blocks holds at least one element per block.
proof fn lemma_flatten_min_len(bs: Seq<Seq<i64>>)
    requires
        forall|t: int| 0 <= t < bs.len() ==> (#[trigger] bs[t].len()) >= 1,
    ensures
        bs.flatten().len() >= bs.len(),
    decreases bs.len(),
{
    if bs.len() > 0 {
        lemma_flatten_min_len(bs.drop_first());
        assert(bs.flatten() == bs[0] + bs.drop_first().flatten());
    }
}

/// The element at local offset `off` of block `j` sits at global position
/// `lens_prefix(bs, j) + off`.
proof fn lemma_flatten_index(bs: Seq<Seq<i64>>, j: int, off: int)
    requires
        0 <= j < bs.len(),
        0 <= off < bs[j].len(),
    ensures
        0 <= lens_prefix(bs, j) + off < bs.flatten().len(),
        bs.flatten()[lens_prefix(bs, j) + off] == bs[j][off],
{
    lemma_flatten_split3(bs, j);
    lemma_lens_prefix_flatten(bs, j);
    lemma_lens_prefix_mono(bs, 0, j);
}

/// Replacing one element of one block replaces the element at its global
/// position, whatever the replacement is.
proof fn lemma_flatten_update_elem(bs: Seq<Seq<i64>>, j: int, off: int)
    requires
        0 <= j < bs.len(),
        0 <= off < bs[j].len(),
    ensures
        forall|z: i64|
            #[trigger] bs.update(j, bs[j].update(off, z)).flatten() == bs.flatten().update(
                lens_prefix(bs, j) + off,
                z,
            ),
{
    assert forall|z: i64|
        #[trigger] bs.update(j, bs[j].update(off, z)).flatten() == bs.flatten().update(
            lens_prefix(bs, j) + off,
            z,
        ) by {
        let bs2 = bs.update(j, bs[j].update(off, z));
        lemma_flatten_split3(bs, j);
        lemma_flatten_split3(bs2, j);
        assert(bs2.take(j) =~= bs.take(j));
        assert(bs2.skip(j + 1) =~= bs.skip(j + 1));
        lemma_lens_prefix_flatten(bs, j);
        lemma_lens_prefix_mono(bs, 0, j);
        assert(bs2.flatten() =~= bs.flatten().update(lens_prefix(bs, j) + off, z));
    }
}

/// Inserting into one block inserts at the matching global position.
proof fn lemma_flatten_insert_elem(bs: Seq<Seq<i64>>, j: int, off: int, z: i64)
    requires
        0 <= j < bs.len(),
        0 <= off <= bs[j].len(),
    ensures
        bs.update(j, bs[j].insert(off, z)).flatten() == bs.flatten().insert(
            lens_prefix(bs, j) + off,
            z,
        ),
{
    let bs2 = bs.update(j, bs[j].insert(off, z));
    lemma_flatten_split3(bs, j);
    lemma_flatten_split3(bs2, j);
    assert(bs2.take(j) =~= bs.take(j));
    assert(bs2.skip(j + 1) =~= bs.skip(j + 1));
    lemma_lens_prefix_flatten(bs, j);
    lemma_lens_prefix_mono(bs, 0, j);
    assert(bs2.flatten() =~= bs.flatten().insert(lens_prefix(bs, j) + off, z));
}

/// Removing from one block removes the element at its global position.
proof fn lemma_flatten_remove_elem(bs: Seq<Seq<i64>>, j: int, off: int)
    requires
        0 <= j < bs.len(),
        0 <= off < bs[j].len(),
    ensures
        bs.update(j, bs[j].remove(off)).flatten() == bs.flatten().remove(
            lens_prefix(bs, j) + off,
        ),
{
    let bs2 = bs.update(j, bs[j].remove(off));
    lemma_flatten_split3(bs, j);
    lemma_flatten_split3(bs2, j);
    assert(bs2.take(j) =~= bs.take(j));
    assert(bs2.skip(j + 1) =~= bs.skip(j + 1));
    lemma_lens_prefix_flatten(bs, j);
    lemma_lens_prefix_mono(bs, 0, j);
    assert(bs2.flatten() =~= bs.flatten().remove(lens_prefix(bs, j) + off));
}

/// A new empty block anywhere in the chain adds no elements.
proof fn lemma_flatten_insert_empty_block(bs: Seq<Seq<i64>>, k: int)
    requires
        0 <= k <= bs.len(),
    ensures
        bs.insert(k, Seq::<i64>::empty()).flatten() == bs.flatten(),
{
    let bs2 = bs.insert(k, Seq::<i64>::empty());
    lemma_flatten_split(bs, k);
    lemma_flatten_split3(bs2, k);
    assert(bs2.take(k) =~= bs.take(k));
    assert(bs2.skip(k + 1) =~= bs.skip(k));
    assert(bs2.flatten() =~= bs.flatten());
}

/// Detaching an empty block loses no elements.
proof fn lemma_flatten_remove_empty_block(bs: Seq<Seq<i64>>, k: int)
    requires
        0 <= k < bs.len(),
        bs[k].len() == 0,
    ensures
        bs.remove(k).flatten() == bs.flatten(),
{
    let bs2 = bs.remove(k);
    lemma_flatten_split3(bs, k);
    lemma_flatten_split(bs2, k);
    assert(bs2.take(k) =~= bs.take(k));
    assert(bs2.skip(k) =~= bs.skip(k + 1));
    assert(bs2.flatten() =~= bs.flatten());
}

/// Moving the last element of a block onto the front of its successor
/// leaves the chain's elements unchanged.
proof fn lemma_flatten_move_back(bs: Seq<Seq<i64>>, t: int)
    requires
        1 <= t < bs.len(),
        bs[t - 1].len() >= 1,
    ensures
        bs.update(t - 1, bs[t - 1].drop_last()).update(
            t,
            bs[t].insert(0, bs[t - 1].last()),
        ).flatten() == bs.flatten(),
{
    let bs2 = bs.update(t - 1, bs[t - 1].drop_last()).update(t, bs[t].insert(0, bs[t - 1].last()));
    lemma_flatten_split3(bs, t - 1);
    lemma_flatten_split3(bs2, t - 1);
    assert(bs2.take(t - 1) =~= bs.take(t - 1));
    assert(bs.skip(t) =~= seq![bs[t]] + bs.skip(t + 1));
    assert(bs2.skip(t) =~= seq![bs2[t]] + bs2.skip(t + 1));
    lemma_flatten_concat(seq![bs[t]], bs.skip(t + 1));
    lemma_flatten_concat(seq![bs2[t]], bs2.skip(t + 1));
    seq![bs[t]].lemma_flatten_singleton();
    seq![bs2[t]].lemma_flatten_singleton();
    assert(bs2.skip(t + 1) =~= bs.skip(t + 1));
    assert(bs2.flatten() =~= bs.flatten());
}

/// Moving the first element of a block onto the back of its predecessor
/// leaves the chain's elements unchanged.
proof fn lemma_flatten_move_front(bs: Seq<Seq<i64>>, t: int)
    requires
        0 <= t,
        t + 1 < bs.len(),
        bs[t + 1].len() >= 1,
    ensures
        bs.update(t + 1, bs[t + 1].drop_first()).update(
            t,
            bs[t].push(bs[t + 1].first()),
        ).flatten() == bs.flatten(),
{
    let bs2 = bs.update(t + 1, bs[t + 1].drop_first()).update(t, bs[t].push(bs[t + 1].first()));
    lemma_flatten_split3(bs, t);
    lemma_flatten_split3(bs2, t);
    assert(bs2.take(t) =~= bs.take(t));
    assert(bs.skip(t + 1) =~= seq![bs[t + 1]] + bs.skip(t + 2));
    assert(bs2.skip(t + 1) =~= seq![bs2[t + 1]] + bs2.skip(t + 2));
    lemma_flatten_concat(seq![bs[t + 1]], bs.skip(t + 2));
    lemma_flatten_concat(seq![bs2[t + 1]], bs2.skip(t + 2));
    seq![bs[t + 1]].lemma_flatten_singleton();
    seq![bs2[t + 1]].lemma_flatten_singleton();
    assert(bs2.skip(t + 2) =~= bs.skip(t + 2));
    assert(bs2.flatten() =~= bs.flatten());
}

/// Replacing a block of the chain replaces its entry in the per-block views,
/// whatever the replacement block is.
proof fn lemma_views_update(blocks: Seq<ArrayDeque>, j: int)
    requires
        0 <= j < blocks.len(),
    ensures
        forall|b2: ArrayDeque|
            views_of(#[trigger] blocks.update(j, b2)) == views_of(blocks).update(j, b2@),
{
    assert forall|b2: ArrayDeque|
        views_of(#[trigger] blocks.update(j, b2)) == views_of(blocks).update(j, b2@) by {
        assert(views_of(blocks.update(j, b2)) =~= views_of(blocks).update(j, b2@));
    }
}

/// The view that `push_back(0)`, `push_back(1)`, …, `push_back(n - 1)`
/// build from an empty list: each call appends its argument to the view (the
/// ensures of `push_back`), so after `k` calls the view is `counting_seq(k)`.
pub open spec fn counting_seq(n: nat) -> Seq<i64>
    decreases n,
{
    if n == 0 {
        Seq::<i64>::empty()
    } else {
        counting_seq((n - 1) as nat).push((n - 1) as i64)
    }
}

/// Round trip: pushing `0, 1, …, n - 1` onto an empty list and then reading
/// position `i` gives `i` back, for every `n` and every `i < n`. `push_back`
/// appends its argument to the view and `get` returns the view's element at
/// the position asked, so the law reduces to the sequence the pushes build.
pub proof fn lemma_push_back_round_trip(n: nat)
    requires
        n <= i64::MAX,
    ensures
        counting_seq(n).len() == n,
        forall|i: int| 0 <= i < n ==> #[trigger] counting_seq(n)[i] == i as i64,
    decreases n,
{
    if n > 0 {
        lemma_push_back_round_trip((n - 1) as nat);
    }
}

/// Boundary inserts: insertion at the front, in the middle or at the end
/// keeps the relative order of everything already present. `add` at any
/// `idx <= size()` turns the view `s` into `s.insert(idx, x)` (its ensures),
/// and that sequence holds every element that was before `idx` at its old
/// position and every other element one place later, in their old order.
pub proof fn lemma_insert_keeps_order(s: Seq<i64>, idx: int, x: i64)
    requires
        0 <= idx <= s.len(),
    ensures
        s.insert(idx, x).len() == s.len() + 1,
        s.insert(idx, x)[idx] == x,
        forall|k: int| 0 <= k < idx ==> #[trigger] s.insert(idx, x)[k] == s[k],
        forall|k: int| idx <= k < s.len() ==> #[trigger] s.insert(idx, x)[k + 1] == s[k],
{
}

/// One positional call with its arguments: the model over which the count
/// invariant is stated.
pub enum ListOp {
    Add(int, i64),
    Remove(int),
    PushBack(i64),
}

/// The view that one call leaves behind, a call with an out-of-range index
/// leaving the view as it was: exactly what the ensures of `add`, `remove`
/// and `push_back` say of them.
pub open spec fn apply_op(s: Seq<i64>, op: ListOp) -> Seq<i64> {
    match op {
        ListOp::Add(idx, x) => if 0 <= idx <= s.len() {
            s.insert(idx, x)
        } else {
            s
        },
        ListOp::Remove(idx) => if 0 <= idx < s.len() {
            s.remove(idx)
        } else {
            s
        },
        ListOp::PushBack(x) => s.push(x),
    }
}

/// How one call changes the count: one more for a successful insertion, one
/// less for a successful removal, nothing for a rejected index.
pub open spec fn op_delta(s: Seq<i64>, op: ListOp) -> int {
    match op {
        ListOp::Add(idx, _) => if 0 <= idx <= s.len() {
            1
        } else {
            0
        },
        ListOp::Remove(idx) => if 0 <= idx < s.len() {
            -1
        } else {
            0
        },
        ListOp::PushBack(_) => 1,
    }
}

/// The view after a whole run of calls, first call first.
pub open spec fn apply_ops(s: Seq<i64>, ops: Seq<ListOp>) -> Seq<i64>
    decreases ops.len(),
{
    if ops.len() == 0 {
        s
    } else {
        apply_ops(apply_op(s, ops[0]), ops.drop_first())
    }
}

/// The count change over a whole run of calls.
pub open spec fn ops_delta(s: Seq<i64>, ops: Seq<ListOp>) -> int
    decreases ops.len(),
{
    if ops.len() == 0 {
        0
    } else {
        op_delta(s, ops[0]) + ops_delta(apply_op(s, ops[0]), ops.drop_first())
    }
}

/// Count invariant: after any run of `add`, `remove` and `push_back` calls,
/// the number of elements held — what `size` returns — is the starting
/// count plus the successful insertions minus the successful removals.
pub proof fn lemma_count_invariant(s: Seq<i64>, ops: Seq<ListOp>)
    ensures
        apply_ops(s, ops).len() == s.len() + ops_delta(s, ops),
    decreases ops.len(),
{
    if ops.len() > 0 {
        lemma_count_invariant(apply_op(s, ops[0]), ops.drop_first());
    }
}

/// The space-efficient list: a chain of bounded blocks holding one flat
/// sequence of elements, addressable by global position.
#[derive(Debug)]
pub struct SEList {
    blocks: Vec<ArrayDeque>,
    n: usize,
    block_size: usize,
}

impl View for SEList {
    type V = Seq<i64>;

    closed spec fn view(&self) -> Seq<i64> {
        views_of(self.blocks@).flatten()
    }
}

impl SEList {
    /// Every node's block is sound and holds between 1 and `block_size`
    /// elements, and `n` counts the elements over the whole chain.
    pub closed spec fn wf(&self) -> bool {
        &&& 2 <= self.block_size
        &&& self.block_size < usize::MAX / 2
        &&& forall|t: int|
            0 <= t < self.blocks@.len() ==> (#[trigger] self.blocks@[t]).wf()
        &&& forall|t: int|
            0 <= t < self.blocks@.len() ==> 1 <= (#[trigger] self.blocks@[t])@.len()
                <= self.block_size
        &&& self.n == self@.len()
    }

    /// An empty list with the default block capacity of four.
    pub fn new() -> (r: Self)
        ensures
            r.wf(),
            r@ == Seq::<i64>::empty(),
    {
        let r = Self { blocks: Vec::new(), n: 0, block_size: 4 };
        proof {
            assert(views_of(r.blocks@) =~= Seq::<Seq<i64>>::empty());
            assert(r@ =~= Seq::<i64>::empty());
        }
        r
    }

    /// The number of elements held.
    pub fn size(&self) -> (r: usize)
        requires
            self.wf(),
        ensures
            r == self@.len(),
    {
        self.n
    }

    /// Resolves a global index to its owning node and the local offset
    /// within that node's block, walking from whichever end is nearer.
    fn get_location(&self, idx: usize) -> (r: (usize, usize))
        requires
            self.wf(),
            idx < self@.len(),
        ensures
            ({
                let (j, off) = r;
                &&& (j as int) < self.blocks@.len()
                &&& (off as int) < views_of(self.blocks@)[j as int].len()
                &&& lens_prefix(views_of(self.blocks@), j as int) + off == idx
            }),
    {
        let ghost bv = views_of(self.blocks@);
        proof {
            lemma_flatten_len(bv);
        }
        let blocks_len = self.blocks.len();
        if idx < self.n / 2 {
            let mut j: usize = 0;
            let mut rem: usize = idx;
            while rem >= self.blocks[j].size()
                invariant
                    self.wf(),
                    idx < self@.len(),
                    bv == views_of(self.blocks@),
                    bv.flatten().len() == lens_prefix(bv, bv.len() as int),
                    blocks_len == self.blocks@.len(),
                    j < blocks_len,
                    lens_prefix(bv, j as int) + rem == idx,
                decreases self.blocks@.len() - j,
            {
                rem -= self.blocks[j].size();
                j += 1;
                proof {
                    if j == self.blocks@.len() {
                        assert(false);
                    }
                }
            }
            (j, rem)
        } else {
            let mut j: usize = self.blocks.len();
            let mut cur: usize = self.n;
            while cur > idx
                invariant
                    self.wf(),
                    idx < self@.len(),
                    bv == views_of(self.blocks@),
                    bv.flatten().len() == lens_prefix(bv, bv.len() as int),
                    blocks_len == self.blocks@.len(),
                    j <= blocks_len,
                    lens_prefix(bv, j as int) == cur,
                    cur <= self.n,
                    j as int == bv.len() || idx < lens_prefix(bv, j as int + 1),
                decreases j,
            {
                proof {
                    lemma_lens_prefix_mono(bv, 0, j as int);
                    if j == 0 {
                        assert(false);
                    }
                    lemma_lens_prefix_mono(bv, 0, j as int - 1);
                    lemma_lens_prefix_mono(bv, j as int - 1, j as int);
                }
                j -= 1;
                cur -= self.blocks[j].size();
            }
            proof {
                if j as int == bv.len() {
                    assert(false);
                }
            }
            (j, idx - cur)
        }
    }

    /// The element at `idx`, or nothing when `idx` is out of range.
    pub fn get(&self, idx: usize) -> (r: Option<&i64>)
        requires
            self.wf(),
        ensures
            idx < self@.len() ==> (r matches Some(v) && *v == self@[idx as int]),
            idx >= self@.len() ==> r is None,
    {
        if idx >= self.size() {
            return None;
        }
        let (j, off) = self.get_location(idx);
        proof {
            lemma_flatten_index(views_of(self.blocks@), j as int, off as int);
        }
        self.blocks[j].get(off)
    }

    /// A mutable borrow of the element at `idx`, or nothing when `idx` is
    /// out of range; writes through the borrow land at position `idx`.
    pub fn get_mut(&mut self, idx: usize) -> (r: Option<&mut i64>)
        requires
            old(self).wf(),
        ensures
            final(self).wf(),
            idx < old(self)@.len() ==> (r matches Some(v) && *v == old(self)@[idx as int]
                && final(self)@ == old(self)@.update(idx as int, *final(v))),
            idx >= old(self)@.len() ==> r is None && final(self)@ == old(self)@,
    {
        if idx >= self.size() {
            return None;
        }
        let (j, off) = self.get_location(idx);
        proof {
            let bv = views_of(self.blocks@);
            lemma_flatten_index(bv, j as int, off as int);
            lemma_flatten_update_elem(bv, j as int, off as int);
            lemma_views_update(self.blocks@, j as int);
        }
        self.blocks[j].get_mut(off)
    }

    /// Replaces the element at `idx` with `x` and hands back the one it
    /// displaced; out of range, nothing changes and nothing comes back.
    pub fn set(&mut self, idx: usize, x: i64) -> (r: Option<i64>)
        requires
            old(self).wf(),
        ensures
            final(self).wf(),
            idx < old(self)@.len() ==> r == Some(old(self)@[idx as int])
                && final(self)@ == old(self)@.update(idx as int, x),
            idx >= old(self)@.len() ==> r is None && final(self)@ == old(self)@,
    {
        if idx >= self.size() {
            return None;
        }
        let (j, off) = self.get_location(idx);
        proof {
            let bv = views_of(self.blocks@);
            lemma_flatten_index(bv, j as int, off as int);
            lemma_flatten_update_elem(bv, j as int, off as int);
            lemma_views_update(self.blocks@, j as int);
        }
        let r = self.blocks[j].set(off, x);
        proof {
            assert(views_of(self.blocks@) =~= views_of(old(self).blocks@).update(
                j as int,
                views_of(old(self).blocks@)[j as int].update(off as int, x),
            ));
        }
        r
    }

    /// Opens one slot at the back of block `j` by moving a single element
    /// backward through the blocks of `(j, d]`: each hands its last element
    /// to the front of its successor, so block `d` grows by one and block
    /// `j` shrinks by one. The chain's elements are unchanged.
    fn shift_back(&mut self, j: usize, d: usize)
        requires
            2 <= old(self).block_size < usize::MAX / 2,
            j <= d < old(self).blocks@.len(),
            forall|t: int|
                0 <= t < old(self).blocks@.len() ==> (#[trigger] old(self).blocks@[t]).wf(),
            forall|t: int|
                0 <= t < old(self).blocks@.len() ==> (#[trigger] old(self).blocks@[t])@.len()
                    <= old(self).block_size,
            forall|t: int|
                j <= t < d ==> (#[trigger] old(self).blocks@[t])@.len() >= 1,
            old(self).blocks@[d as int]@.len() < old(self).block_size,
        ensures
            final(self).blocks@.len() == old(self).blocks@.len(),
            final(self).n == old(self).n,
            final(self).block_size == old(self).block_size,
            forall|t: int|
                0 <= t < final(self).blocks@.len() ==> (#[trigger] final(self).blocks@[t]).wf(),
            forall|t: int|
                0 <= t < final(self).blocks@.len() ==> (#[trigger] final(self).blocks@[t])@.len()
                    <= final(self).block_size,
            views_of(final(self).blocks@).flatten() == views_of(old(self).blocks@).flatten(),
            forall|t: int|
                (0 <= t < j || d < t < final(self).blocks@.len()) ==> final(self).blocks@[t]
                    == old(self).blocks@[t],
            j < d ==> final(self).blocks@[j as int]@ == old(self).blocks@[j as int]@.drop_last(),
            j == d ==> final(self).blocks@[j as int] == old(self).blocks@[j as int],
            forall|t: int|
                j < t < d ==> (#[trigger] final(self).blocks@[t])@.len() == old(
                    self,
                ).blocks@[t]@.len(),
            j < d ==> final(self).blocks@[d as int]@.len() == old(self).blocks@[d as int]@.len()
                + 1,
    {
        let ghost b0 = old(self).blocks@;
        let mut cur = d;
        while cur > j
            invariant
                j <= cur <= d < self.blocks@.len(),
                self.blocks@.len() == b0.len(),
                self.n == old(self).n,
                self.block_size == old(self).block_size,
                2 <= self.block_size < usize::MAX / 2,
                forall|t: int| 0 <= t < self.blocks@.len() ==> (#[trigger] self.blocks@[t]).wf(),
                forall|t: int|
                    0 <= t < self.blocks@.len() ==> (#[trigger] self.blocks@[t])@.len()
                        <= self.block_size,
                forall|t: int| j <= t < d ==> (#[trigger] b0[t])@.len() >= 1,
                forall|t: int| 0 <= t < b0.len() ==> (#[trigger] b0[t])@.len() <= self.block_size,
                b0[d as int]@.len() < self.block_size,
                views_of(self.blocks@).flatten() == views_of(b0).flatten(),
                forall|t: int|
                    (0 <= t < j || d < t < self.blocks@.len()) ==> self.blocks@[t] == b0[t],
                forall|t: int| j <= t < cur ==> self.blocks@[t] == b0[t],
                cur == d ==> self.blocks@[cur as int] == b0[cur as int],
                cur < d ==> self.blocks@[cur as int]@ == b0[cur as int]@.drop_last(),
                forall|t: int|
                    cur < t < d ==> (#[trigger] self.blocks@[t])@.len() == b0[t]@.len(),
                cur < d ==> self.blocks@[d as int]@.len() == b0[d as int]@.len() + 1,
            decreases cur,
        {
            let ghost pre = self.blocks@;
            proof {
                assert(self.blocks@[cur as int - 1] == b0[cur as int - 1]);
                assert(b0[cur as int - 1]@.len() >= 1);
            }
            let v = self.blocks[cur - 1].pop_back().unwrap();
            let ghost mid = self.blocks@;
            self.blocks[cur].push_front(v);
            proof {
                lemma_views_update(pre, cur as int - 1);
                lemma_views_update(mid, cur as int);
                let pv = views_of(pre);
                assert(views_of(self.blocks@) =~= pv.update(
                    cur as int - 1,
                    pv[cur as int - 1].drop_last(),
                ).update(cur as int, pv[cur as int].insert(0, pv[cur as int - 1].last())));
                lemma_flatten_move_back(pv, cur as int);
                if cur == d {
                    assert(pv[cur as int].len() < self.block_size);
                } else {
                    assert(pv[cur as int] =~= b0[cur as int]@.drop_last());
                    assert(pv[cur as int].len() < self.block_size);
                }
                assert(self.blocks@[cur as int]@.len() <= self.block_size);
                assert(self.blocks@[cur as int - 1]@.len() <= self.block_size);
            }
            cur -= 1;
        }
    }

    /// Grows a saturated window by one node: when the `block_size` blocks
    /// from `j` on are all full, a new empty node is linked in right after
    /// them and the window's elements are redistributed backward, so that
    /// afterwards every block of the window holds `block_size - 1` elements
    /// and only the new last one is full. The origin gains a free slot and
    /// the element order is preserved end to end.
    fn spread(&mut self, j: usize)
        requires
            old(self).wf(),
            j + old(self).block_size <= old(self).blocks@.len(),
            forall|t: int|
                j <= t < j + old(self).block_size ==> (#[trigger] old(self).blocks@[t])@.len()
                    == old(self).block_size,
        ensures
            final(self).wf(),
            final(self)@ == old(self)@,
            final(self).n == old(self).n,
            final(self).block_size == old(self).block_size,
            final(self).blocks@.len() == old(self).blocks@.len() + 1,
            forall|t: int| 0 <= t < j ==> final(self).blocks@[t] == old(self).blocks@[t],
            final(self).blocks@[j as int]@.len() == old(self).block_size - 1,
    {
        let len = self.blocks.len();
        proof {
            assert(j + self.block_size <= len);
        }
        let d = j + self.block_size;
        let ghost bvp = views_of(self.blocks@);
        self.blocks.insert(d, ArrayDeque::with_capacity(self.block_size));
        proof {
            assert(views_of(self.blocks@) =~= bvp.insert(d as int, Seq::<i64>::empty()));
            lemma_flatten_insert_empty_block(bvp, d as int);
        }
        let ghost b0 = self.blocks@;
        let ghost bv0 = views_of(b0);
        let mut cur = d;
        while cur > j
            invariant
                j <= cur <= d,
                d == j + self.block_size,
                self.blocks@.len() == b0.len() == len + 1,
                d < self.blocks@.len(),
                self.n == old(self).n,
                self.block_size == old(self).block_size,
                2 <= self.block_size < usize::MAX / 2,
                forall|t: int| 0 <= t < self.blocks@.len() ==> (#[trigger] self.blocks@[t]).wf(),
                forall|t: int|
                    0 <= t < self.blocks@.len() ==> (#[trigger] self.blocks@[t])@.len()
                        <= self.block_size,
                forall|t: int| j <= t < d ==> (#[trigger] b0[t])@.len() == self.block_size,
                b0[d as int]@.len() == 0,
                views_of(self.blocks@).flatten() == views_of(b0).flatten(),
                forall|t: int|
                    (0 <= t < j || d < t < self.blocks@.len()) ==> self.blocks@[t] == b0[t],
                forall|t: int| j <= t < cur ==> self.blocks@[t] == b0[t],
                forall|t: int|
                    cur < t < d ==> (#[trigger] self.blocks@[t])@.len() == self.block_size - 1,
                cur < d ==> self.blocks@[d as int]@.len() == self.block_size,
                cur == d ==> self.blocks@[cur as int] == b0[cur as int],
                cur < d ==> self.blocks@[cur as int]@.len() == d - 1 - cur,
            decreases cur,
        {
            let target = if cur == d {
                self.block_size
            } else {
                self.block_size - 1
            };
            let ghost pre_fill = self.blocks@;
            // pull from the predecessor until this block reaches its share
            while self.blocks[cur].size() < target && self.blocks[cur - 1].size() > 0
                invariant
                    j < cur <= d < self.blocks@.len(),
                    d == j + self.block_size,
                    self.blocks@.len() == b0.len() == len + 1,
                    self.n == old(self).n,
                    self.block_size == old(self).block_size,
                    2 <= self.block_size < usize::MAX / 2,
                    target == (if cur == d {
                        self.block_size as int
                    } else {
                        self.block_size - 1
                    }),
                    forall|t: int|
                        0 <= t < self.blocks@.len() ==> (#[trigger] self.blocks@[t]).wf(),
                    forall|t: int|
                        0 <= t < self.blocks@.len() ==> (#[trigger] self.blocks@[t])@.len()
                            <= self.block_size,
                    views_of(self.blocks@).flatten() == views_of(b0).flatten(),
                    forall|t: int|
                        (0 <= t < cur - 1 || cur < t < self.blocks@.len()) ==> self.blocks@[t]
                            == pre_fill[t],
                    self.blocks@[cur as int]@.len() + self.blocks@[cur as int - 1]@.len()
                        == pre_fill[cur as int]@.len() + pre_fill[cur as int - 1]@.len(),
                    self.blocks@[cur as int]@.len() >= pre_fill[cur as int]@.len(),
                    self.blocks@[cur as int]@.len() <= target,
                decreases target - self.blocks@[cur as int]@.len(),
            {
                let ghost pre = self.blocks@;
                let v = self.blocks[cur - 1].pop_back().unwrap();
                let ghost mid = self.blocks@;
                self.blocks[cur].push_front(v);
                proof {
                    lemma_views_update(pre, cur as int - 1);
                    lemma_views_update(mid, cur as int);
                    let pv = views_of(pre);
                    assert(views_of(self.blocks@) =~= pv.update(
                        cur as int - 1,
                        pv[cur as int - 1].drop_last(),
                    ).update(cur as int, pv[cur as int].insert(0, pv[cur as int - 1].last())));
                    lemma_flatten_move_back(pv, cur as int);
                }
            }
            proof {
                // the predecessor was a full block, so the fill can only have
                // stopped at the target share
                assert(pre_fill[cur as int - 1] == b0[cur as int - 1]);
                assert(pre_fill[cur as int - 1]@.len() == self.block_size);
                assert(self.blocks@[cur as int]@.len() == target);
                assert forall|t: int| j <= t < cur - 1 implies self.blocks@[t] == b0[t] by {
                    assert(self.blocks@[t] == pre_fill[t]);
                }
                assert forall|t: int|
                    (0 <= t < j || d < t < self.blocks@.len()) implies self.blocks@[t] == b0[
                    t] by {
                    assert(self.blocks@[t] == pre_fill[t]);
                }
                assert forall|t: int| cur - 1 < t < d implies (#[trigger] self.blocks@[t])@.len()
                    == self.block_size - 1 by {
                    if t > cur {
                        assert(self.blocks@[t] == pre_fill[t]);
                    }
                }
                if cur < d {
                    assert(self.blocks@[d as int] == pre_fill[d as int]);
                }
            }
            cur -= 1;
        }
        proof {
            assert(self.blocks@[j as int]@.len() == self.block_size - 1);
            assert forall|t: int| 0 <= t < j implies self.blocks@[t] == old(self).blocks@[t] by {
                assert(self.blocks@[t] == b0[t]);
            }
            assert forall|t: int|
                0 <= t < self.blocks@.len() implies 1 <= (#[trigger] self.blocks@[t])@.len()
                    <= self.block_size by {
                if t < j {
                    assert(self.blocks@[t] == b0[t]);
                    assert(b0[t] == old(self).blocks@[t]);
                } else if t == j as int {
                } else if t < d as int {
                } else if t == d as int {
                } else {
                    assert(self.blocks@[t] == b0[t]);
                    assert(b0[t] == old(self).blocks@[t - 1]);
                }
            }
        }
    }

    /// Appends `x` after the last element, linking in a fresh tail node
    /// when the chain is empty or its tail block is already full.
    pub fn push_back(&mut self, x: i64)
        requires
            old(self).wf(),
            old(self)@.len() < usize::MAX,
        ensures
            final(self).wf(),
            final(self)@ == old(self)@.push(x),
    {
        if self.n == 0 {
            proof {
                lemma_flatten_min_len(views_of(self.blocks@));
            }
            let ghost bvp = views_of(self.blocks@);
            self.blocks.push(ArrayDeque::with_capacity(self.block_size));
            proof {
                assert(views_of(self.blocks@) =~= bvp.push(Seq::<i64>::empty()));
                bvp.lemma_flatten_push(Seq::<i64>::empty());
                assert(views_of(self.blocks@).flatten() =~= bvp.flatten());
            }
        } else {
            proof {
                if self.blocks@.len() == 0 {
                    assert(views_of(self.blocks@) =~= Seq::<Seq<i64>>::empty());
                    assert(false);
                }
            }
            let last = self.blocks.len() - 1;
            if self.blocks[last].size() == self.block_size {
                let ghost bvp = views_of(self.blocks@);
                self.blocks.push(ArrayDeque::with_capacity(self.block_size));
                proof {
                    assert(views_of(self.blocks@) =~= bvp.push(Seq::<i64>::empty()));
                    bvp.lemma_flatten_push(Seq::<i64>::empty());
                    assert(views_of(self.blocks@).flatten() =~= bvp.flatten());
                }
            }
        }
        let ghost bv1 = views_of(self.blocks@);
        let ghost blocks1 = self.blocks@;
        let last = self.blocks.len() - 1;
        self.blocks[last].push_back(x);
        self.n += 1;
        proof {
            let l = last as int;
            lemma_views_update(blocks1, l);
            assert(views_of(self.blocks@) =~= bv1.update(l, bv1[l].push(x)));
            assert(bv1[l].push(x) =~= bv1[l].insert(bv1[l].len() as int, x));
            lemma_flatten_insert_elem(bv1, l, bv1[l].len() as int, x);
            lemma_flatten_len(bv1);
            assert(bv1.flatten().insert(bv1.flatten().len() as int, x) =~= bv1.flatten().push(x));
            assert(self@ =~= old(self)@.push(x));
        }
    }

    /// Fills the slot that a removal left in block `j` by moving a single
    /// element forward through the blocks of `[j, d)`: each pulls the first
    /// element of its successor onto its own back, so block `j` grows by one
    /// and block `d` shrinks by one. The chain's elements are unchanged.
    fn shift_forward(&mut self, j: usize, d: usize)
        requires
            2 <= old(self).block_size < usize::MAX / 2,
            j <= d < old(self).blocks@.len(),
            forall|t: int|
                0 <= t < old(self).blocks@.len() ==> (#[trigger] old(self).blocks@[t]).wf(),
            forall|t: int|
                0 <= t < old(self).blocks@.len() ==> (#[trigger] old(self).blocks@[t])@.len()
                    <= old(self).block_size,
            forall|t: int|
                j < t <= d ==> (#[trigger] old(self).blocks@[t])@.len() >= 1,
            old(self).blocks@[j as int]@.len() < old(self).block_size,
        ensures
            final(self).blocks@.len() == old(self).blocks@.len(),
            final(self).n == old(self).n,
            final(self).block_size == old(self).block_size,
            forall|t: int|
                0 <= t < final(self).blocks@.len() ==> (#[trigger] final(self).blocks@[t]).wf(),
            forall|t: int|
                0 <= t < final(self).blocks@.len() ==> (#[trigger] final(self).blocks@[t])@.len()
                    <= final(self).block_size,
            views_of(final(self).blocks@).flatten() == views_of(old(self).blocks@).flatten(),
            forall|t: int|
                (0 <= t < j || d < t < final(self).blocks@.len()) ==> final(self).blocks@[t]
                    == old(self).blocks@[t],
            j < d ==> final(self).blocks@[j as int]@.len() == old(self).blocks@[j as int]@.len()
                + 1,
            j == d ==> final(self).blocks@[j as int] == old(self).blocks@[j as int],
            forall|t: int|
                j < t < d ==> (#[trigger] final(self).blocks@[t])@.len() == old(
                    self,
                ).blocks@[t]@.len(),
            j < d ==> final(self).blocks@[d as int]@.len() == old(self).blocks@[d as int]@.len()
                - 1,
    {
        let ghost b0 = old(self).blocks@;
        let mut cur = j;
        while cur < d
            invariant
                j <= cur <= d < self.blocks@.len(),
                self.blocks@.len() == b0.len(),
                self.n == old(self).n,
                self.block_size == old(self).block_size,
                2 <= self.block_size < usize::MAX / 2,
                forall|t: int| 0 <= t < self.blocks@.len() ==> (#[trigger] self.blocks@[t]).wf(),
                forall|t: int|
                    0 <= t < self.blocks@.len() ==> (#[trigger] self.blocks@[t])@.len()
                        <= self.block_size,
                forall|t: int| j < t <= d ==> (#[trigger] b0[t])@.len() >= 1,
                forall|t: int| 0 <= t < b0.len() ==> (#[trigger] b0[t])@.len() <= self.block_size,
                b0[j as int]@.len() < self.block_size,
                views_of(self.blocks@).flatten() == views_of(b0).flatten(),
                forall|t: int|
                    (0 <= t < j || d < t < self.blocks@.len()) ==> self.blocks@[t] == b0[t],
                forall|t: int| cur < t <= d ==> self.blocks@[t] == b0[t],
                cur == j ==> self.blocks@[j as int] == b0[j as int],
                cur > j ==> self.blocks@[j as int]@.len() == b0[j as int]@.len() + 1,
                forall|t: int|
                    j < t < cur ==> (#[trigger] self.blocks@[t])@.len() == b0[t]@.len(),
                cur > j ==> self.blocks@[cur as int]@.len() == b0[cur as int]@.len() - 1,
            decreases d - cur,
        {
            let ghost pre = self.blocks@;
            proof {
                assert(self.blocks@[cur as int + 1] == b0[cur as int + 1]);
                assert(b0[cur as int + 1]@.len() >= 1);
                assert(self.blocks@[cur as int]@.len() < self.block_size);
            }
            let v = self.blocks[cur + 1].pop_front().unwrap();
            let ghost mid = self.blocks@;
            self.blocks[cur].push_back(v);
            proof {
                lemma_views_update(pre, cur as int + 1);
                lemma_views_update(mid, cur as int);
                let pv = views_of(pre);
                assert(views_of(self.blocks@) =~= pv.update(
                    cur as int + 1,
                    pv[cur as int + 1].drop_first(),
                ).update(cur as int, pv[cur as int].push(pv[cur as int + 1].first())));
                lemma_flatten_move_front(pv, cur as int);
            }
            cur += 1;
        }
    }

    /// Shrinks a drained window by one node: when the `block_size` blocks
    /// from `j` on all have slack, elements are pulled forward block by
    /// block until a block runs empty, and that node is unlinked from the
    /// chain. The origin block only ever gains elements.
    fn gather(&mut self, j: usize)
        requires
            old(self).wf(),
            j + old(self).block_size <= old(self).blocks@.len(),
            forall|t: int|
                j <= t < j + old(self).block_size ==> (#[trigger] old(self).blocks@[t])@.len()
                    < old(self).block_size,
        ensures
            final(self).blocks@.len() == old(self).blocks@.len() - 1,
            final(self).n == old(self).n,
            final(self).block_size == old(self).block_size,
            forall|t: int|
                0 <= t < final(self).blocks@.len() ==> (#[trigger] final(self).blocks@[t]).wf(),
            forall|t: int|
                0 <= t < final(self).blocks@.len()
                    ==> 1 <= (#[trigger] final(self).blocks@[t])@.len() <= final(self).block_size,
            views_of(final(self).blocks@).flatten() == views_of(old(self).blocks@).flatten(),
            forall|t: int| 0 <= t < j ==> final(self).blocks@[t] == old(self).blocks@[t],
            final(self).blocks@[j as int]@.len() >= old(self).blocks@[j as int]@.len() + 1,
    {
        let ghost b0 = old(self).blocks@;
        let ghost bv0 = views_of(b0);
        let len = self.blocks.len();
        let mut cur = j;
        while cur < j + self.block_size - 1
            invariant
                b0 == old(self).blocks@,
                j <= cur <= j + self.block_size - 1,
                j + self.block_size <= self.blocks@.len(),
                self.blocks@.len() == b0.len() == len,
                self.n == old(self).n,
                self.block_size == old(self).block_size,
                2 <= self.block_size < usize::MAX / 2,
                forall|t: int| 0 <= t < self.blocks@.len() ==> (#[trigger] self.blocks@[t]).wf(),
                forall|t: int|
                    0 <= t < self.blocks@.len() ==> (#[trigger] self.blocks@[t])@.len()
                        <= self.block_size,
                forall|t: int|
                    0 <= t < b0.len() ==> 1 <= (#[trigger] b0[t])@.len() <= self.block_size,
                forall|t: int|
                    j <= t < j + self.block_size ==> (#[trigger] b0[t])@.len()
                        < self.block_size,
                views_of(self.blocks@).flatten() == views_of(b0).flatten(),
                forall|t: int|
                    (0 <= t < j || j + self.block_size <= t < self.blocks@.len())
                        ==> self.blocks@[t] == b0[t],
                forall|t: int| cur < t < j + self.block_size ==> self.blocks@[t] == b0[t],
                forall|t: int|
                    j <= t < cur ==> (#[trigger] self.blocks@[t])@.len() == self.block_size,
                cur == j ==> self.blocks@[j as int] == b0[j as int],
                cur > j ==> self.blocks@[cur as int]@.len() >= 1,
                cur > j ==> self.blocks@[j as int]@.len() == self.block_size,
            decreases j + self.block_size - 1 - cur,
        {
            let ghost pre_fill = self.blocks@;
            // pull from the successor until this block is full or the
            // successor runs dry
            while self.blocks[cur].size() < self.block_size && self.blocks[cur + 1].size() > 0
                invariant
                    j <= cur < j + self.block_size - 1,
                    j + self.block_size <= self.blocks@.len(),
                    self.blocks@.len() == b0.len() == len,
                    self.n == old(self).n,
                    self.block_size == old(self).block_size,
                    2 <= self.block_size < usize::MAX / 2,
                    forall|t: int|
                        0 <= t < self.blocks@.len() ==> (#[trigger] self.blocks@[t]).wf(),
                    forall|t: int|
                        0 <= t < self.blocks@.len() ==> (#[trigger] self.blocks@[t])@.len()
                            <= self.block_size,
                    views_of(self.blocks@).flatten() == views_of(b0).flatten(),
                    forall|t: int|
                        (0 <= t < cur || cur + 1 < t < self.blocks@.len()) ==> self.blocks@[t]
                            == pre_fill[t],
                    self.blocks@[cur as int]@.len() + self.blocks@[cur as int + 1]@.len()
                        == pre_fill[cur as int]@.len() + pre_fill[cur as int + 1]@.len(),
                    self.blocks@[cur as int]@.len() >= pre_fill[cur as int]@.len(),
                decreases self.blocks@[cur as int + 1]@.len(),
            {
                let ghost pre = self.blocks@;
                let v = self.blocks[cur + 1].pop_front().unwrap();
                let ghost mid = self.blocks@;
                self.blocks[cur].push_back(v);
                proof {
                    lemma_views_update(pre, cur as int + 1);
                    lemma_views_update(mid, cur as int);
                    let pv = views_of(pre);
                    assert(views_of(self.blocks@) =~= pv.update(
                        cur as int + 1,
                        pv[cur as int + 1].drop_first(),
                    ).update(cur as int, pv[cur as int].push(pv[cur as int + 1].first())));
                    lemma_flatten_move_front(pv, cur as int);
                }
            }
            if self.blocks[cur + 1].size() == 0 {
                let ghost pre_rm = self.blocks@;
                self.blocks.remove(cur + 1);
                proof {
                    assert(views_of(self.blocks@) =~= views_of(pre_rm).remove(cur as int + 1));
                    lemma_flatten_remove_empty_block(views_of(pre_rm), cur as int + 1);
                    assert forall|t: int| 0 <= t < self.blocks@.len() implies 1 <= (
                    #[trigger] self.blocks@[t])@.len() <= self.block_size by {
                        if t < cur as int {
                            assert(self.blocks@[t] == pre_rm[t]);
                            assert(pre_rm[t] == pre_fill[t]);
                            if t < j {
                                assert(pre_fill[t] == b0[t]);
                            } else {
                                assert(pre_fill[t]@.len() == self.block_size);
                            }
                        } else if t == cur as int {
                            assert(self.blocks@[t] == pre_rm[t]);
                            assert(pre_rm[t]@.len() >= pre_fill[t]@.len());
                            if cur == j {
                                assert(pre_fill[t] == b0[t]);
                            }
                            assert(pre_fill[t]@.len() >= 1);
                        } else {
                            assert(self.blocks@[t] == pre_rm[t + 1]);
                            assert(pre_rm[t + 1] == pre_fill[t + 1]);
                            assert(pre_fill[t + 1] == b0[t + 1]);
                        }
                    }
                    assert(pre_rm[cur as int]@.len() == pre_fill[cur as int]@.len()
                        + pre_fill[cur as int + 1]@.len());
                    if cur == j {
                        assert(pre_fill[j as int] == b0[j as int]);
                        assert(pre_fill[j as int + 1] == b0[j as int + 1]);
                        assert(b0[j as int + 1]@.len() >= 1);
                        assert(self.blocks@[j as int]@.len() >= b0[j as int]@.len() + 1);
                    } else {
                        assert(self.blocks@[j as int] == pre_rm[j as int]);
                        assert(pre_rm[j as int] == pre_fill[j as int]);
                        assert(pre_fill[j as int]@.len() == self.block_size);
                        assert(self.blocks@[j as int]@.len() >= b0[j as int]@.len() + 1);
                    }
                    assert forall|t: int| 0 <= t < j implies self.blocks@[t] == b0[t] by {
                        assert(self.blocks@[t] == pre_rm[t]);
                        assert(pre_rm[t] == pre_fill[t]);
                        assert(pre_fill[t] == b0[t]);
                    }
                }
                return;
            }
            proof {
                assert(self.blocks@[cur as int]@.len() == self.block_size);
                assert(self.blocks@[cur as int + 1]@.len() >= 1);
                assert forall|t: int|
                    (0 <= t < j || j + self.block_size <= t < self.blocks@.len())
                        implies self.blocks@[t] == b0[t] by {
                    assert(self.blocks@[t] == pre_fill[t]);
                }
                assert forall|t: int| j <= t < cur implies (#[trigger] self.blocks@[t])@.len()
                    == self.block_size by {
                    assert(self.blocks@[t] == pre_fill[t]);
                }
                assert forall|t: int| cur + 1 < t < j + self.block_size
                    implies self.blocks@[t] == b0[t] by {
                    assert(self.blocks@[t] == pre_fill[t]);
                }
                if cur > j {
                    assert(self.blocks@[j as int] == pre_fill[j as int]);
                }
            }
            cur += 1;
        }
        proof {
            // the window held at most block_size * (block_size - 1) elements,
            // yet block_size - 1 of its blocks are now full and the last one
            // is still non-empty: impossible, so the loop cannot run out
            let b = self.block_size as int;
            let bv1 = views_of(self.blocks@);
            lemma_flatten_len(bv0);
            lemma_flatten_len(bv1);
            lemma_lens_prefix_agree(bv1, bv0, j as int);
            lemma_lens_suffix_agree(bv1, bv0, j + b);
            lemma_lens_prefix_run_bound(bv0, j as int, j + b, b - 1);
            lemma_lens_prefix_run_exact(bv1, j as int, j + b - 1, b);
            assert(bv1[j + b - 1].len() >= 1);
            assert((b - 1) * b == b * (b - 1)) by (nonlinear_arith);
            assert(false);
        }
    }

    /// Inserts `x` before the element at `idx`. When the window of
    /// `block_size` blocks from the origin on is saturated, the chain first
    /// grows by one node (`spread`); otherwise one element is shifted
    /// backward to the first block with slack (linking in a fresh tail node
    /// if the chain ends full). `idx == size()` appends; past that, the
    /// list is left as it was.
    pub fn add(&mut self, idx: usize, x: i64)
        requires
            old(self).wf(),
            old(self)@.len() < usize::MAX,
        ensures
            final(self).wf(),
            idx <= old(self)@.len() ==> final(self)@ == old(self)@.insert(idx as int, x),
            idx > old(self)@.len() ==> final(self)@ == old(self)@,
    {
        if idx >= self.size() {
            if idx == self.size() {
                self.push_back(x);
                proof {
                    assert(old(self)@.push(x) =~= old(self)@.insert(idx as int, x));
                }
            }
            return;
        }
        let ghost v0 = self@;
        let ghost bv0 = views_of(self.blocks@);
        let (j, off) = self.get_location(idx);
        let mut k = j;
        let mut r: usize = 0;
        while r < self.block_size && k < self.blocks.len() && self.blocks[k].size()
            == self.block_size
            invariant
                self == old(self),
                self.wf(),
                idx < self@.len(),
                j <= k <= self.blocks@.len(),
                r == k - j,
                r <= self.block_size,
                forall|t: int|
                    j <= t < k ==> (#[trigger] self.blocks@[t])@.len() == self.block_size,
            decreases self.blocks@.len() - k,
        {
            r += 1;
            k += 1;
        }
        if r == self.block_size {
            self.spread(j);
        } else {
            if k == self.blocks.len() {
                // the chain ends inside the window with every scanned block
                // full: link in a fresh tail node to take the shifted element
                let ghost bvp = views_of(self.blocks@);
                self.blocks.push(ArrayDeque::with_capacity(self.block_size));
                proof {
                    assert(views_of(self.blocks@) =~= bvp.push(Seq::<i64>::empty()));
                    bvp.lemma_flatten_push(Seq::<i64>::empty());
                    assert(views_of(self.blocks@).flatten() =~= bvp.flatten());
                }
            }
            self.shift_back(j, k);
        }
        let ghost bv1 = views_of(self.blocks@);
        let ghost blocks1 = self.blocks@;
        proof {
            lemma_lens_prefix_agree(bv1, bv0, j as int);
        }
        self.blocks[j].add(off, x);
        self.n += 1;
        proof {
            lemma_views_update(blocks1, j as int);
            assert(views_of(self.blocks@) =~= bv1.update(
                j as int,
                bv1[j as int].insert(off as int, x),
            ));
            lemma_flatten_insert_elem(bv1, j as int, off as int, x);
            assert(self@ =~= v0.insert(idx as int, x));
        }
    }

    /// Removes and returns the element at `idx`. When the window of
    /// `block_size` blocks from the origin on all have slack, the chain
    /// first shrinks by one node (`gather`); otherwise the freed slot is
    /// filled by shifting one element forward from the first full block (or
    /// from the chain's tail, unlinking the tail node if it runs empty).
    /// Out of range, nothing changes and nothing comes back.
    pub fn remove(&mut self, idx: usize) -> (r: Option<i64>)
        requires
            old(self).wf(),
        ensures
            final(self).wf(),
            idx < old(self)@.len() ==> r == Some(old(self)@[idx as int])
                && final(self)@ == old(self)@.remove(idx as int),
            idx >= old(self)@.len() ==> r is None && final(self)@ == old(self)@,
    {
        if idx >= self.size() {
            return None;
        }
        let ghost v0 = self@;
        let ghost bv0 = views_of(self.blocks@);
        let (j, off) = self.get_location(idx);
        let mut k = j;
        let mut r: usize = 0;
        while r < self.block_size && k < self.blocks.len() && self.blocks[k].size()
            < self.block_size
            invariant
                self == old(self),
                self.wf(),
                idx < self@.len(),
                j <= k <= self.blocks@.len(),
                r == k - j,
                r <= self.block_size,
                forall|t: int|
                    j <= t < k ==> (#[trigger] self.blocks@[t])@.len() < self.block_size,
            decreases self.blocks@.len() - k,
        {
            r += 1;
            k += 1;
        }
        let result;
        if r == self.block_size {
            self.gather(j);
            let ghost bv1 = views_of(self.blocks@);
            let ghost blocks1 = self.blocks@;
            proof {
                lemma_lens_prefix_agree(bv1, bv0, j as int);
                lemma_flatten_index(bv1, j as int, off as int);
                lemma_flatten_remove_elem(bv1, j as int, off as int);
                lemma_views_update(blocks1, j as int);
            }
            result = self.blocks[j].remove(off);
            proof {
                assert(views_of(self.blocks@) =~= bv1.update(
                    j as int,
                    bv1[j as int].remove(off as int),
                ));
                assert(views_of(self.blocks@).flatten() == v0.remove(idx as int));
                assert(result == Some(v0[idx as int]));
            }
        } else {
            proof {
                if self.blocks@.len() == 0 {
                    assert(views_of(self.blocks@) =~= Seq::<Seq<i64>>::empty());
                    assert(false);
                }
            }
            let dist = if k < self.blocks.len() {
                k
            } else {
                k - 1
            };
            let ghost blocks1 = self.blocks@;
            proof {
                lemma_flatten_index(bv0, j as int, off as int);
                lemma_flatten_remove_elem(bv0, j as int, off as int);
                lemma_views_update(blocks1, j as int);
            }
            result = self.blocks[j].remove(off);
            proof {
                assert(views_of(self.blocks@) =~= bv0.update(
                    j as int,
                    bv0[j as int].remove(off as int),
                ));
                assert(views_of(self.blocks@).flatten() == v0.remove(idx as int));
                assert(result == Some(v0[idx as int]));
            }
            self.shift_forward(j, dist);
            if self.blocks[dist].size() == 0 {
                let ghost pre_rm = self.blocks@;
                self.blocks.remove(dist);
                proof {
                    assert(views_of(self.blocks@) =~= views_of(pre_rm).remove(dist as int));
                    lemma_flatten_remove_empty_block(views_of(pre_rm), dist as int);
                }
            }
        }
        self.n -= 1;
        proof {
            assert(self@ =~= v0.remove(idx as int));
        }
        result
    }
}

} // verus!
