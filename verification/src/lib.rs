//! Array-backed containers and a space-efficient positional list.
//!
//! The centrepiece is [`se_list::SEList`], a positional sequence stored as a
//! chain of bounded blocks: array-like random access whose single structural
//! change is bounded by the block capacity rather than the sequence length.
//! The bounded block itself is [`array_deque::ArrayDeque`], a growable ring
//! buffer with double-ended push and pop over a [`backing_array::BackingArray`].
//! Around them stand the simpler array-backed containers, a singly-linked
//! list, and a heap sort built on the binary min-heap.
//!
//! Every container carries a view — the mathematical value it holds, a
//! `Seq` or `Multiset` — and every operation's contract says how the view
//! changes and what comes back, for every input.

pub mod array_deque;
pub mod array_queue;
pub mod array_stack;
pub mod backing_array;
pub mod binary_heap;
pub mod se_list;
pub mod sl_list;
pub mod sorts;

pub use array_deque::ArrayDeque;
pub use array_queue::ArrayQueue;
pub use array_stack::ArrayStack;
pub use backing_array::BackingArray;
pub use binary_heap::BinaryHeap;
pub use se_list::SEList;
pub use sl_list::SLList;
pub use sorts::heap_sort;
