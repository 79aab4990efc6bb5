//! A singly-linked list with stack and queue ends.

use vstd::prelude::*;

verus! {

/// One link of the chain: a value and ownership of the rest.
#[derive(Debug)]
struct Node {
    value: i64,
    next: Option<Box<Node>>,
}

/// The values held from this link to the end of the chain.
spec fn node_seq(node: Node) -> Seq<i64>
    decreases node,
{
    match node.next {
        None => seq![node.value],
        Some(rest) => seq![node.value] + node_seq(*rest),
    }
}

/// A singly-linked list: push and pop at the front in constant time, push
/// at the back by walking the chain.
#[derive(Debug)]
pub struct SLList {
    head: Option<Box<Node>>,
    n: usize,
}

impl View for SLList {
    type V = Seq<i64>;

    closed spec fn view(&self) -> Seq<i64> {
        match self.head {
            None => Seq::<i64>::empty(),
            Some(node) => node_seq(*node),
        }
    }
}

/// Appends `x` after the last link of the chain starting at `node`.
fn push_back_node(node: &mut Node, x: i64)
    ensures
        node_seq(*final(node)) == node_seq(*old(node)).push(x),
    decreases *old(node),
{
    match &mut node.next {
        Some(rest) => {
            push_back_node(rest, x);
            proof {
                assert(node_seq(*node) =~= node_seq(*old(node)).push(x));
            }
        },
        None => {
            node.next = Some(Box::new(Node { value: x, next: None }));
            proof {
                reveal_with_fuel(node_seq, 3);
                assert(node_seq(*node) =~= node_seq(*old(node)).push(x));
            }
        },
    }
}

impl SLList {
    /// The count mirrors the chain.
    pub closed spec fn wf(&self) -> bool {
        self.n == self@.len()
    }

    /// An empty list.
    pub fn new() -> (r: Self)
        ensures
            r.wf(),
            r@ == Seq::<i64>::empty(),
    {
        Self { head: None, n: 0 }
    }

    /// Prepends `x` before the first element.
    pub fn push_front(&mut self, x: i64)
        requires
            old(self).wf(),
            old(self)@.len() < usize::MAX,
        ensures
            final(self).wf(),
            final(self)@ == seq![x] + old(self)@,
    {
        let mut rest: Option<Box<Node>> = None;
        core::mem::swap(&mut rest, &mut self.head);
        self.head = Some(Box::new(Node { value: x, next: rest }));
        self.n += 1;
        proof {
            assert(self@ =~= seq![x] + old(self)@);
        }
    }

    /// Removes and returns the first element, if there is one.
    pub fn pop_front(&mut self) -> (r: Option<i64>)
        requires
            old(self).wf(),
        ensures
            final(self).wf(),
            old(self)@.len() > 0 ==> r == Some(old(self)@.first())
                && final(self)@ == old(self)@.drop_first(),
            old(self)@.len() == 0 ==> r is None && final(self)@ == old(self)@,
    {
        let mut taken: Option<Box<Node>> = None;
        core::mem::swap(&mut taken, &mut self.head);
        match taken {
            None => None,
            Some(boxed) => {
                let node = *boxed;
                self.head = node.next;
                self.n -= 1;
                proof {
                    assert(self@ =~= old(self)@.drop_first());
                }
                Some(node.value)
            },
        }
    }

    /// Appends `x` after the last element, walking the whole chain.
    pub fn push_back(&mut self, x: i64)
        requires
            old(self).wf(),
            old(self)@.len() < usize::MAX,
        ensures
            final(self).wf(),
            final(self)@ == old(self)@.push(x),
    {
        match &mut self.head {
            None => {
                self.head = Some(Box::new(Node { value: x, next: None }));
                self.n = 1;
                proof {
                    assert(self@ =~= old(self)@.push(x));
                }
            },
            Some(node) => {
                push_back_node(node, x);
                self.n += 1;
            },
        }
    }
}

} // verus!
