use vstd::prelude::*;

use crate::tree::{
    lemma_children_view_index, lemma_children_view_len, preorder_from, Node, SpecTree,
};

verus! {

/// The subtree views still to be yielded by a stack of suspended frames: for
/// each frame, top first, the pre-orders of the child slots its cursor has not
/// passed yet.
pub open spec fn rem_stack<'a>(s: Seq<(usize, &'a Node)>) -> Seq<SpecTree>
    decreases s.len(),
{
    if s.len() == 0 {
        Seq::empty()
    } else {
        preorder_from(s.last().1@.children, s.last().0 as int) + rem_stack(s.drop_last())
    }
}

/// A lazy depth-first traversal of a tree: nodes come out in pre-order, a
/// node before its children, child slots in ascending index order. The
/// traversal keeps an explicit stack of (next-child-cursor, node) frames
/// rather than recursing, and is not restartable: a fresh iterator must be
/// made to traverse again.
pub struct NodeIterator<'a> {
    stack: Vec<(usize, &'a Node)>,
    first: bool,
}

impl<'a> NodeIterator<'a> {
    /// The subtree views this traversal has yet to yield, in order.
    pub closed spec fn remaining(self) -> Seq<SpecTree> {
        if self.first && self.stack@.len() > 0 {
            seq![self.stack@[0].1@] + rem_stack(self.stack@)
        } else {
            rem_stack(self.stack@)
        }
    }

    /// A fresh traversal of the tree headed by `node`.
    pub fn new(node: &'a Node) -> (it: NodeIterator<'a>)
        ensures
            it.remaining() == node@.preorder(),
    {
        let mut stack: Vec<(usize, &'a Node)> = Vec::new();
        stack.push((0, node));
        let it = NodeIterator { stack, first: true };
        proof {
            assert(it.stack@.len() == 1);
            assert(it.stack@.last() == (0usize, node));
            assert(rem_stack(it.stack@) == preorder_from(node@.children, 0) + rem_stack(
                it.stack@.drop_last(),
            ));
            assert(it.stack@.drop_last().len() == 0);
            assert(rem_stack(it.stack@.drop_last()) == Seq::<SpecTree>::empty());
            assert(it.remaining() =~= node@.preorder());
        }
        it
    }

    /// The next node of the traversal: the head of `remaining`, or `None`
    /// once the traversal is exhausted; after exhaustion every further call
    /// keeps returning `None`.
    pub fn next(&mut self) -> (r: Option<&'a Node>)
        ensures
            old(self).remaining().len() == 0 ==> r is None && final(self).remaining().len() == 0,
            old(self).remaining().len() > 0 ==> r is Some && r->Some_0@ == old(
                self,
            ).remaining()[0] && final(self).remaining() == old(self).remaining().skip(1),
    {
        if self.first {
            self.first = false;
            if self.stack.len() == 0 {
                return None;
            }
            let node = self.stack[0].1;
            proof {
                assert(self.remaining() =~= old(self).remaining().skip(1));
            }
            return Some(node);
        }
        loop
            invariant
                !self.first,
                rem_stack(self.stack@) == old(self).remaining(),
            decreases self.stack@.len(),
        {
            if self.stack.len() == 0 {
                return None;
            }
            let top = self.stack.len() - 1;
            let frame = self.stack[top];
            let ghost s0 = self.stack@;
            let node: &'a Node = frame.1;
            let ghost cv = node@.children;
            proof {
                lemma_children_view_len(node.children@, 0);
            }
            let len = node.children.len();
            let mut i = frame.0;
            if i > len {
                i = len;
            }
            while i < len
                invariant
                    i <= len,
                    len == node.children@.len(),
                    cv == node@.children,
                    cv.len() == len,
                    preorder_from(cv, frame.0 as int) == preorder_from(cv, i as int),
                    !self.first,
                    self.stack@ == s0,
                    s0.len() > 0,
                    s0.last() == frame,
                    frame.1 == node,
                    rem_stack(s0) == old(self).remaining(),
                decreases len - i,
            {
                proof {
                    lemma_children_view_index(node.children@, 0, i as int);
                }
                match &node.children[i] {
                    Some(b) => {
                        let child: &'a Node = &**b;
                        proof {
                            assert(cv[i as int] == Some(child@));
                        }
                        self.stack.pop();
                        self.stack.push((i + 1, node));
                        let ghost s1 = self.stack@;
                        self.stack.push((0, child));
                        proof {
                            assert(rem_stack(s0) == preorder_from(
                                s0.last().1@.children,
                                s0.last().0 as int,
                            ) + rem_stack(s0.drop_last()));
                            assert(s0.last().1@.children == cv);
                            assert(rem_stack(s0) == preorder_from(cv, frame.0 as int) + rem_stack(
                                s0.drop_last(),
                            ));
                            assert(preorder_from(cv, i as int) == child@.preorder()
                                + preorder_from(cv, i as int + 1));
                            assert(child@.preorder() == seq![child@] + preorder_from(
                                child@.children,
                                0,
                            ));
                            assert(s1.last().0 == i + 1 && s1.last().1 == node);
                            assert(s1.drop_last() =~= s0.drop_last());
                            assert(rem_stack(s1) == preorder_from(cv, i as int + 1) + rem_stack(
                                s1.drop_last(),
                            ));
                            assert(self.stack@.last() == (0usize, child));
                            assert(self.stack@.drop_last() =~= s1);
                            assert(rem_stack(self.stack@) == preorder_from(child@.children, 0)
                                + rem_stack(self.stack@.drop_last()));
                            assert(rem_stack(s0) =~= seq![child@] + rem_stack(self.stack@));
                            assert(old(self).remaining()[0] == child@);
                            assert(self.remaining() =~= old(self).remaining().skip(1));
                        }
                        return Some(child);
                    },
                    None => {
                        proof {
                            assert(cv[i as int] is None);
                            assert(preorder_from(cv, i as int) =~= preorder_from(cv, i as int + 1));
                        }
                        i += 1;
                    },
                }
            }
            proof {
                assert(preorder_from(cv, len as int) == Seq::<SpecTree>::empty());
            }
            self.stack.pop();
            proof {
                assert(s0.last() == frame);
                assert(rem_stack(s0) == preorder_from(cv, frame.0 as int) + rem_stack(
                    s0.drop_last(),
                ));
                assert(self.stack@ =~= s0.drop_last());
                assert(rem_stack(s0) =~= rem_stack(self.stack@));
            }
        }
    }
}

impl Node {
    /// A fresh depth-first traversal of the tree headed by this node.
    pub fn iter<'a>(&'a self) -> (it: NodeIterator<'a>)
        ensures
            it.remaining() == self@.preorder(),
    {
        NodeIterator::new(self)
    }
}

} // verus!
