//! The traversal engine: a lazy, stateful, depth-first walker.
//!
//! A [`TreeIter`] owns the remainder of the tree it was created from and
//! yields, one [`TreeIter::advance`] call at a time, the `(branch path,
//! value)` pairs of [`crate::tree::flat`] in depth-first pre-order. The open
//! chain of ancestors is an explicit stack of frames, one per level; a
//! frame's cursor over its remaining children gives last-sibling detection
//! by a single-step lookahead (is anything left after the child just
//! pulled), never a backward re-scan.

use crate::tree::{flat, forest_flat, with_suffix, Tree};
use vstd::prelude::*;

verus! {

broadcast use vstd::std_specs::vec::group_vec_axioms, vstd::seq::group_seq_axioms;

/// One open ancestor level: the flags shared by every node of that level
/// and the subtrees of the level not yet visited, in order.
struct Frame<T> {
    /// Branch-path flags that every pair produced from this frame carries at
    /// its outer end: one flag per enclosing ancestor level, innermost first.
    suffix: Vec<bool>,
    /// The remaining unvisited subtrees of this level, leftmost first.
    children: Vec<Tree<T>>,
}

/// A lazy, finite, non-restartable depth-first pre-order traversal.
///
/// Created by [`Tree::into_traversal`] or [`TreeIter::from_children`]; the
/// tree moves in and is consumed incrementally as the traversal proceeds.
pub struct TreeIter<T> {
    /// The root value when it has not been yielded yet; its branch path is
    /// empty by definition.
    pending_root: Option<T>,
    /// The open ancestor chain, root level first, innermost level last.
    stack: Vec<Frame<T>>,
}

/// The pairs still owed by one frame: its remaining forest, every path
/// extended by the frame's ancestor flags.
spec fn frame_rem<T>(f: Frame<T>) -> Seq<(Seq<bool>, T)> {
    with_suffix(forest_flat(f.children@, 0), f.suffix@)
}

/// The pairs still owed by a stack of frames, innermost level first.
spec fn stack_rem<T>(fs: Seq<Frame<T>>) -> Seq<(Seq<bool>, T)>
    decreases fs.len(),
{
    if fs.len() == 0 {
        Seq::empty()
    } else {
        frame_rem(fs.last()) + stack_rem(fs.drop_last())
    }
}

impl<T> TreeIter<T> {
    /// The pairs this traversal has not yielded yet, in the order it will
    /// yield them. The traversal is exhausted exactly when this is empty.
    pub closed spec fn remaining(self) -> Seq<(Seq<bool>, T)> {
        (match self.pending_root {
            Some(v) => seq![(Seq::<bool>::empty(), v)],
            None => Seq::<(Seq<bool>, T)>::empty(),
        }) + stack_rem(self.stack@)
    }
}

/// Appending the empty suffix changes nothing.
proof fn lemma_with_suffix_empty<T>(pairs: Seq<(Seq<bool>, T)>)
    ensures
        with_suffix(pairs, Seq::<bool>::empty()) == pairs,
{
    assert(with_suffix(pairs, Seq::<bool>::empty()) =~~= pairs);
}

/// `with_suffix` distributes over concatenation.
proof fn lemma_with_suffix_add<T>(a: Seq<(Seq<bool>, T)>, b: Seq<(Seq<bool>, T)>, s: Seq<bool>)
    ensures
        with_suffix(a + b, s) == with_suffix(a, s) + with_suffix(b, s),
{
    assert(with_suffix(a + b, s) =~~= with_suffix(a, s) + with_suffix(b, s));
}

/// Two suffix extensions compose into one.
proof fn lemma_with_suffix_compose<T>(a: Seq<(Seq<bool>, T)>, s1: Seq<bool>, s2: Seq<bool>)
    ensures
        with_suffix(with_suffix(a, s1), s2) == with_suffix(a, s1 + s2),
{
    assert(with_suffix(with_suffix(a, s1), s2) =~~= with_suffix(a, s1 + s2));
}

/// Dropping the first subtree of a forest shifts the cursor by one; the
/// last-sibling flags do not move, since the last subtree stays last.
proof fn lemma_forest_flat_shift<T>(cs: Seq<Tree<T>>, i: int)
    requires
        cs.len() >= 1,
        0 <= i,
    ensures
        forest_flat(cs.drop_first(), i) == forest_flat(cs, i + 1),
    decreases cs.len() - i,
{
    let ds = cs.drop_first();
    if i < ds.len() {
        lemma_forest_flat_shift(cs, i + 1);
        assert(ds[i] == cs[i + 1]);
        assert((i == ds.len() - 1) == (i + 1 == cs.len() - 1));
    }
}

/// Splitting the head off a non-empty forest's pair sequence: the first
/// pair is the head subtree's root, then come the head subtree's own
/// descendants, then the rest of the forest.
proof fn lemma_forest_split<T>(cs: Seq<Tree<T>>, s: Seq<bool>)
    requires
        cs.len() >= 1,
    ensures
        with_suffix(forest_flat(cs, 0), s) == seq![(seq![cs.len() == 1] + s, cs[0].value)]
            + with_suffix(forest_flat(cs[0].children@, 0), seq![cs.len() == 1] + s) + with_suffix(
            forest_flat(cs.drop_first(), 0),
            s,
        ),
{
    let b = seq![cs.len() == 1];
    let head = cs[0];
    assert(forest_flat(cs, 0) == with_suffix(flat(head), b) + forest_flat(cs, 1));
    lemma_forest_flat_shift(cs, 0);
    lemma_with_suffix_add(with_suffix(flat(head), b), forest_flat(cs, 1), s);
    lemma_with_suffix_compose(flat(head), b, s);
    assert(flat(head) == seq![(Seq::<bool>::empty(), head.value)] + forest_flat(head.children@, 0));
    lemma_with_suffix_add(
        seq![(Seq::<bool>::empty(), head.value)],
        forest_flat(head.children@, 0),
        b + s,
    );
    assert(with_suffix(seq![(Seq::<bool>::empty(), head.value)], b + s) =~~= seq![
        (b + s, head.value),
    ]);
}

/// Pushing a frame stacks its owed pairs in front.
proof fn lemma_stack_rem_push<T>(fs: Seq<Frame<T>>, f: Frame<T>)
    ensures
        stack_rem(fs.push(f)) == frame_rem(f) + stack_rem(fs),
{
    assert(fs.push(f).last() == f);
    assert(fs.push(f).drop_last() =~= fs);
}

/// Builds, in a fresh vector, the branch path of a node: its own flag, then
/// the flags of the enclosing ancestor levels.
fn cons_flag(head: bool, tail: &Vec<bool>) -> (r: Vec<bool>)
    ensures
        r@ == seq![head] + tail@,
{
    let mut r: Vec<bool> = Vec::new();
    r.push(head);
    let mut i: usize = 0;
    while i < tail.len()
        invariant
            i <= tail@.len(),
            r@ == seq![head] + tail@.subrange(0, i as int),
        decreases tail@.len() - i,
    {
        r.push(tail[i]);
        proof {
            assert(seq![head] + tail@.subrange(0, i as int) + seq![tail@[i as int]] =~= seq![head]
                + tail@.subrange(0, i + 1));
        }
        i += 1;
    }
    proof {
        assert(tail@.subrange(0, tail@.len() as int) =~= tail@);
    }
    r
}

impl<T> TreeIter<T> {
    /// Builds a traversal over a forest alone: the subtrees of `children`
    /// are walked in order as if they were the children of an already
    /// yielded root, so every pair carries at least its own last-sibling
    /// flag.
    pub fn from_children(children: Vec<Tree<T>>) -> (r: TreeIter<T>)
        ensures
            r.remaining() == forest_flat(children@, 0),
    {
        let suffix: Vec<bool> = Vec::new();
        let mut stack: Vec<Frame<T>> = Vec::new();
        stack.push(Frame { suffix, children });
        let r = TreeIter { pending_root: None, stack };
        proof {
            assert(r.stack@.drop_last() =~= Seq::<Frame<T>>::empty());
            assert(stack_rem(Seq::<Frame<T>>::empty()) =~= Seq::<(Seq<bool>, T)>::empty());
            lemma_with_suffix_empty(forest_flat(r.stack@.last().children@, 0));
            assert(r.remaining() =~= forest_flat(r.stack@.last().children@, 0));
        }
        r
    }

    /// Returns the next pair in depth-first pre-order, or `None` when every
    /// node has been yielded. Once the traversal is exhausted it stays
    /// exhausted: further calls keep returning `None`.
    pub fn advance(&mut self) -> (r: Option<(Vec<bool>, T)>)
        ensures
            match r {
                Some(pv) => {
                    &&& old(self).remaining().len() > 0
                    &&& pv.0@ == old(self).remaining()[0].0
                    &&& pv.1 == old(self).remaining()[0].1
                    &&& final(self).remaining() == old(self).remaining().drop_first()
                },
                None => {
                    &&& old(self).remaining().len() == 0
                    &&& final(self).remaining().len() == 0
                },
            },
    {
        if let Some(v) = self.pending_root.take() {
            proof {
                assert(old(self).remaining() =~= seq![(Seq::<bool>::empty(), v)] + stack_rem(
                    self.stack@,
                ));
                assert(self.remaining() =~= stack_rem(self.stack@));
                assert(self.remaining() =~= old(self).remaining().drop_first());
            }
            return Some((Vec::new(), v));
        }
        proof {
            assert(stack_rem(self.stack@) =~= old(self).remaining());
        }
        loop
            invariant
                self.pending_root is None,
                stack_rem(self.stack@) == old(self).remaining(),
            decreases self.stack@.len(),
        {
            let ghost fs = self.stack@;
            match self.stack.pop() {
                None => {
                    proof {
                        assert(old(self).remaining() =~= Seq::<(Seq<bool>, T)>::empty());
                        assert(self.remaining() =~= Seq::<(Seq<bool>, T)>::empty());
                    }
                    return None;
                },
                Some(mut frame) => {
                    if frame.children.len() == 0 {
                        proof {
                            assert(forest_flat(frame.children@, 0) =~= Seq::<
                                (Seq<bool>, T),
                            >::empty());
                            assert(frame_rem(fs.last()) =~= Seq::<(Seq<bool>, T)>::empty());
                            assert(stack_rem(fs) =~= stack_rem(self.stack@));
                        }
                    } else {
                        let ghost cs = frame.children@;
                        let ghost s = frame.suffix@;
                        let child = frame.children.remove(0);
                        let is_last = frame.children.len() == 0;
                        let path = cons_flag(is_last, &frame.suffix);
                        let suffix = cons_flag(is_last, &frame.suffix);
                        let ghost cc = child.children@;
                        let Tree { value, children } = child;
                        let ghost parent = frame;
                        self.stack.push(frame);
                        let ghost fs1 = self.stack@;
                        self.stack.push(Frame { suffix, children });
                        proof {
                            let bs = seq![cs.len() == 1] + s;
                            let rest = stack_rem(fs.drop_last());
                            lemma_forest_split(cs, s);
                            assert(cs.remove(0) =~= cs.drop_first());
                            lemma_stack_rem_push(fs1, self.stack@.last());
                            lemma_stack_rem_push(fs.drop_last(), parent);
                            assert(stack_rem(self.stack@) == with_suffix(forest_flat(cc, 0), bs)
                                + (with_suffix(forest_flat(cs.drop_first(), 0), s) + rest));
                            assert(old(self).remaining() == (seq![(bs, value)] + with_suffix(
                                forest_flat(cc, 0),
                                bs,
                            ) + with_suffix(forest_flat(cs.drop_first(), 0), s)) + rest);
                            assert(old(self).remaining()[0] == (bs, value));
                            assert(old(self).remaining().drop_first() =~= stack_rem(self.stack@));
                            assert(self.remaining() =~= stack_rem(self.stack@));
                        }
                        return Some((path, value));
                    }
                },
            }
        }
    }
}

impl<T> Tree<T> {
    /// Consumes the tree and starts its traversal: the sole way from a tree
    /// to its pre-order pair sequence. The tree moves in, so it can be
    /// traversed at most once.
    pub fn into_traversal(self) -> (r: TreeIter<T>)
        ensures
            r.remaining() == flat(self),
    {
        let Tree { value, children } = self;
        let suffix: Vec<bool> = Vec::new();
        let mut stack: Vec<Frame<T>> = Vec::new();
        stack.push(Frame { suffix, children });
        let r = TreeIter { pending_root: Some(value), stack };
        proof {
            assert(r.stack@.drop_last() =~= Seq::<Frame<T>>::empty());
            assert(stack_rem(Seq::<Frame<T>>::empty()) =~= Seq::<(Seq<bool>, T)>::empty());
            lemma_with_suffix_empty(forest_flat(r.stack@.last().children@, 0));
            assert(r.remaining() =~= flat(self));
        }
        r
    }
}

} // verus!
