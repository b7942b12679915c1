//! The ordered, owned n-ary tree and its mathematical model.
//!
//! The model of a tree is the sequence of `(branch path, value)` pairs that a
//! depth-first pre-order walk produces: [`flat`]. A branch path lists, per
//! ancestor level from the node itself outward to (but excluding) the root,
//! whether the node at that level was the last child among its siblings.

use vstd::prelude::*;

verus! {

broadcast use vstd::std_specs::vec::group_vec_axioms, vstd::seq::group_seq_axioms;

/// A node holding a value and an ordered sequence of child trees.
///
/// Children order is significant and preserved verbatim through traversal.
/// A tree owns its children exclusively, so it is acyclic by construction.
/// It is built bottom-up, leaves first, and consumed by moving it into a
/// traversal.
pub struct Tree<T> {
    pub value: T,
    pub children: Vec<Tree<T>>,
}

impl<T> Tree<T> {
    /// Builds a node from a value and zero or more already-built child
    /// trees, preserving the order given. Construction cannot fail.
    pub fn new(value: T, children: Vec<Tree<T>>) -> (r: Tree<T>)
        ensures
            r.value == value,
            r.children@ == children@,
    {
        Tree { value, children }
    }

    /// Builds a node with no children.
    pub fn leaf(value: T) -> (r: Tree<T>)
        ensures
            r.value == value,
            r.children@ == Seq::<Tree<T>>::empty(),
    {
        Tree { value, children: Vec::new() }
    }
}

/// The number of nodes of the tree.
pub open spec fn node_count<T>(t: Tree<T>) -> nat
    decreases t, t.children@.len() + 1,
{
    1 + forest_count(t.children@, 0)
}

/// The number of nodes of the forest `cs[i..]`, all subtrees together.
pub open spec fn forest_count<T>(cs: Seq<Tree<T>>, i: int) -> nat
    decreases cs, cs.len() - i,
{
    if i < 0 || i >= cs.len() {
        0
    } else {
        node_count(cs[i]) + forest_count(cs, i + 1)
    }
}

/// `pairs` with `suffix` appended to every branch path, values unchanged.
///
/// When a subtree stands at some depth, the paths of its pairs are extended
/// outward by the flags of the enclosing ancestor levels; paths are ordered
/// innermost-first, so the extension goes at the end.
pub open spec fn with_suffix<T>(pairs: Seq<(Seq<bool>, T)>, suffix: Seq<bool>) -> Seq<
    (Seq<bool>, T),
> {
    pairs.map(|i: int, pv: (Seq<bool>, T)| (pv.0 + suffix, pv.1))
}

/// The depth-first pre-order sequence of `(branch path, value)` pairs of the
/// tree, with paths relative to `t`: the root of `t` has the empty path, and
/// a deeper node's path holds one flag per ancestor level, innermost first,
/// `true` meaning "last child among its siblings at that level".
pub open spec fn flat<T>(t: Tree<T>) -> Seq<(Seq<bool>, T)>
    decreases t, t.children@.len() + 1,
{
    seq![(Seq::<bool>::empty(), t.value)] + forest_flat(t.children@, 0)
}

/// The pairs of the forest `cs[i..]`, in order, each subtree's pairs
/// extended by that subtree's own last-sibling flag: `cs[j]` is last among
/// its siblings exactly when `j == cs.len() - 1`.
pub open spec fn forest_flat<T>(cs: Seq<Tree<T>>, i: int) -> Seq<(Seq<bool>, T)>
    decreases cs, cs.len() - i,
{
    if i < 0 || i >= cs.len() {
        Seq::empty()
    } else {
        with_suffix(flat(cs[i]), seq![i == cs.len() - 1]) + forest_flat(cs, i + 1)
    }
}

} // verus!
