//! Structural laws of the pre-order pair sequence.
//!
//! A node of a tree is addressed by the sequence of child indices that leads
//! from the root down to it. Over such addresses this module proves, of
//! [`flat`]: that it holds exactly one pair per node; that each node's pair
//! stands at a computable position with the node's own branch path, whose
//! length equals the node's depth; that ancestors and left siblings come
//! strictly first; and that the innermost path flag says exactly whether the
//! node is its parent's last child.

use crate::tree::{flat, forest_count, forest_flat, node_count, with_suffix, Tree};
use vstd::prelude::*;

verus! {

broadcast use vstd::std_specs::vec::group_vec_axioms, vstd::seq::group_seq_axioms;

/// Whether `addr`, read as child indices walking down from the root, names
/// a node of `t`. The empty address names the root itself.
pub open spec fn has_node<T>(t: Tree<T>, addr: Seq<int>) -> bool
    decreases addr.len(),
{
    addr.len() == 0 || (0 <= addr[0] < t.children@.len() && has_node(
        t.children@[addr[0]],
        addr.drop_first(),
    ))
}

/// The subtree rooted at the node that `addr` names.
pub open spec fn subtree_at<T>(t: Tree<T>, addr: Seq<int>) -> Tree<T>
    recommends
        has_node(t, addr),
    decreases addr.len(),
{
    if addr.len() == 0 {
        t
    } else {
        subtree_at(t.children@[addr[0]], addr.drop_first())
    }
}

/// The branch path of the node that `addr` names: one last-sibling flag per
/// ancestor level, the node's own level first, the level just below the
/// root last.
pub open spec fn path_of<T>(t: Tree<T>, addr: Seq<int>) -> Seq<bool>
    recommends
        has_node(t, addr),
    decreases addr.len(),
{
    if addr.len() == 0 {
        Seq::empty()
    } else {
        path_of(t.children@[addr[0]], addr.drop_first()) + seq![
            addr[0] == t.children@.len() - 1,
        ]
    }
}

/// The position of the pair of the node that `addr` names within `flat(t)`.
pub open spec fn pos_of<T>(t: Tree<T>, addr: Seq<int>) -> int
    recommends
        has_node(t, addr),
    decreases addr.len(),
{
    if addr.len() == 0 {
        0int
    } else {
        1 + (forest_flat(t.children@, 0).len() - forest_flat(t.children@, addr[0]).len()) + pos_of(
            t.children@[addr[0]],
            addr.drop_first(),
        )
    }
}

/// Whether address `a` strictly precedes address `b` in depth-first
/// pre-order: `a` is a strict prefix of `b` (an ancestor), or the two agree
/// up to a level at which `a` turns into an earlier child.
pub open spec fn addr_before(a: Seq<int>, b: Seq<int>) -> bool
    decreases a.len(),
{
    if a.len() == 0 {
        b.len() > 0
    } else if b.len() == 0 {
        false
    } else if a[0] != b[0] {
        a[0] < b[0]
    } else {
        addr_before(a.drop_first(), b.drop_first())
    }
}

/// `forest_flat(cs, k)` is a suffix of `forest_flat(cs, i)` for `i <= k`.
proof fn lemma_forest_flat_suffix<T>(cs: Seq<Tree<T>>, i: int, k: int)
    requires
        0 <= i <= k <= cs.len(),
    ensures
        forest_flat(cs, k).len() <= forest_flat(cs, i).len(),
        forall|j: int|
            0 <= j < forest_flat(cs, k).len() ==> forest_flat(cs, i)[forest_flat(cs, i).len()
                - forest_flat(cs, k).len() + j] == #[trigger] forest_flat(cs, k)[j],
    decreases k - i,
{
    if i < k {
        lemma_forest_flat_suffix(cs, i + 1, k);
        let h = with_suffix(flat(cs[i]), seq![i == cs.len() - 1]);
        let n1 = forest_flat(cs, i + 1).len();
        let nk = forest_flat(cs, k).len();
        assert(forest_flat(cs, i) == h + forest_flat(cs, i + 1));
        assert forall|j: int| 0 <= j < nk implies forest_flat(cs, i)[forest_flat(cs, i).len() - nk
            + j] == #[trigger] forest_flat(cs, k)[j] by {
            assert((h + forest_flat(cs, i + 1))[h.len() + (n1 - nk + j)] == forest_flat(
                cs,
                i + 1,
            )[n1 - nk + j]);
        }
    }
}

/// Exactly-one-pair-per-node law, counting side: the number of pairs that
/// the traversal produces equals the number of nodes of the tree.
pub proof fn lemma_pair_count<T>(t: Tree<T>)
    ensures
        flat(t).len() == node_count(t),
    decreases t, t.children@.len() + 1,
{
    lemma_forest_pair_count(t.children@, 0);
}

/// The forest side of [`lemma_pair_count`].
pub proof fn lemma_forest_pair_count<T>(cs: Seq<Tree<T>>, i: int)
    ensures
        forest_flat(cs, i).len() == forest_count(cs, i),
    decreases cs, cs.len() - i,
{
    if 0 <= i < cs.len() {
        lemma_pair_count(cs[i]);
        lemma_forest_pair_count(cs, i + 1);
    }
}

/// Every node appears in the pre-order sequence: the node that `addr` names
/// contributes the pair at position `pos_of`, carrying exactly that node's
/// branch path and value; and the path's length equals the node's depth
/// (the root's depth being zero).
pub proof fn lemma_flat_node<T>(t: Tree<T>, addr: Seq<int>)
    requires
        has_node(t, addr),
    ensures
        0 <= pos_of(t, addr) < flat(t).len(),
        flat(t)[pos_of(t, addr)] == (path_of(t, addr), subtree_at(t, addr).value),
        path_of(t, addr).len() == addr.len(),
    decreases addr.len(),
{
    if addr.len() == 0 {
        assert(flat(t)[0] == (Seq::<bool>::empty(), t.value));
    } else {
        let cs = t.children@;
        let k = addr[0];
        let child = cs[k];
        let rest = addr.drop_first();
        lemma_flat_node(child, rest);
        let p1 = pos_of(child, rest);
        let b = seq![k == cs.len() - 1];
        assert(forest_flat(cs, k) == with_suffix(flat(child), b) + forest_flat(cs, k + 1));
        assert((with_suffix(flat(child), b) + forest_flat(cs, k + 1))[p1] == with_suffix(
            flat(child),
            b,
        )[p1]);
        assert(with_suffix(flat(child), b)[p1] == (flat(child)[p1].0 + b, flat(child)[p1].1));
        lemma_forest_flat_suffix(cs, 0, k);
        let off = forest_flat(cs, 0).len() - forest_flat(cs, k).len();
        assert(forest_flat(cs, 0)[off + p1] == forest_flat(cs, k)[p1]);
        assert(flat(t)[1 + off + p1] == forest_flat(cs, 0)[off + p1]);
    }
}

/// Pre-order law: the pair of a node comes strictly before the pairs of all
/// of its descendants, and the pairs of an earlier child's whole subtree
/// come before those of a later child's — which is what `addr_before`
/// spells out over addresses.
pub proof fn lemma_preorder<T>(t: Tree<T>, a: Seq<int>, b: Seq<int>)
    requires
        has_node(t, a),
        has_node(t, b),
        addr_before(a, b),
    ensures
        pos_of(t, a) < pos_of(t, b),
    decreases a.len(),
{
    let cs = t.children@;
    if a.len() == 0 {
        lemma_flat_node(cs[b[0]], b.drop_first());
        lemma_forest_flat_suffix(cs, 0, b[0]);
    } else {
        let ka = a[0];
        let kb = b[0];
        if ka == kb {
            lemma_preorder(cs[ka], a.drop_first(), b.drop_first());
        } else {
            lemma_flat_node(cs[ka], a.drop_first());
            lemma_flat_node(cs[kb], b.drop_first());
            lemma_forest_flat_suffix(cs, 0, ka);
            lemma_forest_flat_suffix(cs, 0, kb);
            lemma_forest_flat_suffix(cs, ka + 1, kb);
            assert(forest_flat(cs, ka) == with_suffix(flat(cs[ka]), seq![ka == cs.len() - 1])
                + forest_flat(cs, ka + 1));
        }
    }
}

/// Any two distinct addresses are ordered one way or the other by
/// [`addr_before`]: pre-order is a total order on the nodes of a tree.
pub proof fn lemma_addr_order_total(a: Seq<int>, b: Seq<int>)
    requires
        a != b,
    ensures
        addr_before(a, b) || addr_before(b, a),
    decreases a.len(),
{
    if a.len() == 0 {
        if b.len() == 0 {
            assert(a =~= b);
        }
    } else if b.len() != 0 && a[0] == b[0] {
        if a.drop_first() == b.drop_first() {
            assert(a.drop_first().len() == a.len() - 1);
            assert(b.drop_first().len() == b.len() - 1);
            assert(a.len() == b.len());
            assert forall|i: int| 0 <= i < a.len() implies a[i] == b[i] by {
                if i > 0 {
                    assert(a[i] == a.drop_first()[i - 1]);
                    assert(b[i] == b.drop_first()[i - 1]);
                }
            }
            assert(a =~= b);
        }
        lemma_addr_order_total(a.drop_first(), b.drop_first());
    }
}

/// Exactly-one-pair-per-node law, distinctness side: distinct nodes stand
/// at distinct positions of the pre-order sequence, so together with
/// [`lemma_pair_count`] and [`lemma_flat_node`] every node contributes one
/// pair and no pair is duplicated or omitted.
pub proof fn lemma_positions_distinct<T>(t: Tree<T>, a: Seq<int>, b: Seq<int>)
    requires
        has_node(t, a),
        has_node(t, b),
        a != b,
    ensures
        pos_of(t, a) != pos_of(t, b),
{
    lemma_addr_order_total(a, b);
    if addr_before(a, b) {
        lemma_preorder(t, a, b);
    } else {
        lemma_preorder(t, b, a);
    }
}

/// Last-sibling law: for a non-root node, the innermost flag of its branch
/// path is `true` exactly when the node is the final child in its parent's
/// child sequence. (For the root, [`path_of`] is the empty path by
/// definition.)
pub proof fn lemma_last_sibling<T>(t: Tree<T>, addr: Seq<int>)
    requires
        has_node(t, addr),
        addr.len() > 0,
    ensures
        path_of(t, addr).len() > 0,
        path_of(t, addr)[0] == (addr.last() == subtree_at(t, addr.drop_last()).children@.len()
            - 1),
    decreases addr.len(),
{
    let k = addr[0];
    let child = t.children@[k];
    let rest = addr.drop_first();
    if rest.len() == 0 {
        assert(addr.drop_last() =~= Seq::<int>::empty());
        assert(addr.last() == k);
    } else {
        lemma_last_sibling(child, rest);
        lemma_flat_node(child, rest);
        assert(addr.drop_last().len() > 0);
        assert(addr.drop_last()[0] == k);
        assert(addr.drop_last().drop_first() =~= rest.drop_last());
        assert(addr.last() == rest.last());
        assert(subtree_at(t, addr.drop_last()) == subtree_at(child, rest.drop_last()));
        assert(path_of(t, addr)[0] == path_of(child, rest)[0]);
    }
}

} // verus!
