//! The renderer: one output line per `(branch path, value)` pair.
//!
//! The root's line is its value alone. Any other node's line is an
//! indentation prefix — one three-character cell per ancestor level above
//! the parent, the root-nearest level leftmost — followed by the node's own
//! connector and its value. A cell is blank where that ancestor was a last
//! child (its branch is closed) and a continuation bar where it was not.

use crate::traverse::TreeIter;
use crate::tree::{flat, Tree};
use vstd::prelude::*;
use vstd::string::StringExecFns;

verus! {

broadcast use vstd::std_specs::vec::group_vec_axioms, vstd::seq::group_seq_axioms;

/// The indentation cell of one ancestor level above the parent: blank when
/// that level's node was a last child, a continuation bar when not.
pub open spec fn level_cell(last: bool) -> Seq<char> {
    if last {
        "   "@
    } else {
        "│  "@
    }
}

/// The connector of the node's own line: a closing elbow when the node is
/// its parent's last child, a tee when siblings follow.
pub open spec fn connector(last: bool) -> Seq<char> {
    if last {
        "└─ "@
    } else {
        "├─ "@
    }
}

/// The indentation prefix for the ancestor flags `outer`, ordered from the
/// nearest ancestor outward; the outermost level's cell prints leftmost.
pub open spec fn prefix_spec(outer: Seq<bool>) -> Seq<char>
    decreases outer.len(),
{
    if outer.len() == 0 {
        Seq::empty()
    } else {
        level_cell(outer.last()) + prefix_spec(outer.drop_last())
    }
}

/// The full output line for one yielded pair.
pub open spec fn line_spec(path: Seq<bool>, value: Seq<char>) -> Seq<char> {
    if path.len() == 0 {
        value
    } else {
        prefix_spec(path.drop_first()) + connector(path[0]) + value
    }
}

/// The output lines of a whole pair sequence, in order.
pub open spec fn lines_of(pairs: Seq<(Seq<bool>, String)>) -> Seq<Seq<char>> {
    pairs.map(|i: int, pv: (Seq<bool>, String)| line_spec(pv.0, pv.1@))
}

/// A level prepended at the inner end of `outer` puts its cell at the right
/// end of the prefix.
proof fn lemma_prefix_snoc(outer: Seq<bool>, x: bool)
    ensures
        prefix_spec(seq![x] + outer) == prefix_spec(outer) + level_cell(x),
    decreases outer.len(),
{
    let s = seq![x] + outer;
    if outer.len() == 0 {
        assert(outer =~= Seq::<bool>::empty());
        assert(s.drop_last() =~= outer);
        assert(s.last() == x);
        assert(prefix_spec(s) =~= prefix_spec(outer) + level_cell(x));
    } else {
        lemma_prefix_snoc(outer.drop_last(), x);
        assert(s.last() == outer.last());
        assert(s.drop_last() =~= seq![x] + outer.drop_last());
        assert(prefix_spec(s) =~= prefix_spec(outer) + level_cell(x));
    }
}

/// Renders the line of one yielded pair: prefix cells for the ancestor
/// levels above the parent, reversed so the root-nearest one prints
/// leftmost, then the node's connector, then its value.
pub fn render_line(path: &Vec<bool>, value: &str) -> (r: String)
    ensures
        r@ == line_spec(path@, value@),
{
    let mut s = String::new();
    if path.len() == 0 {
        s.append(value);
        return s;
    }
    proof {
        assert(path@.subrange(path@.len() as int, path@.len() as int) =~= Seq::<bool>::empty());
    }
    let mut i: usize = path.len();
    while i > 1
        invariant
            1 <= i <= path@.len(),
            s@ == prefix_spec(path@.subrange(i as int, path@.len() as int)),
        decreases i,
    {
        i -= 1;
        if path[i] {
            s.append("   ");
        } else {
            s.append("│  ");
        }
        proof {
            assert(path@.subrange(i as int, path@.len() as int) =~= seq![path@[i as int]]
                + path@.subrange(i + 1, path@.len() as int));
            lemma_prefix_snoc(path@.subrange(i + 1, path@.len() as int), path@[i as int]);
        }
    }
    proof {
        assert(path@.subrange(1, path@.len() as int) =~= path@.drop_first());
    }
    if path[0] {
        s.append("└─ ");
    } else {
        s.append("├─ ");
    }
    s.append(value);
    proof {
        assert(s@ =~= line_spec(path@, value@));
    }
    s
}

/// Consumes a tree of string values and renders it whole: one line per
/// node, in depth-first pre-order, each exactly the line of its pair.
pub fn render_tree(t: Tree<String>) -> (r: Vec<String>)
    ensures
        r@.len() == flat(t).len(),
        forall|i: int| 0 <= i < r@.len() ==> #[trigger] r@[i]@ == lines_of(flat(t))[i],
{
    let mut it: TreeIter<String> = t.into_traversal();
    let ghost total = it.remaining();
    let mut out: Vec<String> = Vec::new();
    proof {
        assert(total.subrange(0, total.len() as int) =~= total);
    }
    loop
        invariant
            total == flat(t),
            out@.len() <= total.len(),
            it.remaining() == total.subrange(out@.len() as int, total.len() as int),
            forall|i: int| 0 <= i < out@.len() ==> #[trigger] out@[i]@ == lines_of(total)[i],
        decreases it.remaining().len(),
    {
        let ghost k = out@.len() as int;
        match it.advance() {
            None => {
                proof {
                    assert(total.subrange(k, total.len() as int).len() == 0);
                    assert(out@.len() == total.len());
                }
                return out;
            },
            Some((p, v)) => {
                proof {
                    assert(total.subrange(k, total.len() as int)[0] == total[k]);
                    assert(total.subrange(k, total.len() as int).drop_first() =~= total.subrange(
                        k + 1,
                        total.len() as int,
                    ));
                }
                let line = render_line(&p, v.as_str());
                out.push(line);
            },
        }
    }
}

} // verus!
