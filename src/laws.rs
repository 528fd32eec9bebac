//! Properties of the tree operations, stated over the views their contracts use.
use vstd::prelude::*;

use crate::model::{BinTree, TreeView};

verus! {

/// Taking out the subtree at the cursor splits the tree in two: putting that
/// subtree back at its position in what is left gives the tree as it was, and
/// below the top the position it came from is left empty. No node is lost and
/// none ends up in both parts.
pub proof fn law_detach_splits<T>(v: TreeView<T>)
    requires
        v.is_valid(),
    ensures
        v.detach().root.replace(v.path, v.current()) == v.root,
        v.path.len() > 0 ==> v.detach().root.subtree(v.path) is Nil,
{
    if v.path.len() > 0 {
        v.root.lemma_has_node_prefix(v.path);
        v.root.lemma_replace_replace(v.path, BinTree::Nil, v.current());
        v.root.lemma_replace_same(v.path);
        v.root.lemma_subtree_replace(v.path, BinTree::Nil);
    }
}

/// After a node is put into slot `i` at the cursor, moving to that slot finds
/// exactly that node, and moving back up returns to the node it was put into.
pub proof fn law_attach_then_navigate<T>(v: TreeView<T>, i: int, n: BinTree<T>)
    requires
        v.is_valid(),
        v.root is Fork,
        0 <= i < 2,
        n is Fork,
    ensures
        v.set_at_cursor(i, n).can_descend(i),
        v.set_at_cursor(i, n).down(i).current() == n,
        v.set_at_cursor(i, n).down(i).can_ascend(),
        v.set_at_cursor(i, n).down(i).up() == v.set_at_cursor(i, n),
{
    let w = v.set_at_cursor(i, n);
    if v.path.len() > 0 {
        v.root.lemma_has_node_prefix(v.path);
    }
    v.root.lemma_subtree_replace(v.path, v.current().with_child(i, n));
    assert(w.down(i).path.drop_last() =~= w.path);
}

/// Moving down along `steps` and then up as many times brings the cursor back
/// to where it started, on the same tree; each of those moves up is possible.
pub proof fn law_navigation_round_trip<T>(v: TreeView<T>, steps: Seq<int>)
    ensures
        v.descend(steps).ascend(steps.len()) == v,
        forall|j: nat| j < steps.len() ==> #[trigger] v.descend(steps).ascend(j).can_ascend(),
{
    let d = v.descend(steps);
    lemma_descend(v, steps);
    lemma_ascend(d, steps.len());
    assert((v.path + steps).subrange(0, (v.path + steps).len() - steps.len()) =~= v.path);
    assert forall|j: nat| j < steps.len() implies #[trigger] d.ascend(j).can_ascend() by {
        lemma_ascend(d, j);
    }
}

proof fn lemma_descend<T>(v: TreeView<T>, steps: Seq<int>)
    ensures
        v.descend(steps) == (TreeView { root: v.root, path: v.path + steps }),
    decreases steps.len(),
{
    if steps.len() > 0 {
        lemma_descend(v.down(steps[0]), steps.drop_first());
        assert(v.path.push(steps[0]) + steps.drop_first() =~= v.path + steps);
    } else {
        assert(v.path + steps =~= v.path);
    }
}

proof fn lemma_ascend<T>(v: TreeView<T>, n: nat)
    requires
        n <= v.path.len(),
    ensures
        v.ascend(n) == (TreeView { root: v.root, path: v.path.subrange(0, v.path.len() - n) }),
    decreases n,
{
    if n > 0 {
        lemma_ascend(v.up(), (n - 1) as nat);
        assert(v.up().path.subrange(0, v.up().path.len() - (n - 1)) =~= v.path.subrange(
            0,
            v.path.len() - n,
        ));
    } else {
        assert(v.path.subrange(0, v.path.len() as int) =~= v.path);
    }
}

/// Taking out the subtree at the cursor below the top, and putting it back
/// into the slot it came from, restores the tree's shape and values.
pub proof fn law_detach_reattach<T>(v: TreeView<T>)
    requires
        v.is_valid(),
        v.can_ascend(),
    ensures
        v.detach().set_at_cursor(v.path.last(), v.current()).root == v.root,
{
    let p = v.path;
    let up = p.drop_last();
    let l = p.last();
    let c = v.root.subtree(up);
    v.root.lemma_has_node_prefix(p);
    if up.len() > 0 {
        v.root.lemma_has_node_prefix(up);
    }
    v.root.lemma_subtree_replace(up, c.with_child(l, BinTree::Nil));
    assert(c.with_child(l, BinTree::Nil).with_child(l, v.current()) == c);
    v.root.lemma_replace_replace(up, c.with_child(l, BinTree::Nil), c);
    v.root.lemma_replace_same(up);
}

/// The edges of movement: no step up from the top, no step down from a node
/// without children, and no movement at all on an empty tree, which has no
/// value at the cursor.
pub proof fn law_boundaries<T>(v: TreeView<T>, i: int, x: T)
    requires
        v.is_valid(),
    ensures
        v.path.len() == 0 ==> !v.can_ascend(),
        v.current() == BinTree::leaf(x) ==> !v.can_descend(i),
        v.root is Nil ==> !v.can_ascend() && !v.can_descend(i) && v.current().top_value() is None,
{
}

} // verus!
