//! The mathematical shape of a tree: a value with two subtrees, or nothing.
use vstd::prelude::*;

verus! {

/// The shape and values of a tree. `Nil` stands for an empty slot.
pub enum BinTree<T> {
    Nil,
    Fork { value: T, first: Box<BinTree<T>>, second: Box<BinTree<T>> },
}

impl<T> BinTree<T> {
    /// A node holding `value` with both slots empty.
    pub open spec fn leaf(value: T) -> BinTree<T> {
        BinTree::Fork { value, first: Box::new(BinTree::Nil), second: Box::new(BinTree::Nil) }
    }

    /// The subtree in slot `i` (0 is the first slot, any other index the second);
    /// `Nil` for an empty tree.
    pub open spec fn child(self, i: int) -> BinTree<T> {
        match self {
            BinTree::Nil => BinTree::Nil,
            BinTree::Fork { first, second, .. } => if i == 0 { *first } else { *second },
        }
    }

    /// This tree with slot `i` holding `t`; an empty tree stays empty.
    pub open spec fn with_child(self, i: int, t: BinTree<T>) -> BinTree<T> {
        match self {
            BinTree::Nil => BinTree::Nil,
            BinTree::Fork { value, first, second } => if i == 0 {
                BinTree::Fork { value, first: Box::new(t), second }
            } else {
                BinTree::Fork { value, first, second: Box::new(t) }
            },
        }
    }

    /// The subtree reached from the top by following the slots of `path` in order.
    pub open spec fn subtree(self, path: Seq<int>) -> BinTree<T>
        decreases path.len(),
    {
        if path.len() == 0 {
            self
        } else {
            self.subtree(path.drop_last()).child(path.last())
        }
    }

    /// This tree with the subtree at `path` replaced by `t`. Where `path` runs
    /// into an empty slot before its end, nothing changes below that slot.
    pub open spec fn replace(self, path: Seq<int>, t: BinTree<T>) -> BinTree<T>
        decreases path.len(),
    {
        if path.len() == 0 {
            t
        } else {
            self.replace(
                path.drop_last(),
                self.subtree(path.drop_last()).with_child(path.last(), t),
            )
        }
    }

    /// Whether `path` leads from the top to a node (not to an empty slot).
    pub open spec fn has_node_at(self, path: Seq<int>) -> bool {
        self.subtree(path) is Fork
    }

    /// The value at the top; `None` for an empty tree.
    pub open spec fn top_value(self) -> Option<T> {
        match self {
            BinTree::Nil => None,
            BinTree::Fork { value, .. } => Some(value),
        }
    }
}

/// What a cursor holds: the whole tree and the slots leading from its top to
/// the current position.
pub struct TreeView<T> {
    pub root: BinTree<T>,
    pub path: Seq<int>,
}

impl<T> TreeView<T> {
    /// The subtree at the current position.
    pub open spec fn current(self) -> BinTree<T> {
        self.root.subtree(self.path)
    }

    /// Whether the current node has a child in slot `i`.
    pub open spec fn can_descend(self, i: int) -> bool {
        self.current().child(i) is Fork
    }

    /// Whether the cursor is below the top.
    pub open spec fn can_ascend(self) -> bool {
        self.path.len() > 0
    }

    /// The cursor moved to slot `i` of the current node.
    pub open spec fn down(self, i: int) -> TreeView<T> {
        TreeView { root: self.root, path: self.path.push(i) }
    }

    /// The cursor moved to the parent of the current node.
    pub open spec fn up(self) -> TreeView<T> {
        TreeView { root: self.root, path: self.path.drop_last() }
    }

    /// The cursor moved to the top.
    pub open spec fn top(self) -> TreeView<T> {
        TreeView { root: self.root, path: Seq::empty() }
    }

    /// The cursor moved down along `steps`, first step first.
    pub open spec fn descend(self, steps: Seq<int>) -> TreeView<T>
        decreases steps.len(),
    {
        if steps.len() == 0 {
            self
        } else {
            self.down(steps[0]).descend(steps.drop_first())
        }
    }

    /// The cursor moved up `n` times.
    pub open spec fn ascend(self, n: nat) -> TreeView<T>
        decreases n,
    {
        if n == 0 {
            self
        } else {
            self.up().ascend((n - 1) as nat)
        }
    }

    /// Slot `i` of the current node set to `t`; the cursor stays.
    pub open spec fn set_at_cursor(self, i: int, t: BinTree<T>) -> TreeView<T> {
        TreeView {
            root: self.root.replace(self.path, self.current().with_child(i, t)),
            path: self.path,
        }
    }

    /// What is left once the subtree at the cursor is taken out: below the
    /// top, the parent with that slot emptied and the cursor on it; at the
    /// top, the empty tree.
    pub open spec fn detach(self) -> TreeView<T> {
        if self.path.len() == 0 {
            TreeView { root: BinTree::Nil, path: Seq::empty() }
        } else {
            TreeView { root: self.root.replace(self.path, BinTree::Nil), path: self.path.drop_last() }
        }
    }

    /// The cursor stands on a node of a non-empty tree, or the tree is empty
    /// and the cursor is at the top; each step of the path names slot 0 or 1.
    pub open spec fn is_valid(self) -> bool {
        &&& self.root is Nil ==> self.path.len() == 0
        &&& self.root is Fork ==> self.root.has_node_at(self.path)
        &&& forall|k: int| 0 <= k < self.path.len() ==> 0 <= #[trigger] self.path[k] < 2
    }
}

impl<T> BinTree<T> {
    /// The child of a node at an empty position is empty too.
    pub proof fn lemma_has_node_prefix(self, path: Seq<int>)
        requires
            path.len() > 0,
            self.has_node_at(path),
        ensures
            self.has_node_at(path.drop_last()),
    {
    }

    /// Replacing the subtree at a node's position and then looking there
    /// finds the replacement.
    pub proof fn lemma_subtree_replace(self, path: Seq<int>, t: BinTree<T>)
        requires
            path.len() == 0 || self.has_node_at(path.drop_last()),
        ensures
            self.replace(path, t).subtree(path) == t,
        decreases path.len(),
    {
        if path.len() > 0 {
            let up = path.drop_last();
            if up.len() > 0 {
                self.lemma_has_node_prefix(up);
            }
            self.lemma_subtree_replace(up, self.subtree(up).with_child(path.last(), t));
        }
    }

    /// Putting back what stands at a position changes nothing.
    pub proof fn lemma_replace_same(self, path: Seq<int>)
        ensures
            self.replace(path, self.subtree(path)) == self,
        decreases path.len(),
    {
        if path.len() > 0 {
            let up = path.drop_last();
            let s = self.subtree(up);
            assert(s.with_child(path.last(), s.child(path.last())) == s);
            self.lemma_replace_same(up);
        }
    }

    /// A second replacement at the same position overrides the first.
    pub proof fn lemma_replace_replace(self, path: Seq<int>, t: BinTree<T>, u: BinTree<T>)
        requires
            path.len() == 0 || self.has_node_at(path.drop_last()),
        ensures
            self.replace(path, t).replace(path, u) == self.replace(path, u),
        decreases path.len(),
    {
        if path.len() > 0 {
            let up = path.drop_last();
            if up.len() > 0 {
                self.lemma_has_node_prefix(up);
            }
            let s = self.subtree(up);
            self.lemma_subtree_replace(up, s.with_child(path.last(), t));
            self.lemma_replace_replace(up, s.with_child(path.last(), t), s.with_child(path.last(), u));
        }
    }
}

} // verus!
