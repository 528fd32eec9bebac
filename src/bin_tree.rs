//! Nodes owning up to two children, and a cursor over a tree of them.
use vstd::prelude::*;

use crate::model::{BinTree, TreeView};

verus! {

/// A value with two child slots, each empty or owning one node.
///
/// A node holds no link to the node that owns it: a node taken out of a slot
/// therefore carries nothing that refers to its former owner.
#[derive(Debug)]
pub struct Node<T> {
    pub value: T,
    first: Option<Box<Node<T>>>,
    second: Option<Box<Node<T>>>,
}

/// The shape held by a slot: `Nil` when it is empty.
pub open spec fn slot_view<T>(s: Option<Box<Node<T>>>) -> BinTree<T> {
    match s {
        Some(n) => n@,
        None => BinTree::Nil,
    }
}

impl<T> Node<T> {
    /// The shape of the tree rooted at this node.
    pub closed spec fn shape(&self) -> BinTree<T>
        decreases self,
    {
        BinTree::Fork {
            value: self.value,
            first: Box::new(
                match self.first {
                    Some(c) => c.shape(),
                    None => BinTree::Nil,
                },
            ),
            second: Box::new(
                match self.second {
                    Some(c) => c.shape(),
                    None => BinTree::Nil,
                },
            ),
        }
    }
}

impl<T> View for Node<T> {
    type V = BinTree<T>;

    open spec fn view(&self) -> BinTree<T> {
        self.shape()
    }
}

impl<T> Node<T> {
    proof fn lemma_view_unfold(&self)
        ensures
            self@ == (BinTree::Fork {
                value: self.value,
                first: Box::new(slot_view(self.first)),
                second: Box::new(slot_view(self.second)),
            }),
    {
        reveal_with_fuel(Node::shape, 2);
    }

    /// The shape of a node is never empty, and its top holds the value.
    proof fn lemma_view_is_fork(&self)
        ensures
            self@ is Fork,
            self@.top_value() == Some(self.value),
    {
        self.lemma_view_unfold();
    }

    /// The shape of a node is never empty.
    pub proof fn lemma_is_node(&self)
        ensures
            self@ is Fork,
    {
        self.lemma_view_unfold();
    }

    /// A slot shows a node exactly when it holds one.
    pub proof fn lemma_slot_view(s: Option<Box<Node<T>>>)
        ensures
            s is Some <==> slot_view(s) is Fork,
    {
        if let Some(n) = s {
            n.lemma_view_unfold();
        }
    }

    /// The value held at this node.
    pub fn value(&self) -> (r: &T)
        ensures
            self@.top_value() == Some(*r),
    {
        proof { self.lemma_view_unfold(); }
        &self.value
    }

    /// Replaces the value held at this node; both slots stay as they were.
    pub fn set_value(&mut self, v: T)
        ensures
            final(self)@ is Fork,
            final(self)@.top_value() == Some(v),
            final(self)@.child(0) == old(self)@.child(0),
            final(self)@.child(1) == old(self)@.child(1),
    {
        proof { old(self).lemma_view_unfold(); }
        self.value = v;
        proof { self.lemma_view_unfold(); }
    }

    /// A node holding `value` with both slots empty.
    pub fn new(value: T) -> (r: Self)
        ensures
            r@ == BinTree::leaf(value),
    {
        let r = Node { value, first: None, second: None };
        proof { r.lemma_view_unfold(); }
        r
    }

    /// The child in slot `idx`, or `None` where the slot is empty.
    pub fn view_child(&self, idx: usize) -> (r: Option<&Node<T>>)
        requires
            idx < 2,
        ensures
            r is None <==> self@.child(idx as int) is Nil,
            r matches Some(c) ==> c@ == self@.child(idx as int),
    {
        proof { self.lemma_view_unfold(); }
        let slot = if idx == 0 { &self.first } else { &self.second };
        match slot {
            Some(c) => Some(&**c),
            None => None,
        }
    }

    /// The child in slot `idx` for mutation in place, or `None` where the slot
    /// is empty. Whatever the caller does through the result lands in that slot.
    pub fn get_child(&mut self, idx: usize) -> (r: Option<&mut Node<T>>)
        requires
            idx < 2,
        ensures
            r is None <==> old(self)@.child(idx as int) is Nil,
            r is None ==> final(self)@ == old(self)@,
            r is Some ==> (*r.unwrap())@ == old(self)@.child(idx as int),
            r is Some ==> final(self)@ == old(self)@.with_child(idx as int, (*final(r.unwrap()))@),
    {
        proof { old(self).lemma_view_unfold(); }
        let slot = if idx == 0 { &mut self.first } else { &mut self.second };
        match slot {
            Some(c) => Some(&mut **c),
            None => None,
        }
    }

    /// Takes the child out of slot `idx`, leaving the slot empty; `None` where
    /// it was empty already.
    pub fn pop_child(&mut self, idx: usize) -> (r: Option<Box<Node<T>>>)
        requires
            idx < 2,
        ensures
            slot_view(r) == old(self)@.child(idx as int),
            r is None <==> old(self)@.child(idx as int) is Nil,
            final(self)@ == old(self)@.with_child(idx as int, BinTree::Nil),
            final(self)@.child(idx as int) is Nil,
    {
        proof { old(self).lemma_view_unfold(); }
        let r = if idx == 0 { self.first.take() } else { self.second.take() };
        proof { self.lemma_view_unfold(); }
        r
    }

    /// Puts `val` into slot `idx`, dropping what the slot held before; `None`
    /// empties the slot.
    pub fn set_child(&mut self, idx: usize, val: Option<Box<Node<T>>>)
        requires
            idx < 2,
        ensures
            final(self)@ == old(self)@.with_child(idx as int, slot_view(val)),
            final(self)@ is Fork,
            final(self)@.child(idx as int) == slot_view(val),
            final(self)@.child(idx as int) is Fork <==> val is Some,
    {
        proof { Node::lemma_slot_view(val); }
        proof { old(self).lemma_view_unfold(); }
        if idx == 0 {
            self.first = val;
        } else {
            self.second = val;
        }
        proof { self.lemma_view_unfold(); }
    }
}


/// A node above the cursor, with the slot on the way down left empty.
struct Frame<T> {
    node: Box<Node<T>>,
    slot: usize,
}

/// The node under the cursor and the frames above it, nearest last.
struct Zipper<T> {
    focus: Box<Node<T>>,
    above: Vec<Frame<T>>,
}

/// A tree together with a cursor that moves one step at a time.
///
/// The tree owns its nodes. The nodes between the top and the cursor are kept
/// as frames, each missing the child that lies on the way down, so that every
/// move, edit and detachment at the cursor takes constant time.
pub struct Tree<T> {
    state: Option<Zipper<T>>,
}

spec fn slot_index(s: usize) -> int {
    if s == 0 { 0 } else { 1 }
}

/// The slots leading from the top through the given frames.
spec fn path_of<T>(frames: Seq<Frame<T>>) -> Seq<int>
    decreases frames.len(),
{
    if frames.len() == 0 {
        Seq::empty()
    } else {
        path_of(frames.drop_last()).push(slot_index(frames.last().slot))
    }
}

/// The whole tree: `t` put back into the frames from the nearest outwards.
spec fn plug<T>(t: BinTree<T>, frames: Seq<Frame<T>>) -> BinTree<T>
    decreases frames.len(),
{
    if frames.len() == 0 {
        t
    } else {
        let f = frames.last();
        plug(f.node@.with_child(slot_index(f.slot), t), frames.drop_last())
    }
}

proof fn lemma_path_len<T>(frames: Seq<Frame<T>>)
    ensures
        path_of(frames).len() == frames.len(),
        forall|k: int| 0 <= k < frames.len() ==> 0 <= #[trigger] path_of(frames)[k] < 2,
    decreases frames.len(),
{
    if frames.len() > 0 {
        lemma_path_len(frames.drop_last());
    }
}

/// Following the frames' path down the plugged tree leads back to `t`.
proof fn lemma_plug_subtree<T>(t: BinTree<T>, frames: Seq<Frame<T>>)
    ensures
        plug(t, frames).subtree(path_of(frames)) == t,
    decreases frames.len(),
{
    if frames.len() > 0 {
        let f = frames.last();
        let rest = frames.drop_last();
        f.node.lemma_view_is_fork();
        lemma_plug_subtree(f.node@.with_child(slot_index(f.slot), t), rest);
        assert(path_of(frames).drop_last() =~= path_of(rest));
    }
}

/// Plugging another tree into the frames replaces the subtree at their path.
proof fn lemma_plug_replace<T>(t: BinTree<T>, s: BinTree<T>, frames: Seq<Frame<T>>)
    ensures
        plug(s, frames) == plug(t, frames).replace(path_of(frames), s),
    decreases frames.len(),
{
    if frames.len() > 0 {
        let f = frames.last();
        let rest = frames.drop_last();
        let i = slot_index(f.slot);
        f.node.lemma_view_is_fork();
        assert(path_of(frames).drop_last() =~= path_of(rest));
        lemma_plug_subtree(f.node@.with_child(i, t), rest);
        lemma_plug_replace(f.node@.with_child(i, t), f.node@.with_child(i, s), rest);
    }
}

/// A plugged node is a node.
proof fn lemma_plug_fork<T>(t: BinTree<T>, frames: Seq<Frame<T>>)
    requires
        t is Fork,
    ensures
        plug(t, frames) is Fork,
    decreases frames.len(),
{
    if frames.len() > 0 {
        let f = frames.last();
        f.node.lemma_view_is_fork();
        lemma_plug_fork(f.node@.with_child(slot_index(f.slot), t), frames.drop_last());
    }
}

impl<T> Zipper<T> {
    spec fn root(self) -> BinTree<T> {
        plug(self.focus@, self.above@)
    }

    spec fn path(self) -> Seq<int> {
        path_of(self.above@)
    }

    /// Moves the focus one step up.
    fn ascend(&mut self)
        requires
            old(self).above@.len() > 0,
        ensures
            final(self).root() == old(self).root(),
            final(self).path() == old(self).path().drop_last(),
            final(self).above@.len() == old(self).above@.len() - 1,
    {
        let ghost frames = self.above@;
        let f = self.above.pop().unwrap();
        let Frame { node, slot } = f;
        let mut child = node;
        std::mem::swap(&mut self.focus, &mut child);
        let idx: usize = if slot == 0 { 0 } else { 1 };
        self.focus.set_child(idx, Some(child));
        proof {
            assert(self.above@ =~= frames.drop_last());
            assert(path_of(frames).drop_last() =~= path_of(frames.drop_last()));
        }
    }
}

impl<T> View for Tree<T> {
    type V = TreeView<T>;

    closed spec fn view(&self) -> TreeView<T> {
        match self.state {
            None => TreeView { root: BinTree::Nil, path: Seq::empty() },
            Some(z) => TreeView { root: z.root(), path: z.path() },
        }
    }
}


impl<T> Tree<T> {
    proof fn lemma_view(&self)
        ensures
            self.state is None ==> self@.root is Nil && self@.path.len() == 0,
            self.state matches Some(z) ==> {
                &&& self@.root is Fork
                &&& self@.current() == z.focus@
                &&& self@.path.len() == z.above@.len()
            },
    {
        if let Some(z) = self.state {
            z.focus.lemma_view_is_fork();
            lemma_plug_fork(z.focus@, z.above@);
            lemma_plug_subtree(z.focus@, z.above@);
            lemma_path_len(z.above@);
        }
    }

    /// The cursor always stands on a node of the tree, or the tree is empty.
    pub proof fn lemma_cursor_valid(&self)
        ensures
            self@.is_valid(),
    {
        self.lemma_view();
        if let Some(z) = self.state {
            lemma_path_len(z.above@);
        }
    }

    /// Moves the cursor to the top of the tree.
    pub fn reset_handle(&mut self) -> (r: &mut Tree<T>)
        ensures
            (*r)@ == old(self)@.top(),
            *final(self) == *final(r),
    {
        match self.state.take() {
            None => {},
            Some(z) => {
                let mut z = z;
                while z.above.len() > 0
                    invariant
                        z.root() == old(self)@.root,
                    decreases z.above@.len(),
                {
                    z.ascend();
                }
                proof {
                    assert(z.above@ =~= Seq::<Frame<T>>::empty());
                    assert(z.path() =~= Seq::<int>::empty());
                }
                self.state = Some(z);
            },
        }
        self
    }

    /// A tree with the given root, the cursor at the top; an empty tree for `None`.
    pub fn new(root: Option<Box<Node<T>>>) -> (r: Self)
        ensures
            r@ == (TreeView { root: slot_view(root), path: Seq::empty() }),
            r@.root is Nil <==> root is None,
    {
        proof { Node::lemma_slot_view(root); }
        match root {
            None => Tree { state: None },
            Some(n) => Tree { state: Some(Zipper { focus: n, above: Vec::new() }) },
        }
    }

    /// Ends the tree and hands back its root; `None` for an empty tree.
    pub fn pop_root(self) -> (r: Option<Box<Node<T>>>)
        ensures
            slot_view(r) == self@.root,
            r is None <==> self@.root is Nil,
    {
        let mut t = self;
        let t = t.reset_handle();
        proof { t.lemma_view(); }
        match t.state.take() {
            None => None,
            Some(z) => Some(z.focus),
        }
    }

    /// Whether the tree holds no node.
    pub fn empty(&self) -> (r: bool)
        ensures
            r == (self@.root is Nil),
    {
        proof { self.lemma_view(); }
        self.state.is_none()
    }

    /// Moves the cursor to the parent of the current node. `None`, with
    /// nothing changed, at the top or on an empty tree.
    pub fn parent(&mut self) -> (r: Option<&mut Tree<T>>)
        ensures
            r is Some <==> old(self)@.can_ascend(),
            r is None ==> final(self)@ == old(self)@,
            r is Some ==> (*r.unwrap())@ == old(self)@.up(),
            r is Some ==> (*r.unwrap())@.current().child(old(self)@.path.last()) == old(self)@.current(),
            r is Some ==> (*r.unwrap())@.current() is Fork,
            r is Some ==> *final(self) == *final(r.unwrap()),
    {
        proof { self.lemma_view(); }
        match self.state.take() {
            None => None,
            Some(z) => {
                let mut z = z;
                if z.above.len() == 0 {
                    self.state = Some(z);
                    None
                } else {
                    z.ascend();
                    self.state = Some(z);
                    proof {
                        self.lemma_view();
                        lemma_path_len(old(self).state->Some_0.above@);
                        lemma_plug_subtree(old(self)@.current(), old(self).state->Some_0.above@);
                        assert(old(self)@.path == old(self)@.up().path.push(old(self)@.path.last()));
                    }
                    Some(self)
                }
            },
        }
    }

    /// Moves the cursor to the child in slot `idx` of the current node.
    /// `None`, with nothing changed, where that slot is empty or the tree is.
    pub fn child(&mut self, idx: usize) -> (r: Option<&mut Tree<T>>)
        requires
            idx < 2,
        ensures
            r is Some <==> old(self)@.can_descend(idx as int),
            r is None ==> final(self)@ == old(self)@,
            r is Some ==> (*r.unwrap())@ == old(self)@.down(idx as int),
            r is Some ==> (*r.unwrap())@.current() == old(self)@.current().child(idx as int),
            r is Some ==> *final(self) == *final(r.unwrap()),
    {
        proof { self.lemma_view(); }
        match self.state.take() {
            None => None,
            Some(z) => {
                let Zipper { mut focus, mut above } = z;
                let ghost frames = above@;
                let ghost old_focus = focus@;
                match focus.pop_child(idx) {
                    None => {
                        proof {
                            focus.lemma_view_is_fork();
                            assert(focus@ == old_focus);
                        }
                        self.state = Some(Zipper { focus, above });
                        None
                    },
                    Some(c) => {
                        above.push(Frame { node: focus, slot: idx });
                        proof {
                            let nf = above@;
                            assert(nf.drop_last() =~= frames);
                            assert(nf.last().node@.with_child(idx as int, c@) == old_focus);
                        }
                        self.state = Some(Zipper { focus: c, above });
                        proof { self.lemma_view(); }
                        Some(self)
                    },
                }
            },
        }
    }

    /// Puts `val` into slot `idx` of the current node, as `Node::set_child`
    /// does; the cursor stays. `None`, with nothing changed, on an empty tree.
    pub fn set_child(&mut self, idx: usize, val: Option<Box<Node<T>>>) -> (r: Option<&mut Tree<T>>)
        requires
            idx < 2,
        ensures
            r is Some <==> old(self)@.root is Fork,
            r is None ==> final(self)@ == old(self)@,
            r is Some ==> (*r.unwrap())@ == old(self)@.set_at_cursor(idx as int, slot_view(val)),
            r is Some ==> (*r.unwrap())@.current() == old(self)@.current().with_child(
                idx as int,
                slot_view(val),
            ),
            r is Some ==> ((*r.unwrap())@.can_descend(idx as int) <==> val is Some),
            r is Some ==> *final(self) == *final(r.unwrap()),
    {
        proof { Node::lemma_slot_view(val); }
        proof { self.lemma_view(); }
        match self.state.take() {
            None => None,
            Some(z) => {
                let Zipper { mut focus, above } = z;
                let ghost old_focus = focus@;
                focus.set_child(idx, val);
                proof { lemma_plug_replace(old_focus, focus@, above@); }
                self.state = Some(Zipper { focus, above });
                proof { self.lemma_view(); }
                Some(self)
            },
        }
    }

    /// Detaches the subtree at the cursor and hands it back. The cursor moves
    /// to the parent, whose slot is left empty; at the top the tree becomes
    /// empty. `None` on an empty tree.
    pub fn pop_handle(&mut self) -> (r: Option<Box<Node<T>>>)
        ensures
            slot_view(r) == old(self)@.current(),
            r is None <==> old(self)@.root is Nil,
            final(self)@ == old(self)@.detach(),
            old(self)@.can_ascend() ==> final(self)@.current() == old(self)@.up().current().with_child(
                old(self)@.path.last(),
                BinTree::Nil,
            ),
            old(self)@.can_ascend() ==> final(self)@.root is Fork,
    {
        proof { self.lemma_view(); }
        match self.state.take() {
            None => None,
            Some(z) => {
                let Zipper { focus, mut above } = z;
                if above.len() == 0 {
                    Some(focus)
                } else {
                    let ghost frames = above@;
                    let f = above.pop().unwrap();
                    let Frame { node, slot } = f;
                    let mut parent = node;
                    let idx: usize = if slot == 0 { 0 } else { 1 };
                    parent.set_child(idx, None);
                    proof {
                        assert(above@ =~= frames.drop_last());
                        assert(path_of(frames).drop_last() =~= path_of(frames.drop_last()));
                        lemma_plug_replace(focus@, BinTree::Nil, frames);
                    }
                    self.state = Some(Zipper { focus: parent, above });
                    proof {
                        self.lemma_view();
                        lemma_plug_subtree(focus@, frames);
                        let up = path_of(frames).drop_last();
                        assert(path_of(frames) == up.push(path_of(frames).last()));
                        lemma_plug_subtree(
                            frames.last().node@.with_child(slot_index(frames.last().slot), focus@),
                            frames.drop_last(),
                        );
                    }
                    Some(focus)
                }
            },
        }
    }
}

impl<T: Copy> Tree<T> {
    /// A copy of the value at the cursor; `None` on an empty tree.
    pub fn view_value(&mut self) -> (r: Option<T>)
        ensures
            r == old(self)@.current().top_value(),
            final(self)@ == old(self)@,
    {
        proof { self.lemma_view(); }
        match &self.state {
            None => None,
            Some(z) => {
                proof { z.focus.lemma_view_is_fork(); }
                Some(z.focus.value)
            },
        }
    }
}

} // verus!
