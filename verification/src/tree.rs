//! The executable binary search tree.
//!
//! `Tree` is a slot holding zero or one owned `Node`; `Node` holds a value
//! and two child `Tree`s, so a tree and a subtree share one representation.
//! Every operation's contract pins the resulting tree to the corresponding
//! function of the model: the view of a `Tree` is a [`Bst`].

use vstd::prelude::*;

use crate::model::Bst;
use crate::model::lemma_delete;
use crate::model::lemma_insert;

verus! {

/// A tree node: a value and two owned subtrees.
#[derive(Debug)]
pub struct Node {
    pub value: i32,
    pub left: Tree,
    pub right: Tree,
}

/// A slot holding zero or one owned node; the root may be absent.
#[derive(Debug)]
pub struct Tree(pub Option<Box<Node>>);

/// The events a display layer hands to the tree: add a value, or remove one.
#[derive(Debug, Clone, Copy)]
pub enum Message {
    AddChild,
    DelChild,
}

/// The model tree a node stands for.
pub open spec fn node_view(n: Node) -> Bst
    decreases n,
{
    Bst::Node {
        value: n.value,
        left: Box::new(tree_view(n.left)),
        right: Box::new(tree_view(n.right)),
    }
}

/// The model tree a slot stands for: empty when the slot is.
pub open spec fn tree_view(t: Tree) -> Bst
    decreases t,
{
    match t.0 {
        None => Bst::Empty,
        Some(n) => node_view(*n),
    }
}

impl View for Node {
    type V = Bst;

    open spec fn view(&self) -> Bst {
        node_view(*self)
    }
}

impl View for Tree {
    type V = Bst;

    open spec fn view(&self) -> Bst {
        tree_view(*self)
    }
}

impl Node {
    /// A fresh leaf node holding `value`.
    pub fn new(value: i32) -> (n: Node)
        ensures
            n@ == Bst::leaf(value),
    {
        Node { value, left: Tree(None), right: Tree(None) }
    }

    /// Depth of the subtree rooted at this node; a lone node has depth 1.
    pub fn get_depth(&self) -> (d: u32)
        requires
            self@.height() <= u32::MAX,
        ensures
            d == self@.height(),
        decreases *self,
    {
        proof {
            assert(Bst::Empty.height() == 0);
        }
        match (&self.left.0, &self.right.0) {
            (None, None) => 1,
            (Some(l), None) => l.get_depth() + 1,
            (None, Some(r)) => r.get_depth() + 1,
            (Some(l), Some(r)) => {
                let ld = l.get_depth();
                let rd = r.get_depth();
                (if ld >= rd {
                    ld
                } else {
                    rd
                }) + 1
            },
        }
    }

    /// Insert `value` below this node; a duplicate changes nothing.
    pub fn add_node(&mut self, value: i32)
        ensures
            final(self)@ == old(self)@.insert(value),
        decreases *old(self),
    {
        proof {
            assert(Bst::Empty.insert(value) == Bst::leaf(value));
        }
        if self.value == value {
            return;
        }
        if value > self.value {
            match self.right.0.take() {
                Some(mut n) => {
                    (&mut *n).add_node(value);
                    self.right.0 = Some(n);
                },
                None => {
                    self.right.0 = Some(Box::new(Node::new(value)));
                },
            }
        } else {
            match self.left.0.take() {
                Some(mut n) => {
                    (&mut *n).add_node(value);
                    self.left.0 = Some(n);
                },
                None => {
                    self.left.0 = Some(Box::new(Node::new(value)));
                },
            }
        }
    }
}

impl Tree {
    /// A tree whose root holds `val` and nothing else.
    pub fn new(val: i32) -> (t: Tree)
        ensures
            t@ == Bst::leaf(val),
    {
        Tree(Some(Box::new(Node::new(val))))
    }

    /// Insert `value`; inserting a value already present changes nothing.
    pub fn add_node(&mut self, value: i32)
        requires
            old(self)@.wf(),
        ensures
            final(self)@ == old(self)@.insert(value),
            final(self)@.wf(),
    {
        proof {
            lemma_insert(self@, value);
        }
        match self.0.take() {
            None => {
                self.0 = Some(Box::new(Node::new(value)));
            },
            Some(mut n) => {
                (&mut *n).add_node(value);
                self.0 = Some(n);
            },
        }
    }

    /// Depth of the tree: 0 when empty, 1 for a lone root.
    pub fn get_depth(&self) -> (d: u32)
        requires
            self@.height() <= u32::MAX,
        ensures
            d == self@.height(),
    {
        match &self.0 {
            None => 0,
            Some(n) => n.get_depth(),
        }
    }

    /// Remove the node holding `value`, if any; reports whether one existed.
    /// A node with two children keeps its slot: its value is overwritten with
    /// the minimum of its right subtree, and that donor node is detached.
    pub fn del_node(&mut self, value: i32) -> (found: bool)
        requires
            old(self)@.wf(),
        ensures
            final(self)@ == old(self)@.delete(value),
            final(self)@.wf(),
            found == old(self)@.contains(value),
        decreases *old(self),
    {
        let ghost t0 = self@;
        proof {
            lemma_delete(t0, value);
        }
        match self.0.take() {
            None => false,
            Some(mut n) => {
                let ghost l0 = n.left@;
                let ghost r0 = n.right@;
                if n.value == value {
                    if n.left.0.is_none() {
                        *self = n.right;
                    } else if n.right.0.is_none() {
                        *self = n.left;
                    } else {
                        let m = n.right.extract_min();
                        n.value = m;
                        self.0 = Some(n);
                    }
                    true
                } else if n.value > value {
                    proof {
                        assert(forall|w: i32| r0.values().contains(w) ==> w > n.value);
                        assert(!r0.values().contains(value));
                    }
                    let found = n.left.del_node(value);
                    self.0 = Some(n);
                    found
                } else {
                    proof {
                        assert(forall|w: i32| l0.values().contains(w) ==> w < n.value);
                        assert(!l0.values().contains(value));
                    }
                    let found = n.right.del_node(value);
                    self.0 = Some(n);
                    found
                }
            },
        }
    }

    /// Detach the minimum node of a non-empty tree and return its value:
    /// descend along left slots until one is empty; that node holds the
    /// minimum and can only have a right child, which takes its place.
    pub fn extract_min(&mut self) -> (m: i32)
        requires
            old(self).0 is Some,
        ensures
            m == old(self)@.extract_min().0,
            final(self)@ == old(self)@.extract_min().1,
        decreases *old(self),
    {
        let mut n = self.0.take().unwrap();
        if n.left.0.is_none() {
            let m = n.value;
            *self = n.right;
            m
        } else {
            let m = n.left.extract_min();
            self.0 = Some(n);
            m
        }
    }

    /// Apply a display-layer event with its value: `AddChild` inserts,
    /// `DelChild` deletes.
    pub fn update(&mut self, message: Message, value: i32)
        requires
            old(self)@.wf(),
        ensures
            final(self)@.wf(),
            message is AddChild ==> final(self)@ == old(self)@.insert(value),
            message is DelChild ==> final(self)@ == old(self)@.delete(value),
    {
        match message {
            Message::AddChild => self.add_node(value),
            Message::DelChild => {
                self.del_node(value);
            },
        }
    }
}

/// Structural equality of nodes: equal values and equal subtrees.
fn node_eq(a: &Node, b: &Node) -> (r: bool)
    ensures
        r == (a@ == b@),
    decreases *a,
{
    if a.value != b.value {
        return false;
    }
    let le = tree_eq(&a.left, &b.left);
    if !le {
        return false;
    }
    tree_eq(&a.right, &b.right)
}

/// Structural equality of trees: both empty, or equal root nodes.
fn tree_eq(a: &Tree, b: &Tree) -> (r: bool)
    ensures
        r == (a@ == b@),
    decreases *a,
{
    match (&a.0, &b.0) {
        (None, None) => true,
        (Some(x), Some(y)) => node_eq(&**x, &**y),
        _ => false,
    }
}

impl PartialEq for Node {
    /// Two nodes are equal when their views are: same value, same subtrees.
    fn eq(&self, other: &Node) -> (r: bool) {
        node_eq(self, other)
    }
}

impl vstd::std_specs::cmp::PartialEqSpecImpl for Node {
    open spec fn obeys_eq_spec() -> bool {
        true
    }

    open spec fn eq_spec(&self, other: &Node) -> bool {
        self@ == other@
    }
}

impl PartialEq for Tree {
    /// Two trees are equal when their views are.
    fn eq(&self, other: &Tree) -> (r: bool) {
        tree_eq(self, other)
    }
}

impl vstd::std_specs::cmp::PartialEqSpecImpl for Tree {
    open spec fn obeys_eq_spec() -> bool {
        true
    }

    open spec fn eq_spec(&self, other: &Tree) -> bool {
        self@ == other@
    }
}

impl Default for Tree {
    /// The empty tree.
    fn default() -> (t: Tree)
        ensures
            t@ == Bst::Empty,
    {
        Tree(None)
    }
}

} // verus!
