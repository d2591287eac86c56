//! The mathematical model of the binary search tree.
//!
//! [`Bst`] is the ghost counterpart of the executable tree: every executable
//! operation promises that the tree it leaves behind equals the result of the
//! corresponding model function. The lemmas at the end state the laws of the
//! structure: insertion and deletion preserve well-formedness and act on the
//! value set as expected, duplicates and absent values leave the tree intact.

use vstd::prelude::*;

verus! {

/// A binary search tree as a pure value: empty, or a node with a value and
/// two subtrees.
pub enum Bst {
    Empty,
    Node { value: i32, left: Box<Bst>, right: Box<Bst> },
}

impl Bst {
    /// A single node with two empty subtrees.
    pub open spec fn leaf(value: i32) -> Bst {
        Bst::Node { value, left: Box::new(Bst::Empty), right: Box::new(Bst::Empty) }
    }

    /// Height of the tree: 0 for the empty tree, 1 for a leaf.
    pub open spec fn height(self) -> nat
        decreases self,
    {
        match self {
            Bst::Empty => 0,
            Bst::Node { left, right, .. } => 1 + if left.height() >= right.height() {
                left.height()
            } else {
                right.height()
            },
        }
    }

    /// The set of values held by the tree.
    pub open spec fn values(self) -> Set<i32>
        decreases self,
    {
        match self {
            Bst::Empty => Set::empty(),
            Bst::Node { value, left, right } => left.values().union(right.values()).insert(value),
        }
    }

    pub open spec fn contains(self, v: i32) -> bool {
        self.values().contains(v)
    }

    /// The binary-search-tree ordering invariant: every value in a left
    /// subtree is less than the node's value, every value in a right subtree
    /// is greater. Strict inequalities rule out duplicates.
    pub open spec fn wf(self) -> bool
        decreases self,
    {
        match self {
            Bst::Empty => true,
            Bst::Node { value, left, right } => {
                &&& left.wf()
                &&& right.wf()
                &&& (forall|v: i32| left.values().contains(v) ==> v < value)
                &&& (forall|v: i32| right.values().contains(v) ==> v > value)
            },
        }
    }

    /// Standard recursive insertion: a duplicate leaves the tree unchanged,
    /// a greater value goes right, a smaller one goes left.
    pub open spec fn insert(self, v: i32) -> Bst
        decreases self,
    {
        match self {
            Bst::Empty => Bst::leaf(v),
            Bst::Node { value, left, right } => {
                if v == value {
                    Bst::Node { value, left, right }
                } else if v > value {
                    Bst::Node { value, left, right: Box::new(right.insert(v)) }
                } else {
                    Bst::Node { value, left: Box::new(left.insert(v)), right }
                }
            },
        }
    }

    /// Detach the minimum node: descend along left slots until one is empty;
    /// the result is the minimum value and the tree without its node. On the
    /// empty tree the result is arbitrary and never relied on.
    pub open spec fn extract_min(self) -> (i32, Bst)
        decreases self,
    {
        match self {
            Bst::Empty => (0, Bst::Empty),
            Bst::Node { value, left, right } => {
                if *left is Empty {
                    (value, *right)
                } else {
                    let (m, rest) = left.extract_min();
                    (m, Bst::Node { value, left: Box::new(rest), right })
                }
            },
        }
    }

    /// Deletion with successor promotion: a node with at most one child is
    /// spliced out; a node with two children keeps its slot but takes the
    /// minimum of its right subtree as its value, and that donor node is
    /// detached instead.
    pub open spec fn delete(self, v: i32) -> Bst
        decreases self,
    {
        match self {
            Bst::Empty => Bst::Empty,
            Bst::Node { value, left, right } => {
                if v == value {
                    if *left is Empty {
                        *right
                    } else if *right is Empty {
                        *left
                    } else {
                        let (m, rest) = right.extract_min();
                        Bst::Node { value: m, left, right: Box::new(rest) }
                    }
                } else if v > value {
                    Bst::Node { value, left, right: Box::new(right.delete(v)) }
                } else {
                    Bst::Node { value, left: Box::new(left.delete(v)), right }
                }
            },
        }
    }
}

/// The tree grown by inserting the values of a sequence in order, starting
/// from the empty tree.
pub open spec fn bst_from(values: Seq<i32>) -> Bst
    decreases values.len(),
{
    if values.len() == 0 {
        Bst::Empty
    } else {
        bst_from(values.drop_last()).insert(values.last())
    }
}

/// Insertion preserves well-formedness and adds exactly the given value to
/// the value set; the result is never empty.
pub proof fn lemma_insert(t: Bst, v: i32)
    requires
        t.wf(),
    ensures
        t.insert(v).wf(),
        t.insert(v).values() == t.values().insert(v),
        t.insert(v) is Node,
    decreases t,
{
    match t {
        Bst::Empty => {
            assert(Bst::Empty.values() =~= Set::<i32>::empty());
            assert(Bst::leaf(v).values() =~= Set::empty().insert(v));
        },
        Bst::Node { value, left, right } => {
            if v == value {
                assert(t.values().contains(v));
                assert(t.insert(v).values() =~= t.values().insert(v));
            } else if v > value {
                lemma_insert(*right, v);
                assert(t.insert(v).values() =~= t.values().insert(v));
            } else {
                lemma_insert(*left, v);
                assert(t.insert(v).values() =~= t.values().insert(v));
            }
        },
    }
}

/// Inserting a value the tree already holds is a no-op: the tree is
/// unchanged, so its depth and its level snapshot are unchanged too.
pub proof fn lemma_insert_duplicate(t: Bst, v: i32)
    requires
        t.wf(),
        t.contains(v),
    ensures
        t.insert(v) == t,
    decreases t,
{
    match t {
        Bst::Empty => {},
        Bst::Node { value, left, right } => {
            if v == value {
            } else if v > value {
                assert(!left.values().contains(v));
                assert(right.values().contains(v));
                lemma_insert_duplicate(*right, v);
            } else {
                assert(!right.values().contains(v));
                assert(left.values().contains(v));
                lemma_insert_duplicate(*left, v);
            }
        },
    }
}

/// Every tree grown by insertions alone is well-formed.
pub proof fn lemma_bst_from_wf(values: Seq<i32>)
    ensures
        bst_from(values).wf(),
    decreases values.len(),
{
    if values.len() > 0 {
        lemma_bst_from_wf(values.drop_last());
        lemma_insert(bst_from(values.drop_last()), values.last());
    }
}

/// Detaching the minimum of a well-formed non-empty tree yields its least
/// value and a well-formed tree holding the remaining values.
pub proof fn lemma_extract_min(t: Bst)
    requires
        t.wf(),
        t is Node,
    ensures
        t.values().contains(t.extract_min().0),
        forall|w: i32| t.values().contains(w) ==> t.extract_min().0 <= w,
        t.extract_min().1.wf(),
        t.extract_min().1.values() == t.values().remove(t.extract_min().0),
    decreases t,
{
    match t {
        Bst::Empty => {},
        Bst::Node { value, left, right } => {
            if *left is Empty {
                assert(Bst::Empty.values() =~= Set::<i32>::empty());
                assert(!left.values().contains(value));
                assert(!right.values().contains(value));
                assert forall|w: i32| t.values().contains(w) implies value <= w by {
                    if w != value {
                        assert(right.values().contains(w));
                    }
                }
                assert(t.extract_min().1.values() =~= t.values().remove(value));
            } else {
                lemma_extract_min(*left);
                let (m, rest) = left.extract_min();
                assert(left.values().contains(m));
                assert(m < value);
                assert(!right.values().contains(m));
                assert forall|w: i32| t.values().contains(w) implies m <= w by {
                    if left.values().contains(w) {
                    } else if w == value {
                    } else {
                        assert(right.values().contains(w));
                    }
                }
                assert forall|w: i32| rest.values().contains(w) implies w < value by {
                    assert(left.values().contains(w));
                }
                assert(t.extract_min().1.values() =~= t.values().remove(m));
            }
        },
    }
}

/// Deletion preserves well-formedness, removes exactly the given value from
/// the value set, and afterwards the tree no longer contains it.
pub proof fn lemma_delete(t: Bst, v: i32)
    requires
        t.wf(),
    ensures
        t.delete(v).wf(),
        t.delete(v).values() == t.values().remove(v),
        !t.delete(v).contains(v),
    decreases t,
{
    match t {
        Bst::Empty => {
            assert(Bst::Empty.values() =~= Set::<i32>::empty());
            assert(t.delete(v).values() =~= t.values().remove(v));
        },
        Bst::Node { value, left, right } => {
            assert(!left.values().contains(value));
            assert(!right.values().contains(value));
            if v == value {
                if *left is Empty {
                    assert(Bst::Empty.values() =~= Set::<i32>::empty());
                    assert(t.delete(v).values() =~= t.values().remove(v));
                } else if *right is Empty {
                    assert(Bst::Empty.values() =~= Set::<i32>::empty());
                    assert(t.delete(v).values() =~= t.values().remove(v));
                } else {
                    lemma_extract_min(*right);
                    let (m, rest) = right.extract_min();
                    assert(right.values().contains(m));
                    assert(m > value);
                    assert(!left.values().contains(m));
                    assert forall|w: i32| rest.values().contains(w) implies w > m by {
                        assert(right.values().contains(w));
                        assert(m <= w);
                        assert(w != m);
                    }
                    assert forall|w: i32| left.values().contains(w) implies w < m by {
                        assert(w < value);
                    }
                    assert(t.delete(v).values() =~= t.values().remove(v));
                }
            } else if v > value {
                lemma_delete(*right, v);
                assert(!left.values().contains(v));
                assert(t.delete(v).values() =~= t.values().remove(v));
            } else {
                lemma_delete(*left, v);
                assert(!right.values().contains(v));
                assert(t.delete(v).values() =~= t.values().remove(v));
            }
        },
    }
}

/// Deleting a value the tree does not hold leaves the tree unchanged, and
/// with it every observation of the tree, the level snapshot included.
pub proof fn lemma_delete_absent(t: Bst, v: i32)
    requires
        t.wf(),
        !t.contains(v),
    ensures
        t.delete(v) == t,
    decreases t,
{
    match t {
        Bst::Empty => {},
        Bst::Node { value, left, right } => {
            if v > value {
                assert(!right.values().contains(v));
                lemma_delete_absent(*right, v);
            } else {
                assert(v < value);
                assert(!left.values().contains(v));
                lemma_delete_absent(*left, v);
            }
        },
    }
}

} // verus!
