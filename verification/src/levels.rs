//! Level-order traversal support for display layers.
//!
//! A traversal works on rows of slots: row 0 holds the root slot, and each
//! further row holds, for every slot of the previous row, the two child slots
//! of its node — or two empty slots where the node is absent. A row therefore
//! always has `2^k` slots at level `k`, placeholders included, so a renderer
//! can draw gaps at the right positions. [`Tree::snapshot`] collects the
//! values of every row down to the first row with no node in it.

use vstd::arithmetic::power2::lemma2_to64;
use vstd::arithmetic::power2::lemma_pow2_strictly_increases;
use vstd::arithmetic::power2::lemma_pow2_unfold;
use vstd::arithmetic::power2::pow2;
use vstd::prelude::*;

use crate::model::Bst;
use crate::tree::Node;
use crate::tree::Tree;
use crate::tree::node_view;

verus! {

/// The subtree a traversal slot stands for: the node's subtree, or the empty
/// tree for a placeholder.
pub open spec fn slot_view<'a>(slot: Option<&'a Node>) -> Bst {
    match slot {
        Some(n) => node_view(*n),
        None => Bst::Empty,
    }
}

/// A row of slots as a row of model trees.
pub open spec fn row_view<'a>(row: Seq<Option<&'a Node>>) -> Seq<Bst> {
    row.map_values(|slot: Option<&'a Node>| slot_view(slot))
}

/// The two subtrees below a tree's root; an empty tree contributes two empty
/// placeholders.
pub open spec fn children_of(t: Bst) -> Seq<Bst> {
    match t {
        Bst::Empty => seq![Bst::Empty, Bst::Empty],
        Bst::Node { left, right, .. } => seq![*left, *right],
    }
}

/// One traversal step: every tree of a row replaced by its two children.
pub open spec fn expand_row(row: Seq<Bst>) -> Seq<Bst>
    decreases row.len(),
{
    if row.len() == 0 {
        Seq::empty()
    } else {
        expand_row(row.drop_last()) + children_of(row.last())
    }
}

/// The root values of a row, a placeholder giving `None`.
pub open spec fn root_value(t: Bst) -> Option<i32> {
    match t {
        Bst::Empty => None,
        Bst::Node { value, .. } => Some(value),
    }
}

pub open spec fn row_values(row: Seq<Bst>) -> Seq<Option<i32>> {
    row.map_values(|t: Bst| root_value(t))
}

/// Row `k` of the level-order traversal of `t`.
pub open spec fn level(t: Bst, k: nat) -> Seq<Bst>
    decreases k,
{
    if k == 0 {
        seq![t]
    } else {
        expand_row(level(t, (k - 1) as nat))
    }
}

/// Whether any slot of the row holds a node.
pub open spec fn has_present(row: Seq<Bst>) -> bool {
    exists|i: int| 0 <= i < row.len() && row[i] is Node
}

/// The largest height among the trees of a row.
pub open spec fn row_height(row: Seq<Bst>) -> nat
    decreases row.len(),
{
    if row.len() == 0 {
        0
    } else {
        let h = row_height(row.drop_last());
        if row.last().height() >= h {
            row.last().height()
        } else {
            h
        }
    }
}

/// A row holds a node exactly when some tree in it has positive height.
proof fn lemma_has_present_iff_height(row: Seq<Bst>)
    ensures
        has_present(row) <==> row_height(row) > 0,
    decreases row.len(),
{
    if row.len() > 0 {
        lemma_has_present_iff_height(row.drop_last());
        if has_present(row.drop_last()) {
            let i = choose|i: int| 0 <= i < row.drop_last().len() && row.drop_last()[i] is Node;
            assert(row[i] is Node);
        }
        if row.last() is Node {
            assert(row[row.len() - 1] is Node);
        }
        if has_present(row) {
            let i = choose|i: int| 0 <= i < row.len() && row[i] is Node;
            if i < row.len() - 1 {
                assert(row.drop_last()[i] is Node);
            } else {
                assert(row.last() is Node);
            }
        }
    }
}

/// The maximal height of a pair of children is one less than the height of
/// the tree above them, and zero below an empty slot.
proof fn lemma_children_height(t: Bst)
    ensures
        row_height(children_of(t)) == (if t.height() == 0 {
            0nat
        } else {
            (t.height() - 1) as nat
        }),
{
    let c = children_of(t);
    let c1 = c.drop_last();
    assert(c.len() == 2);
    assert(c1.len() == 1);
    assert(c1.drop_last().len() == 0);
    assert(row_height(c1.drop_last()) == 0);
    assert(c1.last() == c[0]);
    assert(c.last() == c[1]);
    assert(row_height(c1) == c[0].height());
    match t {
        Bst::Empty => {
            assert(c[0] == Bst::Empty && c[1] == Bst::Empty);
            assert(Bst::Empty.height() == 0);
        },
        Bst::Node { value, left, right } => {
            assert(c[0] == *left && c[1] == *right);
        },
    }
}

/// Row heights add over concatenation by taking the maximum.
proof fn lemma_row_height_add(a: Seq<Bst>, b: Seq<Bst>)
    ensures
        row_height(a + b) == (if row_height(a) >= row_height(b) {
            row_height(a)
        } else {
            row_height(b)
        }),
    decreases b.len(),
{
    if b.len() == 0 {
        assert(a + b =~= a);
    } else {
        lemma_row_height_add(a, b.drop_last());
        assert((a + b).drop_last() =~= a + b.drop_last());
        assert((a + b).last() == b.last());
    }
}

/// Expanding a row lowers its height by exactly one, until it reaches zero.
proof fn lemma_expand_row_height(row: Seq<Bst>)
    ensures
        row_height(expand_row(row)) == (if row_height(row) == 0 {
            0nat
        } else {
            (row_height(row) - 1) as nat
        }),
    decreases row.len(),
{
    if row.len() > 0 {
        lemma_expand_row_height(row.drop_last());
        lemma_children_height(row.last());
        lemma_row_height_add(expand_row(row.drop_last()), children_of(row.last()));
    }
}

/// Row `k` of the traversal has height `height - k`, and so holds a node
/// exactly when `k` is less than the tree's height.
proof fn lemma_level_height(t: Bst, k: nat)
    ensures
        row_height(level(t, k)) == (if t.height() >= k {
            (t.height() - k) as nat
        } else {
            0nat
        }),
        has_present(level(t, k)) <==> k < t.height(),
    decreases k,
{
    if k == 0 {
        let r = seq![t];
        assert(r.drop_last().len() == 0);
        assert(row_height(r.drop_last()) == 0);
        assert(r.last() == t);
        assert(row_height(r) == t.height());
    } else {
        lemma_level_height(t, (k - 1) as nat);
        lemma_expand_row_height(level(t, (k - 1) as nat));
    }
    lemma_has_present_iff_height(level(t, k));
}

/// Whether some tree of the row has `v` at its root — that is, whether the
/// traversal shows `v` on this row.
pub open spec fn row_shows(row: Seq<Bst>, v: i32) -> bool {
    exists|i: int| 0 <= i < row.len() && root_value(row[i]) == Some(v)
}

/// All values held anywhere in the trees of a row.
spec fn row_set(row: Seq<Bst>) -> Set<i32>
    decreases row.len(),
{
    if row.len() == 0 {
        Set::empty()
    } else {
        row_set(row.drop_last()).union(row.last().values())
    }
}

/// The values at the roots of the trees of a row.
spec fn row_roots(row: Seq<Bst>) -> Set<i32>
    decreases row.len(),
{
    if row.len() == 0 {
        Set::empty()
    } else {
        row_roots(row.drop_last()).union(
            match row.last() {
                Bst::Empty => Set::empty(),
                Bst::Node { value, .. } => Set::empty().insert(value),
            },
        )
    }
}

proof fn lemma_row_set_concat(a: Seq<Bst>, b: Seq<Bst>)
    ensures
        row_set(a + b) == row_set(a).union(row_set(b)),
    decreases b.len(),
{
    if b.len() == 0 {
        assert(a + b =~= a);
        assert(row_set(b) =~= Set::<i32>::empty());
        assert(row_set(a).union(row_set(b)) =~= row_set(a));
    } else {
        lemma_row_set_concat(a, b.drop_last());
        assert((a + b).drop_last() =~= a + b.drop_last());
        assert((a + b).last() == b.last());
        assert(row_set(a + b) =~= row_set(a).union(row_set(b)));
    }
}

/// A row shows `v` exactly when `v` is among its root values.
proof fn lemma_row_shows_iff_roots(row: Seq<Bst>, v: i32)
    ensures
        row_shows(row, v) <==> row_roots(row).contains(v),
    decreases row.len(),
{
    if row.len() > 0 {
        lemma_row_shows_iff_roots(row.drop_last(), v);
        if row_shows(row.drop_last(), v) {
            let i = choose|i: int|
                0 <= i < row.drop_last().len() && root_value(row.drop_last()[i]) == Some(v);
            assert(root_value(row[i]) == Some(v));
        }
        if root_value(row.last()) == Some(v) {
            assert(root_value(row[row.len() - 1]) == Some(v));
        }
        if row_shows(row, v) {
            let i = choose|i: int| 0 <= i < row.len() && root_value(row[i]) == Some(v);
            if i < row.len() - 1 {
                assert(root_value(row.drop_last()[i]) == Some(v));
            }
        }
    }
}

/// A row's values are its root values together with the values of the next
/// row of the traversal.
proof fn lemma_row_set_split(row: Seq<Bst>)
    ensures
        row_set(row) == row_roots(row).union(row_set(expand_row(row))),
    decreases row.len(),
{
    if row.len() == 0 {
        assert(row_set(row) =~= row_roots(row).union(row_set(expand_row(row))));
    } else {
        lemma_row_set_split(row.drop_last());
        lemma_row_set_concat(expand_row(row.drop_last()), children_of(row.last()));
        let c = children_of(row.last());
        assert(c.drop_last().len() == 1);
        assert(c.drop_last().drop_last().len() == 0);
        assert(row_set(c.drop_last().drop_last()) =~= Set::<i32>::empty());
        assert(c.drop_last().last() == c[0]);
        assert(c.last() == c[1]);
        assert(row_set(c.drop_last()) =~= c[0].values());
        match row.last() {
            Bst::Empty => {
                assert(c[0] == Bst::Empty && c[1] == Bst::Empty);
                assert(Bst::Empty.values() =~= Set::<i32>::empty());
                assert(row_set(c) =~= Set::<i32>::empty());
            },
            Bst::Node { value, left, right } => {
                assert(c[0] == *left && c[1] == *right);
                assert(row_set(c) =~= left.values().union(right.values()));
            },
        }
        assert(row_set(row) =~= row_roots(row).union(row_set(expand_row(row))));
    }
}

/// A row of empty trees holds no values.
proof fn lemma_flat_row_empty(row: Seq<Bst>)
    requires
        row_height(row) == 0,
    ensures
        row_set(row) == Set::<i32>::empty(),
    decreases row.len(),
{
    if row.len() == 0 {
        assert(row_set(row) =~= Set::<i32>::empty());
    } else {
        lemma_flat_row_empty(row.drop_last());
        assert(row.last().height() == 0);
        match row.last() {
            Bst::Empty => {
                assert(Bst::Empty.values() =~= Set::<i32>::empty());
            },
            Bst::Node { value, left, right } => {},
        }
        assert(row_set(row) =~= Set::<i32>::empty());
    }
}

/// The first traversal row holds exactly the tree's values.
proof fn lemma_level_zero_set(t: Bst)
    ensures
        row_set(level(t, 0)) == t.values(),
{
    let r = seq![t];
    assert(r.drop_last().len() == 0);
    assert(row_set(r.drop_last()) =~= Set::<i32>::empty());
    assert(r.last() == t);
    assert(row_set(r) =~= t.values());
}

/// Every value of a traversal row is a value of the tree.
proof fn lemma_level_set_subset(t: Bst, k: nat, v: i32)
    requires
        row_set(level(t, k)).contains(v),
    ensures
        t.values().contains(v),
    decreases k,
{
    if k == 0 {
        lemma_level_zero_set(t);
    } else {
        lemma_row_set_split(level(t, (k - 1) as nat));
        lemma_level_set_subset(t, (k - 1) as nat, v);
    }
}

/// Every value of a traversal row appears at the root of that row or of a
/// later one.
proof fn lemma_find_level(t: Bst, k: nat, v: i32)
    requires
        row_set(level(t, k)).contains(v),
    ensures
        exists|j: nat| k <= j && row_shows(level(t, j), v),
    decreases row_height(level(t, k)),
{
    lemma_row_set_split(level(t, k));
    if row_roots(level(t, k)).contains(v) {
        lemma_row_shows_iff_roots(level(t, k), v);
        assert(k <= k && row_shows(level(t, k), v));
    } else {
        assert(row_set(expand_row(level(t, k))).contains(v));
        assert(expand_row(level(t, k)) == level(t, k + 1));
        if row_height(level(t, k)) == 0 {
            lemma_flat_row_empty(level(t, k));
            assert(false);
        }
        lemma_expand_row_height(level(t, k));
        lemma_find_level(t, k + 1, v);
        let j = choose|j: nat| k + 1 <= j && row_shows(level(t, j), v);
        assert(k <= j && row_shows(level(t, j), v));
    }
}

/// The traversal shows exactly the tree's values: `v` appears at the root of
/// some row — necessarily one of the rows the snapshot emits — if and only if
/// the tree holds `v`. So a deleted value is gone from the snapshot, and no
/// held value is missed by it.
pub proof fn lemma_levels_show_values(t: Bst, v: i32)
    ensures
        t.contains(v) <==> (exists|k: nat| k < t.height() && row_shows(level(t, k), v)),
{
    if t.contains(v) {
        lemma_level_zero_set(t);
        lemma_find_level(t, 0, v);
        let j = choose|j: nat| 0 <= j && row_shows(level(t, j), v);
        let i = choose|i: int| 0 <= i < level(t, j).len() && root_value(level(t, j)[i]) == Some(v);
        assert(level(t, j)[i] is Node);
        assert(has_present(level(t, j)));
        lemma_level_height(t, j);
        assert(j < t.height() && row_shows(level(t, j), v));
    }
    if exists|k: nat| k < t.height() && row_shows(level(t, k), v) {
        let k = choose|k: nat| k < t.height() && row_shows(level(t, k), v);
        lemma_row_shows_iff_roots(level(t, k), v);
        lemma_row_set_split(level(t, k));
        lemma_level_set_subset(t, k, v);
    }
}

/// Sideways padding for a node drawn `depth` levels above the leaves: one
/// less than `2^(depth + 1)`, following the doubling rule of the renderer.
pub fn calc_padding(depth: &u32) -> (p: u16)
    requires
        *depth <= 15,
    ensures
        p as nat + 1 == pow2((*depth + 1) as nat),
{
    proof {
        lemma2_to64();
    }
    let mut paddings: Vec<u16> = Vec::new();
    paddings.push(1);
    for i in 0..*depth
        invariant
            *depth <= 15,
            paddings@.len() == i + 1,
            forall|j: int| 0 <= j <= i ==> paddings@[j] as nat == pow2((j + 1) as nat) - 1,
    {
        proof {
            lemma2_to64();
            lemma_pow2_unfold((i + 2) as nat);
            if i + 2 < 16 {
                lemma_pow2_strictly_increases((i + 2) as nat, 16nat);
            }
        }
        let next = paddings[i as usize] * 2 + 1;
        paddings.push(next);
    }
    paddings[paddings.len() - 1]
}

/// The next traversal row: each present node replaced by its two child
/// slots, each placeholder by two more placeholders.
pub fn get_next_iter_nodes<'a>(nodes: Vec<Option<&'a Node>>) -> (next: Vec<
    Option<&'a Node>,
>)
    ensures
        row_view(next@) == expand_row(row_view(nodes@)),
{
    let mut tmp_nodes: Vec<Option<&'a Node>> = Vec::new();
    proof {
        assert(nodes@.subrange(0, 0) =~= Seq::<Option<&'a Node>>::empty());
        assert(row_view(nodes@.subrange(0, 0)) =~= Seq::<Bst>::empty());
        assert(row_view(tmp_nodes@) =~= Seq::<Bst>::empty());
    }
    let mut i: usize = 0;
    while i < nodes.len()
        invariant
            i <= nodes@.len(),
            row_view(tmp_nodes@) == expand_row(row_view(nodes@.subrange(0, i as int))),
        decreases nodes@.len() - i,
    {
        let slot = nodes[i];
        match slot {
            Some(n) => {
                match &n.left.0 {
                    Some(b) => tmp_nodes.push(Some(&**b)),
                    None => tmp_nodes.push(None),
                }
                match &n.right.0 {
                    Some(b) => tmp_nodes.push(Some(&**b)),
                    None => tmp_nodes.push(None),
                }
            },
            None => {
                tmp_nodes.push(None);
                tmp_nodes.push(None);
            },
        }
        proof {
            let prev = row_view(nodes@.subrange(0, i as int));
            let ext = row_view(nodes@.subrange(0, i as int + 1));
            assert(ext.drop_last() =~= prev);
            assert(ext.last() == slot_view(nodes@[i as int]));
            assert(children_of(slot_view(slot)).len() == 2);
            assert(row_view(tmp_nodes@) =~= expand_row(prev) + children_of(slot_view(slot)));
            assert(expand_row(ext) == expand_row(prev) + children_of(slot_view(slot)));
        }
        i += 1;
    }
    proof {
        assert(nodes@.subrange(0, nodes@.len() as int) =~= nodes@);
    }
    tmp_nodes
}

/// The values at the roots of a traversal row, a placeholder giving `None`.
fn collect_row_values(nodes: &Vec<Option<&Node>>) -> (row: Vec<Option<i32>>)
    ensures
        row@ == row_values(row_view(nodes@)),
{
    let mut row: Vec<Option<i32>> = Vec::new();
    let mut i: usize = 0;
    while i < nodes.len()
        invariant
            i <= nodes@.len(),
            row@.len() == i,
            forall|j: int| 0 <= j < i ==> row@[j] == root_value(slot_view(nodes@[j])),
        decreases nodes@.len() - i,
    {
        match nodes[i] {
            Some(n) => row.push(Some(n.value)),
            None => row.push(None),
        }
        i += 1;
    }
    proof {
        assert(row@ =~= row_values(row_view(nodes@)));
    }
    row
}

impl Tree {
    /// One row of values per tree level, `2^level` slots wide with `None` at
    /// every absent position, down to and including the first row that holds
    /// no value at all; the empty tree has no rows.
    pub fn snapshot(&self) -> (rows: Vec<Vec<Option<i32>>>)
        ensures
            self@ is Empty ==> rows@.len() == 0,
            self@ is Node ==> rows@.len() == self@.height() + 1,
            forall|k: int|
                0 <= k < rows@.len() ==> rows@[k]@ == row_values(level(self@, k as nat)),
    {
        let mut rows: Vec<Vec<Option<i32>>> = Vec::new();
        let root: Option<&Node> = match &self.0 {
            None => {
                return rows;
            },
            Some(b) => Some(&**b),
        };
        let mut nodes: Vec<Option<&Node>> = Vec::new();
        nodes.push(root);
        proof {
            assert(row_view(nodes@) =~= level(self@, 0));
        }
        loop
            invariant_except_break
                self@ is Node,
                row_view(nodes@) == level(self@, rows@.len() as nat),
                rows@.len() <= self@.height(),
                forall|k: int|
                    0 <= k < rows@.len() ==> rows@[k]@ == row_values(level(self@, k as nat)),
            ensures
                rows@.len() == self@.height() + 1,
                forall|k: int|
                    0 <= k < rows@.len() ==> rows@[k]@ == row_values(level(self@, k as nat)),
            decreases self@.height() - rows@.len(),
        {
            let row = collect_row_values(&nodes);
            rows.push(row);
            proof {
                lemma_level_height(self@, (rows@.len() - 1) as nat);
            }
            if !is_some_in_vec(nodes.as_slice()) {
                break;
            }
            nodes = get_next_iter_nodes(nodes);
        }
        rows
    }
}

/// Whether any slot of the traversal row holds a node.
pub fn is_some_in_vec(v: &[Option<&Node>]) -> (r: bool)
    ensures
        r == has_present(row_view(v@)),
{
    let mut i: usize = 0;
    while i < v.len()
        invariant
            0 <= i <= v@.len(),
            forall|j: int| 0 <= j < i ==> !(v@[j] is Some),
        decreases v@.len() - i,
    {
        if v[i].is_some() {
            proof {
                assert(row_view(v@)[i as int] is Node);
            }
            return true;
        }
        i += 1;
    }
    proof {
        assert forall|j: int| 0 <= j < v@.len() implies !(row_view(v@)[j] is Node) by {
            assert(!(v@[j] is Some));
        }
    }
    false
}

} // verus!
