//! The node arena: nodes stored by value in a flat sequence, children addressed by
//! position, and what it means for an arena to be a well-formed k-d tree.
use vstd::prelude::*;

verus! {

/// A node of the tree. Points are given by their index into the tree's data.
pub enum Node {
    /// An inner node: its median point on `split_dim`, and the positions of its two subtrees.
    Stem { split_dim: usize, point: usize, left: usize, right: usize },
    /// A terminal node: its points and their per-axis minimum and maximum.
    Leaf { points: Vec<usize>, lower: Vec<i32>, upper: Vec<i32> },
}

impl Node {
    pub open spec fn is_leaf_spec(&self) -> bool {
        self is Leaf
    }

    /// Whether the node is a stem.
    pub fn is_stem(&self) -> (r: bool)
        ensures
            r == !self.is_leaf_spec(),
    {
        match self {
            Node::Stem { .. } => true,
            Node::Leaf { .. } => false,
        }
    }

    /// The points of a leaf.
    pub fn leaf_points(&self) -> (r: &Vec<usize>)
        requires
            self is Leaf,
        ensures
            self matches Node::Leaf { points, .. } && *r == points,
    {
        match self {
            Node::Leaf { points, .. } => points,
            Node::Stem { .. } => vstd::pervasive::unreached(),
        }
    }
}

/// Coordinate `a` of point `j`.
pub open spec fn coord(data: Seq<Vec<i32>>, j: usize, a: int) -> int {
    data[j as int]@[a] as int
}

/// The indices held by the subtree rooted at position `i`, in order: left subtree,
/// the stem's own point, right subtree.
pub open spec fn members(nodes: Seq<Node>, i: int) -> Seq<usize>
    decreases i,
{
    if 0 <= i < nodes.len() {
        match nodes[i] {
            Node::Leaf { points, .. } => points@,
            Node::Stem { point, left, right, .. } => {
                if left < i && right < i {
                    members(nodes, left as int) + seq![point] + members(nodes, right as int)
                } else {
                    Seq::empty()
                }
            },
        }
    } else {
        Seq::empty()
    }
}

/// The number of leaves in an arena.
pub open spec fn leaf_count(nodes: Seq<Node>) -> nat
    decreases nodes.len(),
{
    if nodes.len() == 0 {
        0
    } else {
        leaf_count(nodes.drop_last()) + if nodes.last() is Leaf { 1nat } else { 0nat }
    }
}

/// `lo` and `hi` are the least and the greatest coordinate `a` over `points`.
pub open spec fn extent_ok(data: Seq<Vec<i32>>, points: Seq<usize>, a: int, lo: int, hi: int) -> bool {
    &&& forall|k: int| 0 <= k < points.len() ==> lo <= #[trigger] coord(data, points[k], a) <= hi
    &&& exists|k: int| 0 <= k < points.len() && lo == #[trigger] coord(data, points[k], a)
    &&& exists|k: int| 0 <= k < points.len() && hi == #[trigger] coord(data, points[k], a)
}

/// Node `i` of the arena is well formed: a leaf holds 1 to `leafsize` valid points and
/// their true extents; a stem's children come before it, and its point is a median on
/// its split axis: nothing in the left subtree above it, nothing in the right below it.
pub open spec fn node_ok(nodes: Seq<Node>, data: Seq<Vec<i32>>, dim: nat, leafsize: nat, i: int) -> bool {
    match nodes[i] {
        Node::Leaf { points, lower, upper } => {
            &&& 1 <= points.len() <= leafsize
            &&& lower.len() == dim
            &&& upper.len() == dim
            &&& forall|k: int| 0 <= k < points.len() ==> #[trigger] points[k] < data.len()
            &&& forall|a: int| 0 <= a < dim ==> #[trigger] extent_ok(data, points@, a, lower[a] as int, upper[a] as int)
        },
        Node::Stem { split_dim, point, left, right } => {
            &&& left < i
            &&& right < i
            &&& split_dim < dim
            &&& point < data.len()
            &&& forall|k: int| 0 <= k < members(nodes, left as int).len()
                ==> #[trigger] coord(data, members(nodes, left as int)[k], split_dim as int) <= coord(data, point, split_dim as int)
            &&& forall|k: int| 0 <= k < members(nodes, right as int).len()
                ==> #[trigger] coord(data, members(nodes, right as int)[k], split_dim as int) >= coord(data, point, split_dim as int)
        },
    }
}

/// Every node of the arena is well formed.
pub open spec fn arena_ok(nodes: Seq<Node>, data: Seq<Vec<i32>>, dim: nat, leafsize: nat) -> bool {
    forall|i: int| 0 <= i < nodes.len() ==> #[trigger] node_ok(nodes, data, dim, leafsize, i)
}

/// The indices `0..n`, in order.
pub open spec fn index_range(n: nat) -> Seq<usize> {
    Seq::new(n, |j: int| j as usize)
}

/// The number of nodes a subtree over `n` points has: one leaf when `n` is at most
/// `leafsize`, otherwise a stem over `n / 2` points on the left and `n - n / 2 - 1` on
/// the right.
pub open spec fn node_total(n: nat, leafsize: nat) -> nat
    decreases n,
{
    if n <= leafsize {
        1
    } else {
        1 + node_total(n / 2, leafsize) + node_total((n - n / 2 - 1) as nat, leafsize)
    }
}

/// The axis after `axis`, cycling through the `dim` axes.
pub open spec fn next_axis(axis: nat, dim: nat) -> nat {
    ((axis + 1) as int % (dim as int)) as nat
}

/// The subtree at `i` has exactly the shape that building it over `n` points gives, its
/// root splitting on `axis`: a leaf exactly when `n` is at most `leafsize`; otherwise a
/// stem on `axis` whose left subtree holds `n / 2` points and whose right subtree holds
/// the rest but the median, both splitting on the next axis, the right subtree's root
/// just before the stem and the left one's just before the right subtree's nodes.
pub open spec fn shaped(nodes: Seq<Node>, i: int, n: nat, leafsize: nat, axis: nat, dim: nat) -> bool
    decreases n,
{
    &&& 0 <= i < nodes.len()
    &&& members(nodes, i).len() == n
    &&& if n <= leafsize {
        nodes[i] is Leaf
    } else {
        let nl = n / 2;
        let nr = (n - n / 2 - 1) as nat;
        &&& nodes[i] is Stem
        &&& nodes[i]->Stem_split_dim == axis
        &&& nodes[i]->Stem_right == i - 1
        &&& nodes[i]->Stem_left == i - 1 - node_total(nr, leafsize)
        &&& shaped(nodes, nodes[i]->Stem_left as int, nl, leafsize, next_axis(axis, dim), dim)
        &&& shaped(nodes, nodes[i]->Stem_right as int, nr, leafsize, next_axis(axis, dim), dim)
    }
}

/// The indices that one node holds: a leaf's points, or a stem's own point.
pub open spec fn node_refs(node: Node) -> Seq<usize> {
    match node {
        Node::Leaf { points, .. } => points@,
        Node::Stem { point, .. } => seq![point],
    }
}

/// The indices held by the nodes at positions `lo..hi`, in order.
pub open spec fn arena_refs(nodes: Seq<Node>, lo: int, hi: int) -> Seq<usize>
    decreases hi - lo,
{
    if hi <= lo {
        Seq::empty()
    } else {
        arena_refs(nodes, lo, hi - 1) + node_refs(nodes[hi - 1])
    }
}

/// The indices held by a range of positions depend on those positions alone.
pub proof fn lemma_refs_stable(small: Seq<Node>, big: Seq<Node>, lo: int, hi: int)
    requires
        0 <= lo,
        hi <= small.len() <= big.len(),
        forall|k: int| 0 <= k < small.len() ==> big[k] == small[k],
    ensures
        arena_refs(big, lo, hi) == arena_refs(small, lo, hi),
    decreases hi - lo,
{
    if hi > lo {
        lemma_refs_stable(small, big, lo, hi - 1);
    }
}

/// The indices of a range are those of its two parts, one after the other.
pub proof fn lemma_refs_split(nodes: Seq<Node>, lo: int, mid: int, hi: int)
    requires
        lo <= mid <= hi,
    ensures
        arena_refs(nodes, lo, hi) == arena_refs(nodes, lo, mid) + arena_refs(nodes, mid, hi),
    decreases hi - mid,
{
    if hi == mid {
        assert(arena_refs(nodes, lo, mid) + arena_refs(nodes, mid, hi) =~= arena_refs(nodes, lo, mid));
    } else {
        lemma_refs_split(nodes, lo, mid, hi - 1);
        assert(arena_refs(nodes, lo, hi) =~= arena_refs(nodes, lo, mid) + arena_refs(nodes, mid, hi));
    }
}

/// Extending an arena keeps the shape of its existing subtrees.
pub proof fn lemma_shaped_stable(small: Seq<Node>, big: Seq<Node>, i: int, n: nat, leafsize: nat, axis: nat, dim: nat)
    requires
        small.len() <= big.len(),
        forall|k: int| 0 <= k < small.len() ==> big[k] == small[k],
        shaped(small, i, n, leafsize, axis, dim),
    ensures
        shaped(big, i, n, leafsize, axis, dim),
    decreases n,
{
    lemma_members_stable(small, big, i);
    if n > leafsize {
        assert(shaped(small, small[i]->Stem_left as int, n / 2, leafsize, next_axis(axis, dim), dim));
        let nl = n / 2;
        let nr = (n - n / 2 - 1) as nat;
        lemma_shaped_stable(small, big, small[i]->Stem_left as int, nl, leafsize, next_axis(axis, dim), dim);
        lemma_shaped_stable(small, big, small[i]->Stem_right as int, nr, leafsize, next_axis(axis, dim), dim);
    }
}

/// Extending an arena leaves the subtrees of its existing positions unchanged.
pub proof fn lemma_members_stable(small: Seq<Node>, big: Seq<Node>, i: int)
    requires
        small.len() <= big.len(),
        forall|k: int| 0 <= k < small.len() ==> big[k] == small[k],
    ensures
        0 <= i < small.len() ==> members(big, i) == members(small, i),
    decreases i,
{
    if 0 <= i < small.len() {
        match small[i] {
            Node::Leaf { .. } => {},
            Node::Stem { left, right, .. } => {
                if left < i && right < i {
                    lemma_members_stable(small, big, left as int);
                    lemma_members_stable(small, big, right as int);
                }
            },
        }
    }
}

/// Extending an arena keeps its existing nodes well formed.
pub proof fn lemma_arena_stable(small: Seq<Node>, big: Seq<Node>, data: Seq<Vec<i32>>, dim: nat, leafsize: nat)
    requires
        small.len() <= big.len(),
        forall|k: int| 0 <= k < small.len() ==> big[k] == small[k],
        arena_ok(small, data, dim, leafsize),
    ensures
        forall|i: int| 0 <= i < small.len() ==> #[trigger] node_ok(big, data, dim, leafsize, i),
{
    assert forall|i: int| 0 <= i < small.len() implies #[trigger] node_ok(big, data, dim, leafsize, i) by {
        assert(node_ok(small, data, dim, leafsize, i));
        match small[i] {
            Node::Leaf { .. } => {},
            Node::Stem { left, right, .. } => {
                lemma_members_stable(small, big, left as int);
                lemma_members_stable(small, big, right as int);
            },
        }
    }
}

/// Every index held by a subtree is a valid index into the data.
pub proof fn lemma_members_valid(nodes: Seq<Node>, data: Seq<Vec<i32>>, dim: nat, leafsize: nat, i: int)
    requires
        arena_ok(nodes, data, dim, leafsize),
        0 <= i < nodes.len(),
    ensures
        forall|k: int| 0 <= k < members(nodes, i).len() ==> #[trigger] members(nodes, i)[k] < data.len(),
    decreases i,
{
    assert(node_ok(nodes, data, dim, leafsize, i));
    match nodes[i] {
        Node::Leaf { .. } => {},
        Node::Stem { left, right, .. } => {
            lemma_members_valid(nodes, data, dim, leafsize, left as int);
            lemma_members_valid(nodes, data, dim, leafsize, right as int);
        },
    }
}

/// What holds of both subtrees of a stem and of its own point holds of all its members.
pub proof fn lemma_stem_members(nodes: Seq<Node>, i: int, pred: spec_fn(usize) -> bool)
    requires
        0 <= i < nodes.len(),
        nodes[i] matches Node::Stem { point, left, right, .. } && {
            &&& left < i
            &&& right < i
            &&& pred(point)
            &&& forall|k: int| 0 <= k < members(nodes, left as int).len() ==> #[trigger] pred(members(nodes, left as int)[k])
            &&& forall|k: int| 0 <= k < members(nodes, right as int).len() ==> #[trigger] pred(members(nodes, right as int)[k])
        },
    ensures
        forall|k: int| 0 <= k < members(nodes, i).len() ==> #[trigger] pred(members(nodes, i)[k]),
{
    if let Node::Stem { point, left, right, .. } = nodes[i] {
        let ml = members(nodes, left as int);
        let mr = members(nodes, right as int);
        assert(members(nodes, i) == ml + seq![point] + mr);
        assert forall|k: int| 0 <= k < members(nodes, i).len() implies #[trigger] pred(members(nodes, i)[k]) by {
            if k < ml.len() {
                assert(members(nodes, i)[k] == ml[k]);
            } else if k == ml.len() {
            } else {
                assert(members(nodes, i)[k] == mr[k - ml.len() - 1]);
            }
        }
    }
}

/// Pushing a node adds one to the leaf count if it is a leaf.
pub proof fn lemma_leaf_count_push(nodes: Seq<Node>, n: Node)
    ensures
        leaf_count(nodes.push(n)) == leaf_count(nodes) + if n is Leaf { 1nat } else { 0nat },
{
    assert(nodes.push(n).drop_last() =~= nodes);
}

} // verus!
