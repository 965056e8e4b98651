//! The tree: construction by recursive median splits into a node arena.
use vstd::prelude::*;
use vstd::seq_lib::group_to_multiset_ensures;
use vstd::seq_lib::lemma_multiset_commutative;
use crate::arena::{arena_ok, coord, extent_ok, leaf_count, lemma_arena_stable, lemma_leaf_count_push, lemma_members_stable, members, node_ok, index_range, Node, arena_refs, lemma_refs_split, lemma_refs_stable, lemma_shaped_stable, next_axis, node_total, shaped};
use vstd::arithmetic::div_mod::lemma_small_mod;

verus! {

broadcast use group_to_multiset_ensures;

/// Why a tree could not be built.
#[derive(Debug, Clone, Copy, PartialEq, Eq, Structural)]
pub enum BuildError {
    /// There were no points.
    EmptyInput,
    /// The leaf size was below 4.
    InvalidLeafSize,
}

/// A k-d tree over a set of points of one dimension, immutable once built.
pub struct Tree {
    data: Vec<Vec<i32>>,
    dim: usize,
    leafsize: usize,
    nodes: Vec<Node>,
}

/// Every point has `dim` coordinates.
pub open spec fn uniform(data: Seq<Vec<i32>>, dim: nat) -> bool {
    forall|j: int| 0 <= j < data.len() ==> (#[trigger] data[j])@.len() == dim
}

/// Relies on `slice::select_nth_unstable_by_key`: it reorders the slice so that the
/// element at `n` is where a sort by the key would put it, no element before it having a
/// greater key and none after it a smaller one. It panics only when `n` is out of range.
#[verifier::external_body]
fn select_by_axis(subset: &mut Vec<usize>, n: usize, data: &Vec<Vec<i32>>, axis: usize)
    requires
        n < old(subset).len(),
        forall|k: int| 0 <= k < old(subset).len() ==> #[trigger] old(subset)[k] < data.len()
            && axis < data[old(subset)[k] as int].len(),
    ensures
        final(subset).len() == old(subset).len(),
        final(subset)@.to_multiset() == old(subset)@.to_multiset(),
        forall|k: int| 0 <= k < n ==> #[trigger] coord(data@, final(subset)[k], axis as int)
            <= coord(data@, final(subset)[n as int], axis as int),
        forall|k: int| n < k < final(subset).len() ==> #[trigger] coord(data@, final(subset)[k], axis as int)
            >= coord(data@, final(subset)[n as int], axis as int),
{
    subset.select_nth_unstable_by_key(n, |i| data[*i][axis]);
}

/// The per-axis minimum and maximum over a non-empty set of points.
fn extents(data: &Vec<Vec<i32>>, dim: usize, points: &Vec<usize>) -> (r: (Vec<i32>, Vec<i32>))
    requires
        uniform(data@, dim as nat),
        1 <= points.len(),
        forall|k: int| 0 <= k < points.len() ==> #[trigger] points[k] < data.len(),
    ensures
        r.0.len() == dim,
        r.1.len() == dim,
        forall|a: int| 0 <= a < dim ==> #[trigger] extent_ok(data@, points@, a, r.0[a] as int, r.1[a] as int),
{
    let mut lower: Vec<i32> = Vec::new();
    let mut upper: Vec<i32> = Vec::new();
    let mut a: usize = 0;
    while a < dim
        invariant
            uniform(data@, dim as nat),
            1 <= points.len(),
            forall|k: int| 0 <= k < points.len() ==> #[trigger] points[k] < data.len(),
            a <= dim,
            lower.len() == a,
            upper.len() == a,
            forall|b: int| 0 <= b < a ==> #[trigger] extent_ok(data@, points@, b, lower[b] as int, upper[b] as int),
        decreases dim - a,
    {
        assert(data@[points[0] as int]@.len() == dim);
        let mut lo: i32 = data[points[0]][a];
        let mut hi: i32 = lo;
        let ghost mut lo_at: int = 0;
        let ghost mut hi_at: int = 0;
        let mut p: usize = 1;
        while p < points.len()
            invariant
                uniform(data@, dim as nat),
                forall|k: int| 0 <= k < points.len() ==> #[trigger] points[k] < data.len(),
                a < dim,
                1 <= p <= points.len(),
                0 <= lo_at < p,
                0 <= hi_at < p,
                lo == coord(data@, points[lo_at], a as int),
                hi == coord(data@, points[hi_at], a as int),
                forall|k: int| 0 <= k < p ==> lo <= #[trigger] coord(data@, points[k], a as int) <= hi,
            decreases points.len() - p,
        {
            assert(data@[points[p as int] as int]@.len() == dim);
            let c = data[points[p]][a];
            if c < lo {
                lo = c;
                proof { lo_at = p as int; }
            }
            if c > hi {
                hi = c;
                proof { hi_at = p as int; }
            }
            p = p + 1;
        }
        assert(extent_ok(data@, points@, a as int, lo as int, hi as int));
        lower.push(lo);
        upper.push(hi);
        a = a + 1;
    }
    (lower, upper)
}

/// Builds the subtree over `subset`, appending its nodes to the arena, and returns the
/// position of its root, the last node appended. A subset of at most `leafsize` points
/// becomes one leaf; a larger one is split at its median on `split_dim`, and its halves
/// are built on the next axis.
fn build_nodes(
    data: &Vec<Vec<i32>>,
    dim: usize,
    mut subset: Vec<usize>,
    split_dim: usize,
    leafsize: usize,
    nodes: &mut Vec<Node>,
) -> (r: usize)
    requires
        1 <= dim,
        split_dim < dim,
        4 <= leafsize,
        uniform(data@, dim as nat),
        1 <= subset.len(),
        forall|k: int| 0 <= k < subset.len() ==> #[trigger] subset[k] < data.len(),
        arena_ok(old(nodes)@, data@, dim as nat, leafsize as nat),
    ensures
        old(nodes).len() < final(nodes).len(),
        forall|k: int| 0 <= k < old(nodes).len() ==> final(nodes)@[k] == old(nodes)@[k],
        r == final(nodes).len() - 1,
        arena_ok(final(nodes)@, data@, dim as nat, leafsize as nat),
        members(final(nodes)@, r as int).to_multiset() == subset@.to_multiset(),
        final(nodes).len() - old(nodes).len() + 1 == 2 * (leaf_count(final(nodes)@) - leaf_count(old(nodes)@)),
        final(nodes).len() - old(nodes).len() == node_total(subset.len() as nat, leafsize as nat),
        shaped(final(nodes)@, r as int, subset.len() as nat, leafsize as nat, split_dim as nat, dim as nat),
        arena_refs(final(nodes)@, old(nodes).len() as int, final(nodes).len() as int).to_multiset()
            == subset@.to_multiset(),
        subset.len() <= leafsize ==> (final(nodes)@[r as int] matches Node::Leaf { points, .. } && points@ == subset@),
    decreases subset.len(),
{
    let ghost n0 = nodes@;
    if subset.len() <= leafsize {
        let (lower, upper) = extents(data, dim, &subset);
        let idx = nodes.len();
        let leaf = Node::Leaf { points: subset, lower, upper };
        nodes.push(leaf);
        proof {
            lemma_arena_stable(n0, nodes@, data@, dim as nat, leafsize as nat);
            lemma_leaf_count_push(n0, leaf);
            assert(node_ok(nodes@, data@, dim as nat, leafsize as nat, idx as int));
            assert(arena_ok(nodes@, data@, dim as nat, leafsize as nat));
            assert(arena_refs(nodes@, idx as int, idx as int) =~= Seq::<usize>::empty());
            assert(arena_refs(nodes@, idx as int, idx as int + 1) =~= subset@);
            assert(shaped(nodes@, idx as int, subset.len() as nat, leafsize as nat, split_dim as nat, dim as nat));
        }
        idx
    } else {
        let mid = subset.len() / 2;
        let ghost orig = subset@;
        select_by_axis(&mut subset, mid, data, split_dim);
        let ghost sel = subset@;
        assert forall|k: int| 0 <= k < sel.len() implies #[trigger] sel[k] < data.len() by {
            assert(sel.contains(sel[k]));
            assert(orig.to_multiset().count(sel[k]) > 0);
            assert(orig.contains(sel[k]));
        }
        let right = subset.split_off(mid + 1);
        let median = subset.pop().unwrap();
        let left = subset;
        assert(left@ =~= sel.subrange(0, mid as int));
        assert(sel =~= left@ + seq![median] + right@);
        let next = if split_dim + 1 == dim { 0 } else { split_dim + 1 };
        proof {
            if split_dim + 1 == dim {
                assert((dim as int) % (dim as int) == 0) by (nonlinear_arith)
                    requires
                        dim > 0,
                ;
            } else {
                lemma_small_mod((split_dim + 1) as nat, dim as nat);
            }
            assert(next as nat == next_axis(split_dim as nat, dim as nat));
        }
        let ghost n0_len = nodes.len();
        let l = build_nodes(data, dim, left, next, leafsize, nodes);
        let ghost n1 = nodes@;
        let r = build_nodes(data, dim, right, next, leafsize, nodes);
        let ghost n2 = nodes@;
        let idx = nodes.len();
        let stem = Node::Stem { split_dim, point: median, left: l, right: r };
        nodes.push(stem);
        proof {
            let fin = nodes@;
            lemma_members_stable(n1, n2, l as int);
            lemma_members_stable(n2, fin, l as int);
            lemma_members_stable(n2, fin, r as int);
            let ml = members(fin, l as int);
            let mr = members(fin, r as int);
            assert(ml.to_multiset() == left@.to_multiset());
            assert(mr.to_multiset() == right@.to_multiset());
            assert forall|k: int| 0 <= k < ml.len() implies #[trigger] coord(data@, ml[k], split_dim as int)
                <= coord(data@, median, split_dim as int) by {
                assert(ml.contains(ml[k]));
                assert(left@.to_multiset().count(ml[k]) > 0);
                assert(left@.contains(ml[k]));
                let j = choose|j: int| 0 <= j < left@.len() && left@[j] == ml[k];
                assert(sel[j] == ml[k]);
            }
            assert forall|k: int| 0 <= k < mr.len() implies #[trigger] coord(data@, mr[k], split_dim as int)
                >= coord(data@, median, split_dim as int) by {
                assert(mr.contains(mr[k]));
                assert(right@.to_multiset().count(mr[k]) > 0);
                assert(right@.contains(mr[k]));
                let j = choose|j: int| 0 <= j < right@.len() && right@[j] == mr[k];
                assert(sel[mid + 1 + j] == mr[k]);
            }
            lemma_arena_stable(n2, fin, data@, dim as nat, leafsize as nat);
            assert(node_ok(fin, data@, dim as nat, leafsize as nat, idx as int));
            assert(arena_ok(fin, data@, dim as nat, leafsize as nat));
            assert(members(fin, idx as int) == ml + seq![median] + mr);
            lemma_multiset_commutative(ml + seq![median], mr);
            lemma_multiset_commutative(ml, seq![median]);
            lemma_multiset_commutative(left@ + seq![median], right@);
            lemma_multiset_commutative(left@, seq![median]);
            lemma_leaf_count_push(n2, stem);
            let nl = mid as nat;
            let nr = right@.len();
            lemma_shaped_stable(n1, n2, l as int, nl, leafsize as nat, next as nat, dim as nat);
            lemma_shaped_stable(n2, fin, l as int, nl, leafsize as nat, next as nat, dim as nat);
            lemma_shaped_stable(n2, fin, r as int, nr, leafsize as nat, next as nat, dim as nat);
            assert(ml.len() == nl);
            assert(mr.len() == nr);
            assert(shaped(fin, idx as int, sel.len() as nat, leafsize as nat, split_dim as nat, dim as nat));
            let o = n0.len() as int;
            lemma_refs_stable(n1, n2, o, n1.len() as int);
            lemma_refs_stable(n1, fin, o, n1.len() as int);
            lemma_refs_stable(n2, fin, n1.len() as int, n2.len() as int);
            lemma_refs_split(fin, o, n1.len() as int, n2.len() as int);
            let ra = arena_refs(fin, o, n1.len() as int);
            let rb = arena_refs(fin, n1.len() as int, n2.len() as int);
            assert(arena_refs(fin, o, fin.len() as int) == (ra + rb) + seq![median]);
            lemma_multiset_commutative(ra + rb, seq![median]);
            lemma_multiset_commutative(ra, rb);
        }
        idx
    }
}

impl Tree {
    /// The points the tree was built over, in their original order.
    pub closed spec fn data_spec(&self) -> Seq<Vec<i32>> {
        self.data@
    }

    /// The number of coordinates of each point.
    pub closed spec fn dim_spec(&self) -> nat {
        self.dim as nat
    }

    /// The greatest number of points in a leaf.
    pub closed spec fn leafsize_spec(&self) -> nat {
        self.leafsize as nat
    }

    /// The node arena; its last node is the root.
    pub closed spec fn nodes_spec(&self) -> Seq<Node> {
        self.nodes@
    }

    /// Position of the root in the arena.
    pub open spec fn root_spec(&self) -> int {
        self.nodes_spec().len() - 1
    }

    /// The tree is well formed: every node is; the root's subtree, and the arena as a
    /// whole, hold each index of the data exactly once; the arena has one node fewer than
    /// twice its leaves; and the tree has the exact shape of median splits at the middle
    /// index over all the points, the root splitting on axis `1 % dim`.
    pub open spec fn wf(&self) -> bool {
        let nodes = self.nodes_spec();
        let data = self.data_spec();
        &&& 1 <= data.len() <= usize::MAX
        &&& 1 <= self.dim_spec()
        &&& 4 <= self.leafsize_spec()
        &&& uniform(data, self.dim_spec())
        &&& 1 <= nodes.len()
        &&& arena_ok(nodes, data, self.dim_spec(), self.leafsize_spec())
        &&& members(nodes, self.root_spec()).to_multiset() == index_range(data.len()).to_multiset()
        &&& arena_refs(nodes, 0, nodes.len() as int).to_multiset() == index_range(data.len()).to_multiset()
        &&& nodes.len() + 1 == 2 * leaf_count(nodes)
        &&& nodes.len() == node_total(data.len(), self.leafsize_spec())
        &&& shaped(nodes, self.root_spec(), data.len(), self.leafsize_spec(), 1nat % self.dim_spec(), self.dim_spec())
    }

    /// Every index of the data is held by the root's subtree.
    pub proof fn lemma_root_holds_all(&self)
        requires
            self.wf(),
        ensures
            forall|j: usize| j < self.data_spec().len() ==> #[trigger] members(self.nodes_spec(), self.root_spec()).contains(j),
    {
        let all = index_range(self.data_spec().len());
        assert forall|j: usize| j < self.data_spec().len() implies #[trigger] members(self.nodes_spec(), self.root_spec()).contains(j) by {
            assert(all[j as int] == j);
            assert(all.contains(j));
            assert(all.to_multiset().count(j) > 0);
        }
    }

    /// Builds a tree over `data` with leaves of at most `leafsize` points.
    /// Fails with `EmptyInput` when there are no points, and otherwise with
    /// `InvalidLeafSize` when `leafsize` is below 4.
    pub fn new(data: Vec<Vec<i32>>, leafsize: usize) -> (r: Result<Tree, BuildError>)
        requires
            forall|j: int| 0 <= j < data.len() ==> #[trigger] data[j].len() == data[0].len(),
            data.len() > 0 ==> data[0].len() >= 1,
        ensures
            r == Err::<Tree, BuildError>(BuildError::EmptyInput) <==> data.len() == 0,
            r == Err::<Tree, BuildError>(BuildError::InvalidLeafSize) <==> data.len() > 0 && leafsize < 4,
            r is Ok <==> data.len() > 0 && leafsize >= 4,
            r is Ok ==> {
                let t = r->Ok_0;
                &&& t.wf()
                &&& t.data_spec() == data@
                &&& t.dim_spec() == data[0].len()
                &&& t.leafsize_spec() == leafsize
                &&& data.len() <= leafsize ==> t.nodes_spec().len() == 1
            },
    {
        let n = data.len();
        if n == 0 {
            return Err(BuildError::EmptyInput);
        }
        if leafsize < 4 {
            return Err(BuildError::InvalidLeafSize);
        }
        let dim = data[0].len();
        let mut subset: Vec<usize> = Vec::new();
        let mut j: usize = 0;
        while j < n
            invariant
                n == data.len(),
                j <= n,
                subset@ == index_range(j as nat),
            decreases n - j,
        {
            subset.push(j);
            j = j + 1;
            assert(subset@ =~= index_range(j as nat));
        }
        let mut nodes: Vec<Node> = Vec::new();
        let split_dim = if dim == 1 { 0 } else { 1 };
        proof {
            if dim == 1 {
                assert(1int % 1int == 0);
            } else {
                lemma_small_mod(1, dim as nat);
            }
        }
        assert(arena_ok(nodes@, data@, dim as nat, leafsize as nat));
        assert(uniform(data@, dim as nat)) by {
            assert forall|i: int| 0 <= i < data.len() implies (#[trigger] data@[i])@.len() == dim by {
                assert(data[i].len() == data[0].len());
            }
        }
        let ghost n0 = nodes@;
        assert(leaf_count(n0) == 0);
        let root = build_nodes(&data, dim, subset, split_dim, leafsize, &mut nodes);
        assert(split_dim as nat == 1nat % (dim as nat));
        Ok(Tree { data, dim, leafsize, nodes })
    }

    /// The number of nodes in the arena.
    pub fn size(&self) -> (r: usize)
        ensures
            r == self.nodes_spec().len(),
    {
        self.nodes.len()
    }

    /// The number of points.
    pub fn len(&self) -> (r: usize)
        ensures
            r == self.data_spec().len(),
    {
        self.data.len()
    }

    /// The number of coordinates of each point.
    pub fn dim(&self) -> (r: usize)
        ensures
            r == self.dim_spec(),
    {
        self.dim
    }

    /// The greatest number of points in a leaf.
    pub fn leafsize(&self) -> (r: usize)
        ensures
            r == self.leafsize_spec(),
    {
        self.leafsize
    }

    /// The point with index `j`.
    pub fn point(&self, j: usize) -> (r: &Vec<i32>)
        requires
            j < self.data_spec().len(),
        ensures
            *r == self.data_spec()[j as int],
    {
        &self.data[j]
    }

    /// The node at position `i` of the arena.
    pub fn node(&self, i: usize) -> (r: &Node)
        requires
            i < self.nodes_spec().len(),
        ensures
            *r == self.nodes_spec()[i as int],
    {
        &self.nodes[i]
    }
}

} // verus!
