//! General properties of trees and queries, stated over the contracts and proved.
use vstd::prelude::*;
use vstd::seq_lib::group_to_multiset_ensures;
use crate::arena::{arena_refs, index_range, node_total, leaf_count, members, node_ok, Node};
use crate::kdtree::Tree;
use crate::metric::gap;
use crate::query::{before, first, holds, is_k_nearest, is_nearest};
use vstd::seq_lib::seq_to_set_is_finite;
use vstd::set_lib::lemma_len_subset;

verus! {

broadcast use group_to_multiset_ensures;

/// The shape of every well-formed tree: the arena has one node fewer than twice its
/// leaves, and as many nodes as median splits over the data's length give, whatever the
/// coordinates; every leaf holds between 1 and `leafsize` points; and the leaves together
/// with the stems' own points, over the whole arena, hold each index of the data exactly
/// once, and nothing else.
pub proof fn lemma_tree_shape(t: &Tree)
    requires
        t.wf(),
    ensures
        t.nodes_spec().len() + 1 == 2 * leaf_count(t.nodes_spec()),
        t.nodes_spec().len() == node_total(t.data_spec().len(), t.leafsize_spec()),
        forall|j: usize| j < t.data_spec().len() ==> #[trigger] arena_refs(t.nodes_spec(), 0, t.nodes_spec().len() as int).to_multiset().count(j) == 1,
        forall|j: usize| j >= t.data_spec().len() ==> #[trigger] arena_refs(t.nodes_spec(), 0, t.nodes_spec().len() as int).to_multiset().count(j) == 0,
        forall|i: int| 0 <= i < t.nodes_spec().len() ==> (#[trigger] t.nodes_spec()[i] matches Node::Leaf { points, .. }
            ==> 1 <= points.len() <= t.leafsize_spec()),
        forall|j: usize| j < t.data_spec().len() ==> #[trigger] members(t.nodes_spec(), t.root_spec()).to_multiset().count(j) == 1,
        forall|j: usize| j >= t.data_spec().len() ==> #[trigger] members(t.nodes_spec(), t.root_spec()).to_multiset().count(j) == 0,
{
    let nodes = t.nodes_spec();
    let n = t.data_spec().len();
    assert forall|i: int| 0 <= i < nodes.len() implies (#[trigger] nodes[i] matches Node::Leaf { points, .. }
        ==> 1 <= points.len() <= t.leafsize_spec()) by {
        assert(node_ok(nodes, t.data_spec(), t.dim_spec(), t.leafsize_spec(), i));
    }
    let all = index_range(n);
    assert(all.no_duplicates());
    all.lemma_multiset_has_no_duplicates();
    assert forall|j: usize| j < n implies #[trigger] members(nodes, t.root_spec()).to_multiset().count(j) == 1 by {
        assert(all[j as int] == j);
        assert(all.contains(j));
    }
    assert forall|j: usize| j >= n implies #[trigger] members(nodes, t.root_spec()).to_multiset().count(j) == 0 by {
        assert(!all.contains(j));
    }
    assert forall|j: usize| j < n implies #[trigger] arena_refs(nodes, 0, nodes.len() as int).to_multiset().count(j) == 1 by {
        assert(all[j as int] == j);
        assert(all.contains(j));
    }
    assert forall|j: usize| j >= n implies #[trigger] arena_refs(nodes, 0, nodes.len() as int).to_multiset().count(j) == 0 by {
        assert(!all.contains(j));
    }
}

/// On a periodic axis of width `w`, the gap between two coordinates in `[0, w]` is the
/// least distance from `x` to any of the images `y`, `y + w` and `y - w` of `y`.
pub proof fn lemma_minimum_image(x: int, y: int, w: int)
    requires
        0 <= x <= w,
        0 <= y <= w,
    ensures
        gap(x, y, w, true) <= gap(x, y, w, false),
        gap(x, y, w, true) <= gap(x, y + w, w, false),
        gap(x, y, w, true) <= gap(x, y - w, w, false),
        gap(x, y, w, true) == gap(x, y, w, false) || gap(x, y, w, true) == gap(x, y + w, w, false)
            || gap(x, y, w, true) == gap(x, y - w, w, false),
{
}

/// A nearest-point answer is unique: two answers to one query, such as the results of
/// asking it twice, are identical in distance and index.
pub proof fn lemma_nearest_unique(
    r1: (u128, usize),
    r2: (u128, usize),
    data: Seq<Vec<i32>>,
    m: spec_fn(Seq<i32>) -> int,
)
    requires
        is_nearest(r1, data, m),
        is_nearest(r2, data, m),
    ensures
        r1 == r2,
{
    assert(before(r1.0 as int, r1.1, m(data[r2.1 as int]@), r2.1));
    assert(before(r2.0 as int, r2.1, m(data[r1.1 as int]@), r1.1));
}

/// Where one k-nearest answer comes later at some place than another, the other one
/// would leave out a point that comes before one it keeps: so no answer comes later than
/// another at any place.
proof fn lemma_k_nearest_not_later(
    r1: Seq<(u128, usize)>,
    r2: Seq<(u128, usize)>,
    data: Seq<Vec<i32>>,
    k: nat,
    m: spec_fn(Seq<i32>) -> int,
    e: int,
)
    requires
        is_k_nearest(r1, data, k, m),
        is_k_nearest(r2, data, k, m),
        0 <= e < r1.len(),
    ensures
        first(r2[e], r1[e]),
{
    broadcast use seq_to_set_is_finite;
    if !first(r2[e], r1[e]) {
        let a1 = r1.subrange(0, e + 1).map_values(|x: (u128, usize)| x.1);
        let a2 = r2.subrange(0, e).map_values(|x: (u128, usize)| x.1);
        assert(a1.no_duplicates()) by {
            assert forall|a: int, b: int| 0 <= a < a1.len() && 0 <= b < a1.len() && a != b implies a1[a] != a1[b] by {
                if a < b {
                    assert(r1[a].1 != r1[b].1);
                } else {
                    assert(r1[b].1 != r1[a].1);
                }
            }
        }
        a1.unique_seq_to_set();
        a2.lemma_cardinality_of_set();
        assert(a1.to_set().subset_of(a2.to_set())) by {
            assert forall|x: usize| a1.to_set().contains(x) implies a2.to_set().contains(x) by {
                assert(a1.contains(x));
                let a = choose|a: int| 0 <= a < a1.len() && a1[a] == x;
                assert(r1[a].1 == x);
                if a < e {
                    assert(first(r1[a], r1[e]));
                }
                if !holds(r2, x) {
                    assert(before(r2[e].0 as int, r2[e].1, m(data[x as int]@), x));
                }
                let f = choose|f: int| 0 <= f < r2.len() && (#[trigger] r2[f]).1 == x;
                if f > e {
                    assert(first(r2[e], r2[f]));
                }
                assert(a2[f] == x);
                assert(a2.contains(x));
            }
        }
        lemma_len_subset(a1.to_set(), a2.to_set());
    }
}

/// A k-nearest answer is unique: two answers to one query, such as the results of
/// asking it twice, are the same list of distances and indices in the same order.
pub proof fn lemma_k_nearest_unique(
    r1: Seq<(u128, usize)>,
    r2: Seq<(u128, usize)>,
    data: Seq<Vec<i32>>,
    k: nat,
    m: spec_fn(Seq<i32>) -> int,
)
    requires
        is_k_nearest(r1, data, k, m),
        is_k_nearest(r2, data, k, m),
    ensures
        r1 == r2,
{
    assert forall|e: int| 0 <= e < r1.len() implies #[trigger] r1[e] == r2[e] by {
        lemma_k_nearest_not_later(r1, r2, data, k, m, e);
        lemma_k_nearest_not_later(r2, r1, data, k, m, e);
    }
    assert(r1 =~= r2);
}

/// A split only happens above `leafsize` points, and each side of it keeps at least
/// `leafsize / 2` of them: so in a tree's shape every subtree below a stem, and every
/// leaf there, holds at least `leafsize / 2` points.
pub proof fn lemma_split_sides_at_least_half(n: nat, leafsize: nat)
    requires
        n > leafsize,
    ensures
        n / 2 >= leafsize / 2,
        (n - n / 2 - 1) as nat >= leafsize / 2,
{
}

} // verus!
