//! Queries: nearest and k-nearest neighbours, plain and periodic.
use vstd::prelude::*;
use crate::arena::{coord, lemma_members_valid, lemma_stem_members, members, node_ok, Node};
use crate::kdtree::{uniform, Tree};
use crate::metric::{dist, distance, far_bound, fits, in_box, lemma_far_side, periodic_sq_dist, sq, sq_dist};
use vstd::set_lib::{lemma_int_range, lemma_len_subset, set_int_range};

verus! {

/// Every point lies in the box.
pub open spec fn all_in_box(data: Seq<Vec<i32>>, w: Seq<i32>) -> bool {
    forall|j: int| 0 <= j < data.len() ==> in_box((#[trigger] data[j])@, w)
}

/// `far_bound`, computed.
fn far_bound_of(qs: i32, ms: i32, w: i32, periodic: bool) -> (r: u64)
    requires
        periodic ==> 0 <= qs <= w,
    ensures
        r == far_bound(qs as int, ms as int, w as int, periodic),
        r <= 0xffff_ffff,
{
    let p: i64 = if qs < ms { ms as i64 - qs as i64 } else { qs as i64 - ms as i64 };
    let b: i64 = if !periodic {
        p
    } else if qs < ms {
        if (qs as i64) < p { qs as i64 } else { p }
    } else {
        if (w as i64) - (qs as i64) < p { w as i64 - qs as i64 } else { p }
    };
    b as u64
}

/// Candidates sorted by distance, at most `k` of them, with distinct indices.
pub open spec fn ranked(c: Seq<(u128, usize)>, k: nat) -> bool {
    &&& c.len() <= k
    &&& forall|a: int, b: int| 0 <= a < b < c.len() ==> first(#[trigger] c[a], #[trigger] c[b])
    &&& forall|a: int, b: int| 0 <= a < b < c.len() ==> (#[trigger] c[a]).1 != (#[trigger] c[b]).1
}

/// Candidate `a` comes no later than candidate `b`, by distance and then by index.
pub open spec fn first(a: (u128, usize), b: (u128, usize)) -> bool {
    before(a.0 as int, a.1, b.0 as int, b.1)
}

/// Index `j` is among the candidates.
pub open spec fn holds(c: Seq<(u128, usize)>, j: usize) -> bool {
    exists|e: int| 0 <= e < c.len() && (#[trigger] c[e]).1 == j
}

/// Index `j`, at squared distance `dj`, is accounted for by the candidates: it is one
/// of them, or they are `k` and all come before it.
pub open spec fn accounted(c: Seq<(u128, usize)>, k: nat, j: usize, dj: int) -> bool {
    holds(c, j) || (c.len() == k && k >= 1 && before(c[k - 1].0 as int, c[k - 1].1, dj, j))
}

/// Offers `(d, j)` to a ranked list of at most `k` candidates: it goes in at its place
/// by distance and index unless `j` is already there or `k` candidates all come before
/// it; when the list overflows, its last candidate leaves.
fn offer(cand: &mut Vec<(u128, usize)>, k: usize, d: u128, j: usize)
    requires
        1 <= k,
        ranked(old(cand)@, k as nat),
    ensures
        ranked(final(cand)@, k as nat),
        forall|e: int| 0 <= e < final(cand).len() ==> #[trigger] final(cand)[e] == (d, j)
            || old(cand)@.contains(final(cand)[e]),
        accounted(final(cand)@, k as nat, j, d as int),
        forall|e: int| 0 <= e < old(cand).len() ==> final(cand)@.contains(#[trigger] old(cand)[e])
            || (final(cand).len() == k && first(final(cand)[k - 1], old(cand)[e])),
        old(cand).len() <= final(cand).len(),
        old(cand).len() == k ==> first(final(cand)[k - 1], old(cand)[k - 1]),
{
    let n = cand.len();
    if n == k && !(d < cand[k - 1].0 || (d == cand[k - 1].0 && j < cand[k - 1].1)) {
        return;
    }
    let mut e: usize = 0;
    while e < n
        invariant
            n == cand.len(),
            cand@ == old(cand)@,
            1 <= k,
            ranked(old(cand)@, k as nat),
            e <= n,
            forall|f: int| 0 <= f < e ==> (#[trigger] cand[f]).1 != j,
        decreases n - e,
    {
        if cand[e].1 == j {
            assert(holds(cand@, j));
            return;
        }
        e = e + 1;
    }
    let mut pos: usize = 0;
    while pos < n && (cand[pos].0 < d || (cand[pos].0 == d && cand[pos].1 < j))
        invariant
            n == cand.len(),
            cand@ == old(cand)@,
            1 <= k,
            ranked(old(cand)@, k as nat),
            pos <= n,
            forall|f: int| 0 <= f < n ==> (#[trigger] cand[f]).1 != j,
            forall|f: int| 0 <= f < pos ==> first(#[trigger] cand[f], (d, j)),
        decreases n - pos,
    {
        pos = pos + 1;
    }
    let ghost o = cand@;
    cand.insert(pos, (d, j));
    let ghost ins = cand@;
    assert(forall|f: int| pos <= f < n ==> first((d, j), #[trigger] o[f]) && o[f].1 != j) by {
        assert forall|f: int| pos <= f < n implies first((d, j), #[trigger] o[f]) && o[f].1 != j by {
            if f > pos {
                assert(first(o[pos as int], o[f]));
            }
        }
    }
    assert(forall|f: int| 0 <= f < ins.len() ==> #[trigger] ins[f] == if f < pos { o[f] } else if f == pos { (d, j) } else { o[f - 1] });
    if cand.len() > k {
        cand.pop();
        assert(cand@ =~= ins.subrange(0, k as int));
        assert(pos < k);
    }
    proof {
        let fin = cand@;
        assert(fin[pos as int] == (d, j));
        assert forall|e2: int| 0 <= e2 < fin.len() implies #[trigger] fin[e2] == (d, j) || o.contains(fin[e2]) by {
            if e2 < pos {
                assert(fin[e2] == o[e2]);
            } else if e2 > pos {
                assert(fin[e2] == o[e2 - 1]);
            }
        }
        assert forall|e2: int| 0 <= e2 < o.len() implies fin.contains(#[trigger] o[e2])
            || (fin.len() == k && first(fin[k - 1], o[e2])) by {
            if e2 < pos {
                assert(fin[e2] == o[e2]);
            } else if e2 + 1 < fin.len() {
                assert(fin[e2 + 1] == o[e2]);
            } else {
                assert(ins[e2 + 1] == o[e2]);
                assert(first(ins[k - 1], ins[k as int]));
            }
        }
        if n == k {
            assert(first(ins[k - 1], ins[k as int]));
        }
    }
}

/// `r` is the nearest point of `data` under the metric `m`: an index with its distance,
/// no point nearer, and none as near with a smaller index.
pub open spec fn is_nearest(r: (u128, usize), data: Seq<Vec<i32>>, m: spec_fn(Seq<i32>) -> int) -> bool {
    &&& r.1 < data.len()
    &&& r.0 == m(data[r.1 as int]@)
    &&& forall|j: usize| j < data.len() ==> before(r.0 as int, r.1, #[trigger] m(data[j as int]@), j)
}

/// Distance `d1` with index `j1` comes no later than `d2` with `j2`: it is nearer, or as
/// near with an index no greater. Ties in distance go to the smaller index.
pub open spec fn before(d1: int, j1: usize, d2: int, j2: usize) -> bool {
    d1 < d2 || (d1 == d2 && j1 <= j2)
}

/// `r` is an answer for the `k` nearest points of `data` under the metric `m`:
/// `min(k, data.len())` entries in order of distance and then of index, each a distinct
/// index with its distance, and no point left out that comes before one kept.
pub open spec fn is_k_nearest(r: Seq<(u128, usize)>, data: Seq<Vec<i32>>, k: nat, m: spec_fn(Seq<i32>) -> int) -> bool {
    &&& r.len() == if k < data.len() { k } else { data.len() }
    &&& ranked(r, k)
    &&& forall|e: int| 0 <= e < r.len() ==> (#[trigger] r[e]).1 < data.len() && r[e].0 == m(data[r[e].1 as int]@)
    &&& forall|j: usize, e: int| j < data.len() && !holds(r, j) && 0 <= e < r.len()
        ==> before((#[trigger] r[e]).0 as int, r[e].1, #[trigger] m(data[j as int]@), j)
}

/// A ranked list whose indices lie below `n` has at most `n` entries, and exactly `n`
/// when it holds every index below `n`.
proof fn lemma_ranked_len(c: Seq<(u128, usize)>, k: nat, n: nat)
    requires
        n <= usize::MAX,
        ranked(c, k),
        forall|e: int| 0 <= e < c.len() ==> (#[trigger] c[e]).1 < n,
    ensures
        c.len() <= n,
        (forall|j: usize| j < n ==> #[trigger] holds(c, j)) ==> c.len() == n,
{
    let idx = c.map_values(|x: (u128, usize)| x.1 as int);
    assert(idx.no_duplicates()) by {
        assert forall|a: int, b: int| 0 <= a < idx.len() && 0 <= b < idx.len() && a != b implies idx[a] != idx[b] by {
            if a < b {
                assert(c[a].1 != c[b].1);
            } else {
                assert(c[b].1 != c[a].1);
            }
        }
    }
    idx.unique_seq_to_set();
    let range = set_int_range(0, n as int);
    lemma_int_range(0, n as int);
    assert(idx.to_set().subset_of(range)) by {
        assert forall|x: int| idx.to_set().contains(x) implies range.contains(x) by {
            assert(idx.contains(x));
            let e = choose|e: int| 0 <= e < idx.len() && idx[e] == x;
            assert(c[e].1 < n);
        }
    }
    lemma_len_subset(idx.to_set(), range);
    if forall|j: usize| j < n ==> #[trigger] holds(c, j) {
        assert(range.subset_of(idx.to_set())) by {
            assert forall|x: int| range.contains(x) implies idx.to_set().contains(x) by {
                assert(holds(c, x as usize));
                let e = choose|e: int| 0 <= e < c.len() && (#[trigger] c[e]).1 == x as usize;
                assert(idx[e] == x);
                assert(idx.contains(x));
            }
        }
        lemma_len_subset(range, idx.to_set());
    }
}

impl Tree {
    /// A query point `q` can be asked of the tree, on the box `w` when `periodic`.
    pub open spec fn query_ok(&self, q: Seq<i32>, w: Seq<i32>, periodic: bool) -> bool {
        &&& self.wf()
        &&& fits(q, w, periodic, self.dim_spec() as int)
        &&& periodic ==> all_in_box(self.data_spec(), w)
    }

    /// Squared distance from `q` to point `j` under the chosen metric.
    pub open spec fn qdist(&self, q: Seq<i32>, w: Seq<i32>, periodic: bool, j: usize) -> int {
        dist(q, self.data_spec()[j as int]@, w, periodic)
    }

    fn metric_to(&self, q: &Vec<i32>, w: &Vec<i32>, periodic: bool, j: usize) -> (r: u128)
        requires
            self.query_ok(q@, w@, periodic),
            j < self.data_spec().len(),
        ensures
            r == self.qdist(q@, w@, periodic, j),
    {
        let p = self.point(j);
        assert(p@.len() == self.dim_spec());
        distance(q, p, w, periodic)
    }

    /// On a stem, the far subtree (the side of the split that the query is not on) holds
    /// nothing nearer than the square of `far_bound` on the split axis.
    proof fn lemma_far_subtree(&self, q: Seq<i32>, w: Seq<i32>, periodic: bool, i: int, far: usize)
        requires
            self.query_ok(q, w, periodic),
            0 <= i < self.nodes_spec().len(),
            self.nodes_spec()[i] matches Node::Stem { split_dim, point, left, right } && far == if q[split_dim as int]
                < self.data_spec()[point as int]@[split_dim as int] { right } else { left },
        ensures
            self.nodes_spec()[i] matches Node::Stem { split_dim, point, .. } && forall|k: int|
                0 <= k < members(self.nodes_spec(), far as int).len() ==> #[trigger] self.qdist(
                    q, w, periodic, members(self.nodes_spec(), far as int)[k]) >= sq(far_bound(
                    q[split_dim as int] as int, self.data_spec()[point as int]@[split_dim as int] as int,
                    w[split_dim as int] as int, periodic)),
    {
        let nodes = self.nodes_spec();
        let data = self.data_spec();
        assert(node_ok(nodes, data, self.dim_spec(), self.leafsize_spec(), i));
        if let Node::Stem { split_dim, point, left, right } = nodes[i] {
            let s = split_dim as int;
            let ms = data[point as int]@[s] as int;
            let near_is_left = q[s] < ms;
            let mf = members(nodes, far as int);
            lemma_members_valid(nodes, data, self.dim_spec(), self.leafsize_spec(), far as int);
            assert forall|k: int| 0 <= k < mf.len() implies
                #[trigger] self.qdist(q, w, periodic, mf[k]) >= sq(far_bound(q[s] as int, ms, w[s] as int, periodic)) by {
                let x = data[mf[k] as int]@;
                assert(x.len() == self.dim_spec());
                if near_is_left {
                    assert(coord(data, members(nodes, right as int)[k], s) >= coord(data, point, s));
                } else {
                    assert(coord(data, members(nodes, left as int)[k], s) <= coord(data, point, s));
                }
                lemma_far_side(q, x, w, periodic, s, ms);
            }
        }
    }

    /// The nearest point of the subtree at `i`, or `best` if none is nearer.
    fn nearest_from(&self, q: &Vec<i32>, w: &Vec<i32>, periodic: bool, i: usize, best: (u128, usize)) -> (r: (u128, usize))
        requires
            self.query_ok(q@, w@, periodic),
            i < self.nodes_spec().len(),
            best.1 < self.data_spec().len(),
            best.0 == self.qdist(q@, w@, periodic, best.1),
        ensures
            r.1 < self.data_spec().len(),
            r.0 == self.qdist(q@, w@, periodic, r.1),
            before(r.0 as int, r.1, best.0 as int, best.1),
            forall|k: int| 0 <= k < members(self.nodes_spec(), i as int).len()
                ==> before(r.0 as int, r.1, #[trigger] self.qdist(q@, w@, periodic, members(self.nodes_spec(), i as int)[k]),
                members(self.nodes_spec(), i as int)[k]),
        decreases i,
    {
        let ghost nodes = self.nodes_spec();
        let ghost data = self.data_spec();
        proof {
            assert(node_ok(nodes, data, self.dim_spec(), self.leafsize_spec(), i as int));
        }
        match self.node(i) {
            Node::Leaf { points, .. } => {
                let mut b = best;
                let mut p: usize = 0;
                while p < points.len()
                    invariant
                        self.query_ok(q@, w@, periodic),
                        nodes == self.nodes_spec(),
                        data == self.data_spec(),
                        points@ == members(nodes, i as int),
                        forall|k: int| 0 <= k < points.len() ==> #[trigger] points[k] < data.len(),
                        p <= points.len(),
                        b.1 < data.len(),
                        b.0 == self.qdist(q@, w@, periodic, b.1),
                        before(b.0 as int, b.1, best.0 as int, best.1),
                        forall|k: int| 0 <= k < p ==> before(b.0 as int, b.1, #[trigger] self.qdist(q@, w@, periodic, points[k]), points[k]),
                    decreases points.len() - p,
                {
                    let j = points[p];
                    let d = self.metric_to(q, w, periodic, j);
                    if d < b.0 || (d == b.0 && j < b.1) {
                        b = (d, j);
                    }
                    p = p + 1;
                }
                b
            },
            Node::Stem { split_dim, point, left, right } => {
                let s = *split_dim;
                let pt = *point;
                let m = self.point(pt);
                proof {
                    assert(m@.len() == self.dim_spec());
                }
                let qs = q[s];
                let ms = m[s];
                let ws: i32 = if periodic { w[s] } else { 0 };
                let near_is_left = qs < ms;
                let near = if near_is_left { *left } else { *right };
                let far = if near_is_left { *right } else { *left };
                let mut b = self.nearest_from(q, w, periodic, near, best);
                let d = self.metric_to(q, w, periodic, pt);
                if d < b.0 || (d == b.0 && pt < b.1) {
                    b = (d, pt);
                }
                let fb = far_bound_of(qs, ms, ws, periodic) as u128;
                assert(fb * fb <= 0xffff_fffe_0000_0001) by (nonlinear_arith)
                    requires
                        fb <= 0xffff_ffff,
                ;
                if fb * fb <= b.0 {
                    b = self.nearest_from(q, w, periodic, far, b);
                } else {
                    proof {
                        self.lemma_far_subtree(q@, w@, periodic, i as int, far);
                        assert(self.data_spec()[pt as int]@[s as int] == ms);
                        assert(fb * fb == sq(far_bound(qs as int, ms as int, ws as int, periodic)));
                    }
                }
                proof {
                    let pred = |j: usize| before(b.0 as int, b.1, self.qdist(q@, w@, periodic, j), j);
                    assert forall|k: int| 0 <= k < members(nodes, near as int).len()
                        implies #[trigger] pred(members(nodes, near as int)[k]) by {}
                    assert forall|k: int| 0 <= k < members(nodes, far as int).len()
                        implies #[trigger] pred(members(nodes, far as int)[k]) by {}
                    lemma_stem_members(nodes, i as int, pred);
                }
                b
            },
        }
    }

    /// Each candidate is a valid index at its true distance from `q`.
    pub open spec fn measured(&self, c: Seq<(u128, usize)>, q: Seq<i32>, w: Seq<i32>, periodic: bool) -> bool {
        forall|e: int| 0 <= e < c.len() ==> (#[trigger] c[e]).1 < self.data_spec().len()
            && c[e].0 == self.qdist(q, w, periodic, c[e].1)
    }

    /// Candidates `c2` account for every index that `c1` accounted for.
    pub open spec fn keeps(&self, c1: Seq<(u128, usize)>, c2: Seq<(u128, usize)>, k: nat, q: Seq<i32>, w: Seq<i32>, periodic: bool) -> bool {
        forall|j: usize| #[trigger] accounted(c1, k, j, self.qdist(q, w, periodic, j))
            ==> accounted(c2, k, j, self.qdist(q, w, periodic, j))
    }

    /// Offers point `j` to the candidates.
    fn offer_point(&self, q: &Vec<i32>, w: &Vec<i32>, periodic: bool, k: usize, cand: &mut Vec<(u128, usize)>, j: usize)
        requires
            self.query_ok(q@, w@, periodic),
            1 <= k,
            j < self.data_spec().len(),
            ranked(old(cand)@, k as nat),
            self.measured(old(cand)@, q@, w@, periodic),
        ensures
            ranked(final(cand)@, k as nat),
            self.measured(final(cand)@, q@, w@, periodic),
            self.keeps(old(cand)@, final(cand)@, k as nat, q@, w@, periodic),
            accounted(final(cand)@, k as nat, j, self.qdist(q@, w@, periodic, j)),
    {
        let d = self.metric_to(q, w, periodic, j);
        let ghost o = cand@;
        offer(cand, k, d, j);
        proof {
            let fin = cand@;
            assert forall|e: int| 0 <= e < fin.len() implies (#[trigger] fin[e]).1 < self.data_spec().len()
                && fin[e].0 == self.qdist(q@, w@, periodic, fin[e].1) by {
                if fin[e] != (d, j) {
                    assert(o.contains(fin[e]));
                    let e2 = choose|e2: int| 0 <= e2 < o.len() && o[e2] == fin[e];
                    assert(o[e2].1 < self.data_spec().len());
                }
            }
            assert forall|j2: usize| #[trigger] accounted(o, k as nat, j2, self.qdist(q@, w@, periodic, j2))
                implies accounted(fin, k as nat, j2, self.qdist(q@, w@, periodic, j2)) by {
                if holds(o, j2) {
                    let e = choose|e: int| 0 <= e < o.len() && (#[trigger] o[e]).1 == j2;
                    if fin.contains(o[e]) {
                        let f = choose|f: int| 0 <= f < fin.len() && fin[f] == o[e];
                        assert(fin[f].1 == j2);
                    }
                }
            }
        }
    }

    /// Brings the candidates up to date with the subtree at `i`: afterwards every index
    /// of the subtree is accounted for.
    fn nearest_k_from(&self, q: &Vec<i32>, w: &Vec<i32>, periodic: bool, i: usize, k: usize, cand: &mut Vec<(u128, usize)>)
        requires
            self.query_ok(q@, w@, periodic),
            i < self.nodes_spec().len(),
            1 <= k,
            ranked(old(cand)@, k as nat),
            self.measured(old(cand)@, q@, w@, periodic),
        ensures
            ranked(final(cand)@, k as nat),
            self.measured(final(cand)@, q@, w@, periodic),
            self.keeps(old(cand)@, final(cand)@, k as nat, q@, w@, periodic),
            forall|kk: int| 0 <= kk < members(self.nodes_spec(), i as int).len() ==> #[trigger] accounted(
                final(cand)@, k as nat, members(self.nodes_spec(), i as int)[kk],
                self.qdist(q@, w@, periodic, members(self.nodes_spec(), i as int)[kk])),
        decreases i,
    {
        let ghost nodes = self.nodes_spec();
        let ghost data = self.data_spec();
        let ghost c0 = cand@;
        proof {
            assert(node_ok(nodes, data, self.dim_spec(), self.leafsize_spec(), i as int));
        }
        match self.node(i) {
            Node::Leaf { points, .. } => {
                let mut p: usize = 0;
                while p < points.len()
                    invariant
                        self.query_ok(q@, w@, periodic),
                        nodes == self.nodes_spec(),
                        data == self.data_spec(),
                        1 <= k,
                        points@ == members(nodes, i as int),
                        forall|kk: int| 0 <= kk < points.len() ==> #[trigger] points[kk] < data.len(),
                        p <= points.len(),
                        ranked(cand@, k as nat),
                        self.measured(cand@, q@, w@, periodic),
                        self.keeps(c0, cand@, k as nat, q@, w@, periodic),
                        forall|kk: int| 0 <= kk < p ==> #[trigger] accounted(cand@, k as nat, points[kk],
                            self.qdist(q@, w@, periodic, points[kk])),
                    decreases points.len() - p,
                {
                    let ghost before = cand@;
                    self.offer_point(q, w, periodic, k, cand, points[p]);
                    proof {
                        assert forall|kk: int| 0 <= kk < p + 1 implies #[trigger] accounted(cand@, k as nat, points[kk],
                            self.qdist(q@, w@, periodic, points[kk])) by {
                            if kk < p {
                                assert(accounted(before, k as nat, points[kk], self.qdist(q@, w@, periodic, points[kk])));
                            }
                        }
                    }
                    p = p + 1;
                }
            },
            Node::Stem { split_dim, point, left, right } => {
                let s = *split_dim;
                let pt = *point;
                let m = self.point(pt);
                proof {
                    assert(m@.len() == self.dim_spec());
                }
                let qs = q[s];
                let ms = m[s];
                let ws: i32 = if periodic { w[s] } else { 0 };
                let near_is_left = qs < ms;
                let near = if near_is_left { *left } else { *right };
                let far = if near_is_left { *right } else { *left };
                self.nearest_k_from(q, w, periodic, near, k, cand);
                let ghost c1 = cand@;
                self.offer_point(q, w, periodic, k, cand, pt);
                let ghost c2 = cand@;
                let fb = far_bound_of(qs, ms, ws, periodic) as u128;
                assert(fb * fb <= 0xffff_fffe_0000_0001) by (nonlinear_arith)
                    requires
                        fb <= 0xffff_ffff,
                ;
                if cand.len() < k || fb * fb <= cand[k - 1].0 {
                    self.nearest_k_from(q, w, periodic, far, k, cand);
                } else {
                    proof {
                        self.lemma_far_subtree(q@, w@, periodic, i as int, far);
                        assert(self.data_spec()[pt as int]@[s as int] == ms);
                        assert(fb * fb == sq(far_bound(qs as int, ms as int, ws as int, periodic)));
                    }
                }
                proof {
                    let fin = cand@;
                    let pred = |j: usize| accounted(fin, k as nat, j, self.qdist(q@, w@, periodic, j));
                    assert forall|kk: int| 0 <= kk < members(nodes, near as int).len()
                        implies #[trigger] pred(members(nodes, near as int)[kk]) by {
                        let j = members(nodes, near as int)[kk];
                        assert(accounted(c1, k as nat, j, self.qdist(q@, w@, periodic, j)));
                        assert(accounted(c2, k as nat, j, self.qdist(q@, w@, periodic, j)));
                    }
                    assert(accounted(c2, k as nat, pt, self.qdist(q@, w@, periodic, pt)));
                    assert forall|kk: int| 0 <= kk < members(nodes, far as int).len()
                        implies #[trigger] pred(members(nodes, far as int)[kk]) by {}
                    lemma_stem_members(nodes, i as int, pred);
                    assert forall|kk: int| 0 <= kk < members(nodes, i as int).len() implies #[trigger] accounted(
                        fin, k as nat, members(nodes, i as int)[kk], self.qdist(q@, w@, periodic, members(nodes, i as int)[kk])) by {
                        assert(pred(members(nodes, i as int)[kk]));
                    }
                    assert forall|j: usize| #[trigger] accounted(c0, k as nat, j, self.qdist(q@, w@, periodic, j))
                        implies accounted(fin, k as nat, j, self.qdist(q@, w@, periodic, j)) by {
                        assert(accounted(c1, k as nat, j, self.qdist(q@, w@, periodic, j)));
                        assert(accounted(c2, k as nat, j, self.qdist(q@, w@, periodic, j)));
                    }
                }
            },
        }
    }

    /// Nearest point of the tree to `q` under the chosen metric.
    fn nearest_any(&self, q: &Vec<i32>, w: &Vec<i32>, periodic: bool) -> (r: (u128, usize))
        requires
            self.query_ok(q@, w@, periodic),
        ensures
            is_nearest(r, self.data_spec(), |p: Seq<i32>| dist(q@, p, w@, periodic)),
    {
        let d0 = self.metric_to(q, w, periodic, 0);
        let root = self.size() - 1;
        let r = self.nearest_from(q, w, periodic, root, (d0, 0));
        proof {
            self.lemma_root_holds_all();
            let ms = members(self.nodes_spec(), root as int);
            assert forall|j: usize| j < self.data_spec().len() implies before(r.0 as int, r.1, #[trigger] dist(q@, self.data_spec()[j as int]@, w@, periodic), j) by {
                assert(ms.contains(j));
                let k = choose|k: int| 0 <= k < ms.len() && ms[k] == j;
                assert(before(r.0 as int, r.1, self.qdist(q@, w@, periodic, ms[k]), ms[k]));
            }
        }
        r
    }

    /// The `k` nearest points of the tree to `q` under the chosen metric.
    fn nearest_k_any(&self, q: &Vec<i32>, w: &Vec<i32>, periodic: bool, k: usize) -> (r: Vec<(u128, usize)>)
        requires
            self.query_ok(q@, w@, periodic),
        ensures
            is_k_nearest(r@, self.data_spec(), k as nat, |p: Seq<i32>| dist(q@, p, w@, periodic)),
    {
        let mut cand: Vec<(u128, usize)> = Vec::new();
        if k == 0 {
            return cand;
        }
        let root = self.size() - 1;
        self.nearest_k_from(q, w, periodic, root, k, &mut cand);
        proof {
            let n = self.data_spec().len();
            self.lemma_root_holds_all();
            let ms = members(self.nodes_spec(), root as int);
            assert forall|j: usize| j < n implies #[trigger] accounted(cand@, k as nat, j, self.qdist(q@, w@, periodic, j)) by {
                assert(ms.contains(j));
                let kk = choose|kk: int| 0 <= kk < ms.len() && ms[kk] == j;
                assert(accounted(cand@, k as nat, ms[kk], self.qdist(q@, w@, periodic, ms[kk])));
            }
            lemma_ranked_len(cand@, k as nat, n);
            if cand.len() < k {
                assert forall|j: usize| j < n implies #[trigger] holds(cand@, j) by {
                    assert(accounted(cand@, k as nat, j, self.qdist(q@, w@, periodic, j)));
                }
            }
            assert forall|j: usize, e: int| j < n && !holds(cand@, j) && 0 <= e < cand.len()
                implies before((#[trigger] cand@[e]).0 as int, cand@[e].1, #[trigger] dist(q@, self.data_spec()[j as int]@, w@, periodic), j) by {
                assert(accounted(cand@, k as nat, j, self.qdist(q@, w@, periodic, j)));
                if e < k - 1 {
                    assert(first(cand@[e], cand@[k - 1]));
                }
            }
        }
        cand
    }

    /// The nearest point to `q`: its squared Euclidean distance and its index.
    pub fn nearest(&self, q: &Vec<i32>) -> (r: (u128, usize))
        requires
            self.wf(),
            q.len() == self.dim_spec(),
        ensures
            is_nearest(r, self.data_spec(), |p: Seq<i32>| sq_dist(q@, p)),
    {
        let w: Vec<i32> = Vec::new();
        let r = self.nearest_any(q, &w, false);
        assert((|p: Seq<i32>| sq_dist(q@, p)) =~= (|p: Seq<i32>| dist(q@, p, w@, false)));
        r
    }

    /// The nearest point to `q` on the periodic box `[0, box_size]`: its squared
    /// minimum-image distance and its index.
    pub fn nearest_periodic(&self, q: &Vec<i32>, box_size: &Vec<i32>) -> (r: (u128, usize))
        requires
            self.wf(),
            q.len() == self.dim_spec(),
            in_box(q@, box_size@),
            all_in_box(self.data_spec(), box_size@),
        ensures
            is_nearest(r, self.data_spec(), |p: Seq<i32>| periodic_sq_dist(q@, p, box_size@)),
    {
        let r = self.nearest_any(q, box_size, true);
        assert((|p: Seq<i32>| periodic_sq_dist(q@, p, box_size@)) =~= (|p: Seq<i32>| dist(q@, p, box_size@, true)));
        r
    }

    /// The `k` nearest points to `q` by squared Euclidean distance, nearest first.
    pub fn nearest_k(&self, q: &Vec<i32>, k: usize) -> (r: Vec<(u128, usize)>)
        requires
            self.wf(),
            q.len() == self.dim_spec(),
        ensures
            is_k_nearest(r@, self.data_spec(), k as nat, |p: Seq<i32>| sq_dist(q@, p)),
    {
        let w: Vec<i32> = Vec::new();
        let r = self.nearest_k_any(q, &w, false, k);
        assert((|p: Seq<i32>| sq_dist(q@, p)) =~= (|p: Seq<i32>| dist(q@, p, w@, false)));
        r
    }

    /// The `k` nearest points to `q` on the periodic box `[0, box_size]` by squared
    /// minimum-image distance, nearest first.
    pub fn nearest_k_periodic(&self, q: &Vec<i32>, k: usize, box_size: &Vec<i32>) -> (r: Vec<(u128, usize)>)
        requires
            self.wf(),
            q.len() == self.dim_spec(),
            in_box(q@, box_size@),
            all_in_box(self.data_spec(), box_size@),
        ensures
            is_k_nearest(r@, self.data_spec(), k as nat, |p: Seq<i32>| periodic_sq_dist(q@, p, box_size@)),
    {
        let r = self.nearest_k_any(q, box_size, true, k);
        assert((|p: Seq<i32>| periodic_sq_dist(q@, p, box_size@)) =~= (|p: Seq<i32>| dist(q@, p, box_size@, true)));
        r
    }
}

} // verus!
