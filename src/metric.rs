//! Squared distances between points with integer coordinates, in plain space and
//! on a periodic box.
use vstd::prelude::*;

verus! {

/// The square of an integer.
pub open spec fn sq(x: int) -> int {
    x * x
}

/// Distance on one axis: the absolute difference, or on a periodic axis of width `w`
/// the shorter of the direct way and the way round the box.
pub open spec fn gap(x: int, y: int, w: int, periodic: bool) -> int {
    let d = if x >= y { x - y } else { y - x };
    if periodic && w - d < d { w - d } else { d }
}

/// Sum of the squared per-axis gaps over the first `n` axes.
pub open spec fn dist_upto(a: Seq<i32>, b: Seq<i32>, w: Seq<i32>, periodic: bool, n: int) -> int
    decreases n,
{
    if n <= 0 {
        0
    } else {
        dist_upto(a, b, w, periodic, n - 1) + sq(gap(a[n - 1] as int, b[n - 1] as int, w[n - 1] as int, periodic))
    }
}

/// Squared distance under the plain or the periodic metric.
pub open spec fn dist(a: Seq<i32>, b: Seq<i32>, w: Seq<i32>, periodic: bool) -> int {
    dist_upto(a, b, w, periodic, a.len() as int)
}

/// Squared Euclidean distance.
pub open spec fn sq_dist(a: Seq<i32>, b: Seq<i32>) -> int {
    dist(a, b, Seq::empty(), false)
}

/// Squared minimum-image distance on a box with the given widths.
pub open spec fn periodic_sq_dist(a: Seq<i32>, b: Seq<i32>, w: Seq<i32>) -> int {
    dist(a, b, w, true)
}

/// `p` lies in the box `[0, w]` on every axis.
pub open spec fn in_box(p: Seq<i32>, w: Seq<i32>) -> bool {
    p.len() == w.len() && forall|a: int| 0 <= a < w.len() ==> 0 <= #[trigger] p[a] <= w[a]
}

/// What the metric needs of a point: its number of axes, and on a periodic box its place in it.
pub open spec fn fits(p: Seq<i32>, w: Seq<i32>, periodic: bool, dim: int) -> bool {
    p.len() == dim && (periodic ==> in_box(p, w))
}

/// A lower bound on the axis gap from a query coordinate `qs` to any coordinate on the
/// other side of a splitting value `ms` (at or above it when `qs < ms`, at or below it
/// otherwise). On a periodic axis the way round the box can be shorter than the way to
/// the plane, so the bound is also capped by the query's distance to the box edge
/// on the near side.
pub open spec fn far_bound(qs: int, ms: int, w: int, periodic: bool) -> int {
    let p = if qs < ms { ms - qs } else { qs - ms };
    if !periodic {
        p
    } else if qs < ms {
        if qs < p { qs } else { p }
    } else {
        if w - qs < p { w - qs } else { p }
    }
}

pub proof fn lemma_sq_nonneg(x: int)
    ensures
        sq(x) >= 0,
{
    assert(x * x >= 0) by (nonlinear_arith);
}

pub proof fn lemma_sq_mono(x: int, y: int)
    requires
        0 <= x <= y,
    ensures
        sq(x) <= sq(y),
{
    assert(x * x <= y * y) by (nonlinear_arith)
        requires
            0 <= x <= y,
    ;
}

/// The squared distance is at least the squared gap on any single axis.
pub proof fn lemma_dist_ge_axis(a: Seq<i32>, b: Seq<i32>, w: Seq<i32>, periodic: bool, n: int, s: int)
    requires
        0 <= s < n,
    ensures
        dist_upto(a, b, w, periodic, n) >= sq(gap(a[s] as int, b[s] as int, w[s] as int, periodic)),
    decreases n,
{
    lemma_dist_nonneg(a, b, w, periodic, n - 1);
    lemma_sq_nonneg(gap(a[n - 1] as int, b[n - 1] as int, w[n - 1] as int, periodic));
    if s < n - 1 {
        lemma_dist_ge_axis(a, b, w, periodic, n - 1, s);
    }
}

pub proof fn lemma_dist_nonneg(a: Seq<i32>, b: Seq<i32>, w: Seq<i32>, periodic: bool, n: int)
    ensures
        dist_upto(a, b, w, periodic, n) >= 0,
    decreases n,
{
    if n > 0 {
        lemma_dist_nonneg(a, b, w, periodic, n - 1);
        lemma_sq_nonneg(gap(a[n - 1] as int, b[n - 1] as int, w[n - 1] as int, periodic));
    }
}

/// Any point on the far side of a split is at least `far_bound` away on the split axis.
pub proof fn lemma_far_side(q: Seq<i32>, x: Seq<i32>, w: Seq<i32>, periodic: bool, s: int, ms: int)
    requires
        0 <= s < q.len(),
        q.len() == x.len(),
        periodic ==> in_box(q, w) && in_box(x, w),
        (q[s] < ms && x[s] >= ms) || (q[s] >= ms && x[s] <= ms),
    ensures
        far_bound(q[s] as int, ms, w[s] as int, periodic) >= 0,
        dist(q, x, w, periodic) >= sq(far_bound(q[s] as int, ms, w[s] as int, periodic)),
{
    if periodic {
        assert(0 <= q[s] <= w[s] && 0 <= x[s] <= w[s]);
    }
    lemma_dist_ge_axis(q, x, w, periodic, q.len() as int, s);
    lemma_sq_mono(
        far_bound(q[s] as int, ms, w[s] as int, periodic),
        gap(q[s] as int, x[s] as int, w[s] as int, periodic),
    );
}

/// The gap on one axis, computed.
fn axis_gap(x: i32, y: i32, w: i32, periodic: bool) -> (r: u64)
    requires
        periodic ==> 0 <= x <= w && 0 <= y <= w,
    ensures
        r == gap(x as int, y as int, w as int, periodic),
        r <= 0xffff_ffff,
{
    let d: i64 = if x >= y { x as i64 - y as i64 } else { y as i64 - x as i64 };
    if periodic && (w as i64) - d < d {
        ((w as i64) - d) as u64
    } else {
        d as u64
    }
}

/// The squared distance between two points, computed exactly.
pub fn distance(a: &Vec<i32>, b: &Vec<i32>, w: &Vec<i32>, periodic: bool) -> (r: u128)
    requires
        a.len() == b.len(),
        periodic ==> in_box(a@, w@) && in_box(b@, w@),
    ensures
        r == dist(a@, b@, w@, periodic),
{
    let n = a.len();
    let mut s: u128 = 0;
    let mut i: usize = 0;
    while i < n
        invariant
            n == a.len(),
            a.len() == b.len(),
            periodic ==> in_box(a@, w@) && in_box(b@, w@),
            i <= n,
            s == dist_upto(a@, b@, w@, periodic, i as int),
            s <= i * 0x1_0000_0000_0000_0000,
        decreases n - i,
    {
        let (x, y) = (a[i], b[i]);
        let ww: i32 = if periodic { w[i] } else { 0 };
        if periodic {
            assert(0 <= a@[i as int] <= w@[i as int]);
            assert(0 <= b@[i as int] <= w@[i as int]);
        }
        let g = axis_gap(x, y, ww, periodic);
        assert((g as u128) * (g as u128) <= 0xffff_ffff_ffff_ffff) by (nonlinear_arith)
            requires
                g <= 0xffff_ffff,
        ;
        assert(i + 1 <= 0xffff_ffff_ffff_ffff);
        assert((i + 1) * 0x1_0000_0000_0000_0000 <= 0xffff_ffff_ffff_ffff * 0x1_0000_0000_0000_0000);
        s = s + (g as u128) * (g as u128);
        i = i + 1;
        proof {
            if !periodic {
                assert(gap(x as int, y as int, ww as int, false) == gap(x as int, y as int, w@[i - 1] as int, false));
            }
        }
    }
    s
}

} // verus!
