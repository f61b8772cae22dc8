use vstd::prelude::*;
use crate::bounds::{ball_gap_sq, floor_sqrt};
use crate::measure::{ball_reach_sq, clamp_seq, far_seq, saturate, MAX_SQ_DIST};
use crate::geometry::{sq_dist, squared_distance, Point, MAX_DIMENSION};
use crate::node::Node;
use crate::params::Params;

verus! {

/// Largest number of points a tree indexes; it keeps every coordinate sum
/// and every variance inside `i128`.
pub const MAX_POINTS: usize = 4294967295;

/// A distance over coordinate vectors of equal length. Each metric names the
/// measure the index compares by, the bounds it prunes with, and the laws
/// that make the pruning sound; it also gives its distance and its square.
pub trait Metric {
    /// What the index compares and prunes by, a quantity that grows with the
    /// distance between `a` and `b` (the squared distance for `Euclidean`).
    spec fn measure(a: Seq<i32>, b: Seq<i32>) -> nat;

    /// Lower bound on the measure from a query to any point within measure `r`
    /// of a center that lies at measure `d` from the query.
    spec fn gap(d: nat, r: nat) -> nat;

    /// Upper bound on the measure from a query to any point within measure `r`
    /// of a center that lies at measure `d` from the query.
    spec fn reach(d: nat, r: nat) -> nat;

    /// The measure between vectors of at most `MAX_DIMENSION` axes fits the
    /// index's integers.
    proof fn lemma_measure_bound(a: Seq<i32>, b: Seq<i32>)
        requires
            a.len() == b.len(),
            a.len() <= MAX_DIMENSION,
        ensures
            Self::measure(a, b) <= MAX_SQ_DIST,
    ;

    /// A vector is at measure zero from itself.
    proof fn lemma_measure_self(a: Seq<i32>)
        ensures
            Self::measure(a, a) == 0,
    ;

    /// The clamp of `q` into a box is the point of the box nearest to `q`.
    proof fn lemma_clamp_nearest(q: Seq<i32>, p: Seq<i32>, lo: Seq<i32>, hi: Seq<i32>)
        requires
            q.len() == p.len(),
            p.len() == lo.len(),
            lo.len() == hi.len(),
            forall|i: int| 0 <= i < q.len() ==> lo[i] <= #[trigger] p[i] <= hi[i],
        ensures
            Self::measure(q, clamp_seq(q, lo, hi)) <= Self::measure(q, p),
    ;

    /// The corner of a box farthest from `q` is at least as far as any point of it.
    proof fn lemma_far_corner(q: Seq<i32>, p: Seq<i32>, lo: Seq<i32>, hi: Seq<i32>)
        requires
            q.len() == p.len(),
            p.len() == lo.len(),
            lo.len() == hi.len(),
            forall|i: int| 0 <= i < q.len() ==> lo[i] <= #[trigger] p[i] <= hi[i],
        ensures
            Self::measure(q, p) <= Self::measure(q, far_seq(q, lo, hi)),
    ;

    /// The triangle inequality, as a lower bound: a point within `r` of the
    /// center `c` lies at least `gap` from `q`.
    proof fn lemma_gap(q: Seq<i32>, p: Seq<i32>, c: Seq<i32>, r: nat)
        requires
            q.len() == p.len(),
            p.len() == c.len(),
            Self::measure(c, p) <= r,
        ensures
            Self::gap(Self::measure(q, c), r) <= Self::measure(q, p),
    ;

    /// The triangle inequality, as an upper bound: a point within `r` of the
    /// center `c` lies at most `reach` from `q`.
    proof fn lemma_reach(q: Seq<i32>, p: Seq<i32>, c: Seq<i32>, r: nat)
        requires
            q.len() == p.len(),
            p.len() == c.len(),
            Self::measure(c, p) <= r,
        ensures
            Self::measure(q, p) <= Self::reach(Self::measure(q, c), r),
    ;

    /// A smaller radius leaves a larger gap, and no gap exceeds the distance
    /// to the center.
    proof fn lemma_gap_antitone(d: nat, r1: nat, r2: nat)
        requires
            r1 <= r2,
        ensures
            Self::gap(d, r2) <= Self::gap(d, r1),
            Self::gap(d, r1) <= d,
    ;

    /// The measure between two vectors of equal length.
    fn measure_between(a: &[i32], b: &[i32]) -> (r: u128)
        requires
            a@.len() == b@.len(),
            a@.len() <= MAX_DIMENSION,
        ensures
            r == Self::measure(a@, b@),
    ;

    fn gap_between(d: u128, r: u128) -> (g: u128)
        ensures
            g == Self::gap(d as nat, r as nat),
    ;

    fn reach_between(d: u128, r: u128) -> (g: u128)
        ensures
            g == saturate(Self::reach(d as nat, r as nat)),
    ;

    /// The square of the distance between `a` and `b`.
    spec fn dist_sq_spec(&self, a: Seq<i32>, b: Seq<i32>) -> nat;

    /// The distance between `a` and `b`, rounded down.
    spec fn dist_spec(&self, a: Seq<i32>, b: Seq<i32>) -> nat;

    /// The distance rounded down, or `None` (an infinite distance) when the
    /// lengths differ.
    fn distance(&self, point1: &[i32], point2: &[i32]) -> (r: Option<u128>)
        requires
            point1@.len() <= MAX_DIMENSION,
        ensures
            r is None <==> point1@.len() != point2@.len(),
            r matches Some(d) ==> d == self.dist_spec(point1@, point2@),
    ;

    /// The squared distance, or `None` (an infinite distance) when the lengths
    /// differ.
    fn distance_squared(&self, point1: &[i32], point2: &[i32]) -> (r: Option<u128>)
        requires
            point1@.len() <= MAX_DIMENSION,
        ensures
            r is None <==> point1@.len() != point2@.len(),
            r matches Some(d) ==> d == self.dist_sq_spec(point1@, point2@),
    ;
}

/// The Euclidean metric.
pub struct Euclidean {}

impl Euclidean {
    pub fn new() -> (r: Euclidean) {
        Euclidean {  }
    }
}

impl Metric for Euclidean {
    open spec fn measure(a: Seq<i32>, b: Seq<i32>) -> nat {
        if a.len() == b.len() {
            sq_dist(a, b) as nat
        } else {
            0
        }
    }

    open spec fn gap(d: nat, r: nat) -> nat {
        ball_gap_sq(d, r)
    }

    open spec fn reach(d: nat, r: nat) -> nat {
        ball_reach_sq(d, r)
    }

    proof fn lemma_measure_bound(a: Seq<i32>, b: Seq<i32>) {
        crate::geometry::lemma_sq_dist_n_bounds(a, b, a.len() as int);
        assert(a.len() * 0x1_0000_0000_0000_0000 <= MAX_SQ_DIST) by (nonlinear_arith)
            requires
                a.len() <= MAX_DIMENSION,
        ;
    }

    proof fn lemma_measure_self(a: Seq<i32>) {
        crate::bounds::lemma_sq_dist_self(a, a.len() as int);
    }

    proof fn lemma_clamp_nearest(q: Seq<i32>, p: Seq<i32>, lo: Seq<i32>, hi: Seq<i32>) {
        let k = clamp_seq(q, lo, hi);
        crate::bounds::lemma_clamp_nearest(q, k, p, lo, hi, q.len() as int);
        crate::geometry::lemma_sq_dist_n_bounds(q, k, q.len() as int);
        crate::geometry::lemma_sq_dist_n_bounds(q, p, q.len() as int);
    }

    proof fn lemma_far_corner(q: Seq<i32>, p: Seq<i32>, lo: Seq<i32>, hi: Seq<i32>) {
        let f = far_seq(q, lo, hi);
        crate::bounds::lemma_far_corner(q, f, p, lo, hi, q.len() as int);
        crate::geometry::lemma_sq_dist_n_bounds(q, f, q.len() as int);
        crate::geometry::lemma_sq_dist_n_bounds(q, p, q.len() as int);
    }

    proof fn lemma_gap(q: Seq<i32>, p: Seq<i32>, c: Seq<i32>, r: nat) {
        crate::geometry::lemma_sq_dist_n_bounds(c, p, c.len() as int);
        crate::geometry::lemma_sq_dist_n_bounds(q, c, q.len() as int);
        crate::geometry::lemma_sq_dist_n_bounds(q, p, q.len() as int);
        crate::bounds::lemma_ball_gap(q, p, c, r);
    }

    proof fn lemma_reach(q: Seq<i32>, p: Seq<i32>, c: Seq<i32>, r: nat) {
        crate::geometry::lemma_sq_dist_n_bounds(c, p, c.len() as int);
        crate::geometry::lemma_sq_dist_n_bounds(q, c, q.len() as int);
        crate::geometry::lemma_sq_dist_n_bounds(q, p, q.len() as int);
        crate::bounds::lemma_ball_reach(q, p, c, r);
    }

    proof fn lemma_gap_antitone(d: nat, r1: nat, r2: nat) {
        crate::bounds::lemma_ball_gap_antitone(d, r1, r2);
        crate::bounds::lemma_floor_sqrt(d);
        let a = floor_sqrt(d) as int;
        let b = crate::bounds::ceil_sqrt(r1) as int;
        if a > b {
            assert((a - b) * (a - b) <= a * a) by (nonlinear_arith)
                requires
                    0 <= b < a,
            ;
        }
    }

    fn measure_between(a: &[i32], b: &[i32]) -> (r: u128) {
        proof {
            crate::geometry::lemma_sq_dist_n_bounds(a@, b@, a@.len() as int);
        }
        crate::geometry::sq_distance_exact(a, b)
    }

    fn gap_between(d: u128, r: u128) -> (g: u128) {
        crate::bounds::ball_gap_exec(d, r)
    }

    fn reach_between(d: u128, r: u128) -> (g: u128) {
        crate::bounds::ball_reach_exec(d, r)
    }

    open spec fn dist_sq_spec(&self, a: Seq<i32>, b: Seq<i32>) -> nat {
        sq_dist(a, b) as nat
    }

    open spec fn dist_spec(&self, a: Seq<i32>, b: Seq<i32>) -> nat {
        floor_sqrt(sq_dist(a, b) as nat)
    }

    fn distance(&self, point1: &[i32], point2: &[i32]) -> (r: Option<u128>) {
        crate::measure::euclidean(point1, point2)
    }

    fn distance_squared(&self, point1: &[i32], point2: &[i32]) -> (r: Option<u128>) {
        proof {
            if point1@.len() == point2@.len() {
                crate::geometry::lemma_sq_dist_n_bounds(point1@, point2@, point1@.len() as int);
            }
        }
        squared_distance(point1, point2)
    }
}

/// Sum over the first `n` axes of the absolute coordinate differences.
pub open spec fn manhattan_n(a: Seq<i32>, b: Seq<i32>, n: int) -> nat
    decreases n,
{
    if n <= 0 {
        0
    } else {
        manhattan_n(a, b, n - 1) + crate::geometry::abs(a[n - 1] - b[n - 1]) as nat
    }
}

proof fn lemma_manhattan_bound(a: Seq<i32>, b: Seq<i32>, n: int)
    requires
        0 <= n <= a.len(),
        n <= b.len(),
    ensures
        manhattan_n(a, b, n) <= n * 0x1_0000_0000,
    decreases n,
{
    if n > 0 {
        lemma_manhattan_bound(a, b, n - 1);
    }
}

proof fn lemma_manhattan_self(a: Seq<i32>, n: int)
    ensures
        manhattan_n(a, a, n) == 0,
    decreases n,
{
    if n > 0 {
        lemma_manhattan_self(a, n - 1);
    }
}

proof fn lemma_manhattan_clamp(q: Seq<i32>, p: Seq<i32>, lo: Seq<i32>, hi: Seq<i32>, n: int)
    requires
        0 <= n <= q.len(),
        q.len() == p.len(),
        p.len() == lo.len(),
        lo.len() == hi.len(),
        forall|i: int| 0 <= i < q.len() ==> lo[i] <= #[trigger] p[i] <= hi[i],
    ensures
        manhattan_n(q, clamp_seq(q, lo, hi), n) <= manhattan_n(q, p, n),
    decreases n,
{
    if n > 0 {
        lemma_manhattan_clamp(q, p, lo, hi, n - 1);
        assert(lo[n - 1] <= p[n - 1] <= hi[n - 1]);
    }
}

proof fn lemma_manhattan_far(q: Seq<i32>, p: Seq<i32>, lo: Seq<i32>, hi: Seq<i32>, n: int)
    requires
        0 <= n <= q.len(),
        q.len() == p.len(),
        p.len() == lo.len(),
        lo.len() == hi.len(),
        forall|i: int| 0 <= i < q.len() ==> lo[i] <= #[trigger] p[i] <= hi[i],
    ensures
        manhattan_n(q, p, n) <= manhattan_n(q, far_seq(q, lo, hi), n),
    decreases n,
{
    if n > 0 {
        lemma_manhattan_far(q, p, lo, hi, n - 1);
        assert(lo[n - 1] <= p[n - 1] <= hi[n - 1]);
    }
}

proof fn lemma_manhattan_triangle(q: Seq<i32>, p: Seq<i32>, c: Seq<i32>, n: int)
    requires
        0 <= n <= q.len(),
        q.len() == p.len(),
        p.len() == c.len(),
    ensures
        manhattan_n(q, c, n) <= manhattan_n(q, p, n) + manhattan_n(c, p, n),
        manhattan_n(q, p, n) <= manhattan_n(q, c, n) + manhattan_n(c, p, n),
    decreases n,
{
    if n > 0 {
        lemma_manhattan_triangle(q, p, c, n - 1);
    }
}

/// The Manhattan metric: the sum of the absolute coordinate differences.
pub struct Manhattan {}

impl Manhattan {
    pub fn new() -> (r: Manhattan) {
        Manhattan {  }
    }

    fn sum_abs(point1: &[i32], point2: &[i32]) -> (r: u128)
        requires
            point1@.len() == point2@.len(),
            point1@.len() <= MAX_DIMENSION,
        ensures
            r == manhattan_n(point1@, point2@, point1@.len() as int),
            r <= point1@.len() * 0x1_0000_0000,
    {
        let mut acc: u128 = 0;
        let mut i: usize = 0;
        while i < point1.len()
            invariant
                0 <= i <= point1@.len(),
                point1@.len() == point2@.len(),
                point1@.len() <= MAX_DIMENSION,
                acc == manhattan_n(point1@, point2@, i as int),
                acc <= i * 0x1_0000_0000,
            decreases point1@.len() - i,
        {
            let d: i64 = point1[i] as i64 - point2[i] as i64;
            let ad: i64 = if d < 0 {
                -d
            } else {
                d
            };
            acc = acc + ad as u128;
            i = i + 1;
        }
        acc
    }
}

impl Metric for Manhattan {
    open spec fn measure(a: Seq<i32>, b: Seq<i32>) -> nat {
        manhattan_n(a, b, a.len() as int)
    }

    open spec fn gap(d: nat, r: nat) -> nat {
        if d > r {
            (d - r) as nat
        } else {
            0
        }
    }

    open spec fn reach(d: nat, r: nat) -> nat {
        d + r
    }

    proof fn lemma_measure_bound(a: Seq<i32>, b: Seq<i32>) {
        lemma_manhattan_bound(a, b, a.len() as int);
        assert(a.len() * 0x1_0000_0000 <= MAX_SQ_DIST) by (nonlinear_arith)
            requires
                a.len() <= MAX_DIMENSION,
        ;
    }

    proof fn lemma_measure_self(a: Seq<i32>) {
        lemma_manhattan_self(a, a.len() as int);
    }

    proof fn lemma_clamp_nearest(q: Seq<i32>, p: Seq<i32>, lo: Seq<i32>, hi: Seq<i32>) {
        lemma_manhattan_clamp(q, p, lo, hi, q.len() as int);
    }

    proof fn lemma_far_corner(q: Seq<i32>, p: Seq<i32>, lo: Seq<i32>, hi: Seq<i32>) {
        lemma_manhattan_far(q, p, lo, hi, q.len() as int);
    }

    proof fn lemma_gap(q: Seq<i32>, p: Seq<i32>, c: Seq<i32>, r: nat) {
        lemma_manhattan_triangle(q, p, c, q.len() as int);
    }

    proof fn lemma_reach(q: Seq<i32>, p: Seq<i32>, c: Seq<i32>, r: nat) {
        lemma_manhattan_triangle(q, p, c, q.len() as int);
    }

    proof fn lemma_gap_antitone(d: nat, r1: nat, r2: nat) {
    }

    fn measure_between(a: &[i32], b: &[i32]) -> (r: u128) {
        Manhattan::sum_abs(a, b)
    }

    fn gap_between(d: u128, r: u128) -> (g: u128) {
        if d > r {
            d - r
        } else {
            0
        }
    }

    fn reach_between(d: u128, r: u128) -> (g: u128) {
        d.saturating_add(r)
    }

    open spec fn dist_sq_spec(&self, a: Seq<i32>, b: Seq<i32>) -> nat {
        manhattan_n(a, b, a.len() as int) * manhattan_n(a, b, a.len() as int)
    }

    open spec fn dist_spec(&self, a: Seq<i32>, b: Seq<i32>) -> nat {
        manhattan_n(a, b, a.len() as int)
    }

    fn distance(&self, point1: &[i32], point2: &[i32]) -> (r: Option<u128>) {
        if point1.len() != point2.len() {
            return None;
        }
        Some(Manhattan::sum_abs(point1, point2))
    }

    fn distance_squared(&self, point1: &[i32], point2: &[i32]) -> (r: Option<u128>) {
        if point1.len() != point2.len() {
            return None;
        }
        let s = Manhattan::sum_abs(point1, point2);
        proof {
            assert(s * s <= 0x1_0000_0000_0000_0000 * 0x1_0000_0000_0000_0000 - 1) by (nonlinear_arith)
                requires
                    s <= 0xffff_ffff * 0x1_0000_0000,
            ;
        }
        Some(s * s)
    }
}

/// Why a tree could not be built.
#[derive(Debug, PartialEq, Eq, Structural)]
pub enum ArrayError {
    Empty,
    DimensionMismatch,
}

/// A bulk-loaded index over a fixed set of points: an arena of nodes, each
/// bounded by a box and a ball, over a store of points, searched with the
/// metric `M`.
pub struct SRTree<M> {
    pub root_index: usize,
    pub points: Vec<Point>,
    pub nodes: Vec<Node>,
    pub params: Params,
    pub metric: M,
}

/// Sum of coordinate `axis` over the points `idx[0..m]`.
pub open spec fn axis_sum(pts: Seq<Point>, idx: Seq<usize>, axis: int, m: int) -> int
    decreases m,
{
    if m <= 0 {
        0
    } else {
        axis_sum(pts, idx, axis, m - 1) + pts[idx[m - 1] as int].coords@[axis]
    }
}

/// The sum over a prefix depends on that prefix alone.
proof fn lemma_axis_sum_prefix(pts: Seq<Point>, s: Seq<usize>, t: Seq<usize>, axis: int, m: int)
    requires
        0 <= m <= s.len(),
        m <= t.len(),
        forall|i: int| 0 <= i < m ==> s[i] == t[i],
    ensures
        axis_sum(pts, s, axis, m) == axis_sum(pts, t, axis, m),
    decreases m,
{
    if m > 0 {
        lemma_axis_sum_prefix(pts, s, t, axis, m - 1);
    }
}

/// The sum reads only coordinates.
pub proof fn lemma_axis_sum_coords(pts_a: Seq<Point>, pts_b: Seq<Point>, s: Seq<usize>, axis: int, m: int)
    requires
        0 <= m <= s.len(),
        forall|j: int| 0 <= j < m ==> (#[trigger] pts_a[s[j] as int]).coords@ == pts_b[s[j] as int].coords@,
    ensures
        axis_sum(pts_a, s, axis, m) == axis_sum(pts_b, s, axis, m),
    decreases m,
{
    if m > 0 {
        lemma_axis_sum_coords(pts_a, pts_b, s, axis, m - 1);
        assert(pts_a[s[m - 1] as int].coords@ == pts_b[s[m - 1] as int].coords@);
    }
}

/// Taking out one entry takes its coordinate out of the sum.
proof fn lemma_axis_sum_remove(pts: Seq<Point>, s: Seq<usize>, axis: int, i: int)
    requires
        0 <= i < s.len(),
    ensures
        axis_sum(pts, s, axis, s.len() as int) == axis_sum(pts, s.remove(i), axis, s.len() - 1)
            + pts[s[i] as int].coords@[axis],
    decreases s.len(),
{
    let n = s.len() as int;
    let r = s.remove(i);
    if i == n - 1 {
        lemma_axis_sum_prefix(pts, s, r, axis, n - 1);
    } else {
        let d = s.drop_last();
        lemma_axis_sum_remove(pts, d, axis, i);
        let dr = d.remove(i);
        assert(r.len() == n - 1);
        assert(r[n - 2] == s[n - 1]);
        lemma_axis_sum_prefix(pts, r, dr, axis, n - 2);
        lemma_axis_sum_prefix(pts, s, d, axis, n - 1);
    }
}

/// The sum over duplicate-free index lists with the same entries does not
/// depend on their order.
pub proof fn lemma_axis_sum_reorder(pts: Seq<Point>, s: Seq<usize>, t: Seq<usize>, axis: int)
    requires
        s.no_duplicates(),
        t.no_duplicates(),
        s.len() == t.len(),
        forall|x: usize| s.contains(x) <==> t.contains(x),
    ensures
        axis_sum(pts, s, axis, s.len() as int) == axis_sum(pts, t, axis, t.len() as int),
    decreases s.len(),
{
    if s.len() > 0 {
        let n = s.len() as int;
        let x = s[n - 1];
        assert(s.contains(x));
        let j = choose|j: int| 0 <= j < t.len() && t[j] == x;
        let sd = s.drop_last();
        let tr = t.remove(j);
        lemma_axis_sum_remove(pts, s, axis, n - 1);
        lemma_axis_sum_remove(pts, t, axis, j);
        assert(s.remove(n - 1) =~= sd);
        assert forall|y: usize| sd.contains(y) <==> tr.contains(y) by {
            if sd.contains(y) {
                let a = choose|a: int| 0 <= a < sd.len() && sd[a] == y;
                assert(s[a] == y && a != n - 1);
                assert(y != x);
                assert(s.contains(y));
                let b = choose|b: int| 0 <= b < t.len() && t[b] == y;
                assert(b != j);
                if b < j {
                    assert(tr[b] == y);
                } else {
                    assert(tr[b - 1] == y);
                }
            }
            if tr.contains(y) {
                let b = choose|b: int| 0 <= b < tr.len() && tr[b] == y;
                let bt = if b < j { b } else { b + 1 };
                assert(t[bt] == y);
                assert(y != x);
                assert(t.contains(y));
                let a = choose|a: int| 0 <= a < s.len() && s[a] == y;
                assert(a != n - 1);
                assert(sd[a] == y);
            }
        }
        assert(sd.no_duplicates());
        assert forall|a: int, b: int| 0 <= a < b < tr.len() implies tr[a] != tr[b] by {
            let at = if a < j { a } else { a + 1 };
            let bt = if b < j { b } else { b + 1 };
            assert(tr[a] == t[at] && tr[b] == t[bt]);
        }
        lemma_axis_sum_reorder(pts, sd, tr, axis);
    }
}

/// Sum of the squares of coordinate `axis` over the points `idx[0..m]`.
pub open spec fn axis_sq_sum(pts: Seq<Point>, idx: Seq<usize>, axis: int, m: int) -> int
    decreases m,
{
    if m <= 0 {
        0
    } else {
        axis_sq_sum(pts, idx, axis, m - 1) + pts[idx[m - 1] as int].coords@[axis]
            * pts[idx[m - 1] as int].coords@[axis]
    }
}

/// `n * n` times the population variance of coordinate `axis` over the points `idx`.
pub open spec fn scaled_variance(pts: Seq<Point>, idx: Seq<usize>, axis: int) -> int {
    let n = idx.len() as int;
    n * axis_sq_sum(pts, idx, axis, n) - axis_sum(pts, idx, axis, n) * axis_sum(pts, idx, axis, n)
}

/// The points `idx` exist and have `dim` coordinates each.
pub open spec fn indices_ok(pts: Seq<Point>, idx: Seq<usize>, dim: nat) -> bool {
    forall|j: int| 0 <= j < idx.len() ==> (#[trigger] idx[j]) < pts.len() && pts[idx[j] as int].coords@.len() == dim
}

pub proof fn lemma_axis_sum_bounds(pts: Seq<Point>, idx: Seq<usize>, axis: int, m: int, dim: nat)
    requires
        0 <= m <= idx.len(),
        0 <= axis < dim,
        indices_ok(pts, idx, dim),
    ensures
        -0x8000_0000 * m <= axis_sum(pts, idx, axis, m) <= 0x7fff_ffff * m,
        0 <= axis_sq_sum(pts, idx, axis, m) <= 0x4000_0000_0000_0000 * m,
    decreases m,
{
    if m > 0 {
        lemma_axis_sum_bounds(pts, idx, axis, m - 1, dim);
        assert(idx[m - 1] < pts.len());
        let x = pts[idx[m - 1] as int].coords@[axis] as int;
        assert(0 <= x * x <= 0x4000_0000_0000_0000) by (nonlinear_arith)
            requires
                -0x8000_0000 <= x <= 0x7fff_ffff,
        ;
    }
}

/// Rounds `s / n` down.
pub fn floor_div(s: i128, n: usize) -> (r: i128)
    requires
        n > 0,
        -0x1_0000_0000_0000_0000_0000 <= s <= 0x1_0000_0000_0000_0000_0000,
    ensures
        r == (s as int) / (n as int),
{
    let d = n as i128;
    if s >= 0 {
        s / d
    } else {
        let q = (-s + d - 1) / d;
        proof {
            let m: int = -(s as int) + (d as int) - 1;
            let r: int = m % (d as int);
            assert(q as int == m / (d as int));
            assert(m == (q as int) * (d as int) + r) by {
                vstd::arithmetic::div_mod::lemma_fundamental_div_mod(m, d as int);
            }
            assert(0 <= r < d) by {
                vstd::arithmetic::div_mod::lemma_mod_bound(m, d as int);
            }
            assert(s as int == (-(q as int)) * (d as int) + (d - 1 - r)) by (nonlinear_arith)
                requires
                    m == (q as int) * (d as int) + r,
                    m == -(s as int) + (d as int) - 1,
            ;
            vstd::arithmetic::div_mod::lemma_fundamental_div_mod_converse_div(
                s as int,
                d as int,
                -(q as int),
                d - 1 - r,
            );
        }
        -q
    }
}

impl<M: Metric> SRTree<M> {
    /// The points and the shape parameters are in order.
    pub open spec fn points_ok(&self) -> bool {
        &&& self.params.well_formed()
        &&& self.params.dimension <= MAX_DIMENSION
        &&& self.points@.len() <= MAX_POINTS
        &&& forall|i: int|
            0 <= i < self.points@.len() ==> (#[trigger] self.points@[i]).coords@.len()
                == self.params.dimension && self.points@[i].index == i
    }

    /// Per-axis coordinate totals over the points `point_indices`.
    pub fn coordinate_totals(&self, point_indices: &[usize]) -> (r: Vec<i128>)
        requires
            self.points_ok(),
            point_indices@.len() <= MAX_POINTS,
            indices_ok(self.points@, point_indices@, self.params.dimension as nat),
        ensures
            r@.len() == self.params.dimension,
            forall|a: int|
                0 <= a < r@.len() ==> r@[a] == axis_sum(
                    self.points@,
                    point_indices@,
                    a,
                    point_indices@.len() as int,
                ),
    {
        let dim = self.params.dimension;
        let mut sums: Vec<i128> = Vec::new();
        let mut a: usize = 0;
        while a < dim
            invariant
                0 <= a <= dim,
                dim == self.params.dimension,
                self.points_ok(),
                point_indices@.len() <= MAX_POINTS,
                indices_ok(self.points@, point_indices@, dim as nat),
                sums@.len() == a,
                forall|b: int|
                    0 <= b < a ==> sums@[b] == axis_sum(
                        self.points@,
                        point_indices@,
                        b,
                        point_indices@.len() as int,
                    ),
            decreases dim - a,
        {
            let mut s: i128 = 0;
            let mut j: usize = 0;
            while j < point_indices.len()
                invariant
                    0 <= j <= point_indices@.len(),
                    0 <= a < dim,
                    dim == self.params.dimension,
                    point_indices@.len() <= MAX_POINTS,
                    indices_ok(self.points@, point_indices@, dim as nat),
                    s == axis_sum(self.points@, point_indices@, a as int, j as int),
                decreases point_indices@.len() - j,
            {
                proof {
                    lemma_axis_sum_bounds(self.points@, point_indices@, a as int, j as int + 1, dim as nat);
                }
                let p = point_indices[j];
                s = s + self.points[p].coords[a] as i128;
                j = j + 1;
            }
            sums.push(s);
            a = a + 1;
        }
        sums
    }

    /// Per-axis `n * n` times the population variance over the points `point_indices`.
    pub fn scaled_variances(&self, point_indices: &[usize]) -> (r: Vec<i128>)
        requires
            self.points_ok(),
            point_indices@.len() <= MAX_POINTS,
            indices_ok(self.points@, point_indices@, self.params.dimension as nat),
        ensures
            r@.len() == self.params.dimension,
            forall|a: int|
                0 <= a < r@.len() ==> r@[a] == scaled_variance(self.points@, point_indices@, a),
    {
        let dim = self.params.dimension;
        let n = point_indices.len();
        let mut vars: Vec<i128> = Vec::new();
        let mut a: usize = 0;
        while a < dim
            invariant
                0 <= a <= dim,
                dim == self.params.dimension,
                n == point_indices@.len(),
                self.points_ok(),
                n <= MAX_POINTS,
                indices_ok(self.points@, point_indices@, dim as nat),
                vars@.len() == a,
                forall|b: int|
                    0 <= b < a ==> vars@[b] == scaled_variance(self.points@, point_indices@, b),
            decreases dim - a,
        {
            let mut s: i128 = 0;
            let mut sq: i128 = 0;
            let mut j: usize = 0;
            while j < n
                invariant
                    0 <= j <= n,
                    n == point_indices@.len(),
                    0 <= a < dim,
                    dim == self.params.dimension,
                    n <= MAX_POINTS,
                    indices_ok(self.points@, point_indices@, dim as nat),
                    s == axis_sum(self.points@, point_indices@, a as int, j as int),
                    sq == axis_sq_sum(self.points@, point_indices@, a as int, j as int),
                decreases n - j,
            {
                proof {
                    lemma_axis_sum_bounds(self.points@, point_indices@, a as int, j as int + 1, dim as nat);
                }
                let p = point_indices[j];
                let x = self.points[p].coords[a] as i128;
                proof {
                    assert(0 <= x * x <= 0x4000_0000_0000_0000) by (nonlinear_arith)
                        requires
                            -0x8000_0000 <= x <= 0x7fff_ffff,
                    ;
                }
                s = s + x;
                sq = sq + x * x;
                j = j + 1;
            }
            proof {
                lemma_axis_sum_bounds(self.points@, point_indices@, a as int, n as int, dim as nat);
                assert(0 <= (n as int) * sq <= 0x1_0000_0000 * (0x4000_0000_0000_0000 * 0x1_0000_0000))
                    by (nonlinear_arith)
                    requires
                        0 <= sq <= 0x4000_0000_0000_0000 * n,
                        n <= 0x1_0000_0000,
                ;
                let bound: int = 0x8000_0000_0000_0000int;
                assert(-bound <= s <= bound) by (nonlinear_arith)
                    requires
                        -0x8000_0000 * n <= s <= 0x7fff_ffff * n,
                        n <= 0x1_0000_0000,
                        bound == 0x8000_0000_0000_0000int,
                ;
                assert(0 <= s * s <= bound * bound) by (nonlinear_arith)
                    requires
                        -bound <= s <= bound,
                ;
                assert(bound * bound == 0x4000_0000_0000_0000_0000_0000_0000_0000);
            }
            vars.push(n as i128 * sq - s * s);
            a = a + 1;
        }
        vars
    }
}

} // verus!
