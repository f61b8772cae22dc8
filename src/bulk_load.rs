use vstd::prelude::*;
use crate::geometry::{copy_coords, Point, Rect, Sphere, MAX_DIMENSION};
use crate::measure::{ball_holds, ball_within, node_holds, node_reach, saturate, MAX_SQ_DIST};
use crate::select::{dist_le, key_le, lemma_same_elements, lemma_same_elements_no_dup};
use crate::node::{Data, Node};
use crate::params::Params;
use crate::select::{sort_keys, sort_pairs};
use crate::tree::{axis_sum, indices_ok, scaled_variance, ArrayError, Euclidean, Metric, SRTree, MAX_POINTS};

verus! {

/// The group size that repeated doubling-by-fan-out reaches: `p * f^k` for
/// the largest `k` with `2 * p * f^k <= n`.
pub open spec fn grow_size(p: nat, n: nat, f: nat) -> nat
    decreases n - p,
    via grow_size_decreases
{
    if f >= 2 && p >= 1 && 2 * p * f <= n && p < n {
        grow_size(p * f, n, f)
    } else {
        p
    }
}

/// Over at most twice the leaf capacity, groups fit in a leaf.
proof fn lemma_small_size(n: nat, leaf_size: nat, fanout: nat)
    requires
        leaf_size < n <= 2 * leaf_size,
    ensures
        internal_node_size_spec(n, leaf_size, fanout) <= leaf_size,
{
    if n >= 2 * leaf_size {
        if fanout >= 2 {
            assert(2 * leaf_size * fanout > n) by (nonlinear_arith)
                requires
                    fanout >= 2,
                    n == 2 * leaf_size,
                    leaf_size >= 1,
            ;
        }
    }
}

/// Target size of the point groups below a node over `n` points, for leaf
/// capacity `leaf_size` and fan-out target `internal_node_fanout`.
pub open spec fn internal_node_size_spec(n: nat, leaf_size: nat, internal_node_fanout: nat) -> nat {
    if n <= leaf_size {
        n
    } else if n < 2 * leaf_size {
        n / 2
    } else {
        grow_size(leaf_size, n, internal_node_fanout)
    }
}

#[via_fn]
proof fn grow_size_decreases(p: nat, n: nat, f: nat) {
    if f >= 2 && p >= 1 && 2 * p * f <= n && p < n {
        assert(p * f >= p * 2) by (nonlinear_arith)
            requires
                f >= 2,
        ;
        assert(2 * p * f == 2 * (p * f)) by (nonlinear_arith);
    }
}

proof fn lemma_grow_size(p: nat, n: nat, f: nat)
    requires
        1 <= p,
        2 * p <= n,
    ensures
        p <= grow_size(p, n, f),
        2 * grow_size(p, n, f) <= n,
    decreases n - p,
{
    if f >= 2 && p >= 1 && 2 * p * f <= n && p < n {
        assert(p * f >= p * 2) by (nonlinear_arith)
            requires
                f >= 2,
        ;
        assert(2 * p * f == 2 * (p * f)) by (nonlinear_arith);
        lemma_grow_size(p * f, n, f);
    }
}

/// The size of the groups a node over `n` points is split into: half of `n`
/// when `n < 2 * leaf_size`, else `leaf_size * internal_node_fanout^k` for the
/// largest `k` that keeps it at most `n / 2`.
pub fn calculate_internal_node_size(n: usize, leaf_size: usize, internal_node_fanout: usize) -> (r: usize)
    requires
        leaf_size >= 1,
    ensures
        r == internal_node_size_spec(n as nat, leaf_size as nat, internal_node_fanout as nat),
        n > leaf_size ==> 1 <= r < n,
{
    if n <= leaf_size {
        return n;
    }
    if n / 2 < leaf_size {
        return n / 2;
    }
    proof {
        lemma_grow_size(leaf_size as nat, n as nat, internal_node_fanout as nat);
    }
    let mut p = leaf_size;
    if internal_node_fanout < 2 {
        return p;
    }
    while p <= n / 2 / internal_node_fanout && p < n
        invariant
            1 <= p,
            2 * p <= n,
            internal_node_fanout >= 2,
            grow_size(p as nat, n as nat, internal_node_fanout as nat) == grow_size(
                leaf_size as nat,
                n as nat,
                internal_node_fanout as nat,
            ),
        decreases n - p,
    {
        proof {
            assert(p * internal_node_fanout <= n / 2) by (nonlinear_arith)
                requires
                    p <= n / 2 / internal_node_fanout,
                    internal_node_fanout >= 2,
            {
                vstd::arithmetic::div_mod::lemma_fundamental_div_mod((n / 2) as int, internal_node_fanout as int);
                vstd::arithmetic::div_mod::lemma_mod_bound((n / 2) as int, internal_node_fanout as int);
            }
            assert(2 * p * internal_node_fanout == 2 * (p * internal_node_fanout)) by (nonlinear_arith);
            assert(2 * p * internal_node_fanout <= n);
            assert(p * internal_node_fanout >= p * 2) by (nonlinear_arith)
                requires
                    internal_node_fanout >= 2,
            ;
        }
        p = p * internal_node_fanout;
    }
    proof {
        if p < n && 2 * p * internal_node_fanout <= n {
            assert(p <= n / 2 / internal_node_fanout) by (nonlinear_arith)
                requires
                    2 * p * internal_node_fanout <= n,
                    internal_node_fanout >= 2,
            {
                vstd::arithmetic::div_mod::lemma_fundamental_div_mod((n / 2) as int, internal_node_fanout as int);
                vstd::arithmetic::div_mod::lemma_mod_bound((n / 2) as int, internal_node_fanout as int);
                vstd::arithmetic::div_mod::lemma_fundamental_div_mod(n as int, 2);
            }
        }
    }
    p
}

} // verus!

verus! {

pub fn copy_indices(v: &[usize]) -> (r: Vec<usize>)
    ensures
        r@ == v@,
{
    let mut r: Vec<usize> = Vec::new();
    let mut i: usize = 0;
    while i < v.len()
        invariant
            0 <= i <= v@.len(),
            r@ == v@.subrange(0, i as int),
        decreases v@.len() - i,
    {
        r.push(v[i]);
        i = i + 1;
        proof {
            assert(r@ =~= v@.subrange(0, i as int));
        }
    }
    assert(r@ =~= v@);
    r
}

proof fn lemma_floor_in_range(s: int, n: int)
    requires
        n > 0,
        -0x8000_0000 * n <= s <= 0x7fff_ffff * n,
    ensures
        -0x8000_0000 <= s / n <= 0x7fff_ffff,
{
    vstd::arithmetic::div_mod::lemma_fundamental_div_mod(s, n);
    vstd::arithmetic::div_mod::lemma_mod_bound(s, n);
    let q = s / n;
    let r = s % n;
    assert(-0x8000_0000 <= q <= 0x7fff_ffff) by (nonlinear_arith)
        requires
            s == n * q + r,
            0 <= r < n,
            -0x8000_0000 * n <= s <= 0x7fff_ffff * n,
            n > 0,
    ;
}

/// The population variance `scaled / (n * n)`, rounded down and held at zero.
pub open spec fn variance_of(scaled: int, n: int) -> int {
    if scaled < 0 {
        0
    } else {
        scaled / (n * n)
    }
}

impl<M: Metric> SRTree<M> {
    /// The centroid of the points `point_indices`, each coordinate rounded down.
    pub fn mean_point(&self, point_indices: &[usize]) -> (r: Vec<i32>)
        requires
            self.points_ok(),
            point_indices@.len() > 0,
            point_indices@.len() <= MAX_POINTS,
            indices_ok(self.points@, point_indices@, self.params.dimension as nat),
        ensures
            r@.len() == self.params.dimension,
            forall|a: int|
                0 <= a < r@.len() ==> r@[a] == axis_sum(
                    self.points@,
                    point_indices@,
                    a,
                    point_indices@.len() as int,
                ) / (point_indices@.len() as int),
    {
        let sums = self.coordinate_totals(point_indices);
        let n = point_indices.len();
        let mut c: Vec<i32> = Vec::new();
        let mut a: usize = 0;
        while a < sums.len()
            invariant
                0 <= a <= sums@.len(),
                sums@.len() == self.params.dimension,
                n == point_indices@.len(),
                n > 0,
                n <= MAX_POINTS,
                self.points_ok(),
                indices_ok(self.points@, point_indices@, self.params.dimension as nat),
                forall|b: int|
                    0 <= b < sums@.len() ==> sums@[b] == axis_sum(
                        self.points@,
                        point_indices@,
                        b,
                        n as int,
                    ),
                c@.len() == a,
                forall|b: int|
                    0 <= b < a ==> c@[b] == axis_sum(self.points@, point_indices@, b, n as int) / (
                    n as int),
            decreases sums@.len() - a,
        {
            proof {
                crate::tree::lemma_axis_sum_bounds(
                    self.points@,
                    point_indices@,
                    a as int,
                    n as int,
                    self.params.dimension as nat,
                );
                lemma_floor_in_range(sums@[a as int] as int, n as int);
                assert(0x8000_0000 * n <= 0x8000_0000 * 0x1_0000_0000) by (nonlinear_arith)
                    requires
                        n <= 0x1_0000_0000,
                ;
            }
            let q = crate::tree::floor_div(sums[a], n);
            c.push(q as i32);
            a = a + 1;
        }
        c
    }
}


impl<M: Metric> SRTree<M> {
    /// The centroid of the points `point_indices`, each coordinate rounded down.
    pub fn calculate_mean(&self, point_indices: &[usize]) -> (r: Vec<i32>)
        requires
            self.points_ok(),
            point_indices@.len() > 0,
            point_indices@.len() <= MAX_POINTS,
            indices_ok(self.points@, point_indices@, self.params.dimension as nat),
        ensures
            r@.len() == self.params.dimension,
            forall|a: int|
                0 <= a < r@.len() ==> r@[a] == axis_sum(
                    self.points@,
                    point_indices@,
                    a,
                    point_indices@.len() as int,
                ) / (point_indices@.len() as int),
    {
        self.mean_point(point_indices)
    }

    /// The per-axis population variance of the points `point_indices`, rounded
    /// down; a negative value cannot arise but would be held at zero.
    pub fn calculate_points_variance(&self, point_indices: &[usize]) -> (r: Vec<i128>)
        requires
            self.points_ok(),
            point_indices@.len() > 0,
            point_indices@.len() <= MAX_POINTS,
            indices_ok(self.points@, point_indices@, self.params.dimension as nat),
        ensures
            r@.len() == self.params.dimension,
            forall|a: int|
                0 <= a < r@.len() ==> r@[a] == variance_of(
                    scaled_variance(self.points@, point_indices@, a),
                    point_indices@.len() as int,
                ) && r@[a] >= 0,
    {
        let scaled = self.scaled_variances(point_indices);
        let n = point_indices.len() as i128;
        proof {
            assert(0 < n * n <= 0x1_0000_0000 * 0x1_0000_0000) by (nonlinear_arith)
                requires
                    0 < n <= 0x1_0000_0000,
            ;
        }
        let nn: i128 = n * n;
        let mut r: Vec<i128> = Vec::new();
        let mut a: usize = 0;
        while a < scaled.len()
            invariant
                0 <= a <= scaled@.len(),
                nn == n * n,
                n == point_indices@.len(),
                nn > 0,
                r@.len() == a,
                forall|b: int|
                    0 <= b < scaled@.len() ==> scaled@[b] == scaled_variance(self.points@, point_indices@, b),
                forall|b: int|
                    0 <= b < a ==> r@[b] == variance_of(scaled@[b] as int, n as int) && r@[b] >= 0,
            decreases scaled@.len() - a,
        {
            let v = scaled[a];
            if v < 0 {
                r.push(0);
            } else {
                proof {
                    assert(v / nn >= 0) by {
                        vstd::arithmetic::div_mod::lemma_div_pos_is_pos(v as int, nn as int);
                    }
                }
                r.push(v / nn);
            }
            a = a + 1;
        }
        r
    }
}

} // verus!

verus! {

/// What a leaf's reshape establishes of point `p` within leaf `n`: the leaf's
/// box and ball hold it, its radius is its measure from the leaf's
/// center, and its parent is the leaf.
pub open spec fn leaf_point_ok<M: Metric>(nodes: Seq<Node>, pts: Seq<Point>, n: int, p: int) -> bool {
    &&& 0 <= p < pts.len()
    &&& node_holds::<M>(nodes[n], pts[p].coords@)
    &&& pts[p].radius_sq == M::measure(nodes[n].sphere.center.coords@, pts[p].coords@)
    &&& pts[p].parent_index == n
}

/// Coordinate `b` of one of the points `idx[0..m]` is `v`.
pub open spec fn coord_seen(pts: Seq<Point>, idx: Seq<usize>, m: int, b: int, v: i32) -> bool {
    exists|jj: int| 0 <= jj < m && #[trigger] pts[idx[jj] as int].coords@[b] == v
}

/// Bound `b` of the box of one of the nodes `children[0..m]` is `v`: its low
/// end, or with `upper` its high end.
pub open spec fn box_end_seen(nodes: Seq<Node>, children: Seq<usize>, m: int, b: int, v: i32, upper: bool) -> bool {
    exists|t: int|
        0 <= t < m && v == if upper {
            (#[trigger] nodes[children[t] as int]).rect.high@[b]
        } else {
            nodes[children[t] as int].rect.low@[b]
        }
}

/// The leaf's points come in non-increasing order of radius.
pub open spec fn leaf_sorted(nodes: Seq<Node>, pts: Seq<Point>, n: int) -> bool {
    let e = nodes[n].entries();
    forall|i: int, j: int|
        0 <= i <= j < e.len() ==> pts[e[i] as int].radius_sq >= #[trigger] pts[e[j] as int].radius_sq
            && #[trigger] e[i] == e[i]
}

impl<M: Metric> SRTree<M> {
    /// Recomputes a leaf: its center, box and ball from its points, each point's
    /// radius and parent, and the order of its points by descending radius.
    #[verifier::spinoff_prover]
    #[verifier::rlimit(80)]
    fn reshape_leaf(&mut self, node_index: usize)
        requires
            old(self).points_ok(),
            node_index < old(self).nodes@.len(),
            old(self).nodes@[node_index as int].is_leaf_spec(),
            old(self).nodes@[node_index as int].entries().len() > 0,
            old(self).nodes@[node_index as int].entries().len() <= MAX_POINTS,
            old(self).nodes@[node_index as int].entries().no_duplicates(),
            indices_ok(old(self).points@, old(self).nodes@[node_index as int].entries(), old(self).params.dimension as nat),
        ensures
            final(self).points_ok(),
            final(self).params == old(self).params,
            final(self).root_index == old(self).root_index,
            final(self).points@.len() == old(self).points@.len(),
            final(self).nodes@.len() == old(self).nodes@.len(),
            forall|k: int| 0 <= k < final(self).nodes@.len() && k != node_index ==> final(self).nodes@[k] == old(self).nodes@[k],
            forall|p: int|
                0 <= p < final(self).points@.len() && !old(self).nodes@[node_index as int].entries().contains(p as usize)
                    ==> final(self).points@[p] == old(self).points@[p],
            forall|p: int| 0 <= p < final(self).points@.len() ==> (#[trigger] final(self).points@[p]).coords@ == old(self).points@[p].coords@,
            ({
                let nd = final(self).nodes@[node_index as int];
                let od = old(self).nodes@[node_index as int];
                &&& nd.is_leaf_spec()
                &&& forall|x: usize| nd.entries().contains(x) <==> od.entries().contains(x)
                &&& nd.entries().len() == od.entries().len()
                &&& nd.entries().no_duplicates()
                &&& nd.height == od.height
                &&& nd.parent_index == od.parent_index
                &&& nd.rect.low@.len() == final(self).params.dimension
                &&& nd.rect.high@.len() == final(self).params.dimension
                &&& nd.sphere.center.coords@.len() == final(self).params.dimension
                &&& nd.sphere.radius_sq <= MAX_SQ_DIST
                &&& forall|a: int|
                    0 <= a < final(self).params.dimension ==> nd.sphere.center.coords@[a] == axis_sum(
                        old(self).points@,
                        od.entries(),
                        a,
                        od.entries().len() as int,
                    ) / (od.entries().len() as int)
                &&& forall|b: int|
                    0 <= b < final(self).params.dimension ==> (nd.rect.low@[b] == nd.sphere.center.coords@[b]
                        || coord_seen(old(self).points@, od.entries(), od.entries().len() as int, b, nd.rect.low@[b]))
                        && (nd.rect.high@[b] == nd.sphere.center.coords@[b] || coord_seen(
                        old(self).points@,
                        od.entries(),
                        od.entries().len() as int,
                        b,
                        nd.rect.high@[b],
                    ))
                &&& exists|jj: int|
                    0 <= jj < od.entries().len() && nd.sphere.radius_sq == M::measure(
                        nd.sphere.center.coords@,
                        old(self).points@[#[trigger] od.entries()[jj] as int].coords@,
                    )
            }),
            forall|j: int|
                0 <= j < final(self).nodes@[node_index as int].entries().len() ==> leaf_point_ok::<M>(
                    final(self).nodes@,
                    final(self).points@,
                    node_index as int,
                    #[trigger] final(self).nodes@[node_index as int].entries()[j] as int,
                ),
            leaf_sorted(final(self).nodes@, final(self).points@, node_index as int),
    {
        let pts = copy_indices(self.nodes[node_index].points().as_slice());
        let center = self.mean_point(pts.as_slice());
        let dim = self.params.dimension;
        let mut low = copy_coords(center.as_slice());
        let mut high = copy_coords(center.as_slice());
        let mut max_d: u128 = 0;
        let mut pairs: Vec<(u128, usize)> = Vec::new();
        let mut j: usize = 0;
        while j < pts.len()
            invariant
                0 <= j <= pts@.len(),
                self.points_ok(),
                dim == self.params.dimension,
                center@.len() == dim,
                indices_ok(self.points@, pts@, dim as nat),
                low@.len() == dim,
                high@.len() == dim,
                pairs@.len() == j,
                max_d <= MAX_SQ_DIST,
                forall|jj: int, b: int|
                    0 <= jj < j && 0 <= b < dim ==> low@[b] <= #[trigger] self.points@[pts@[jj] as int].coords@[b]
                        <= high@[b],
                forall|jj: int|
                    0 <= jj < j ==> (#[trigger] pairs@[jj]).0 == M::measure(center@, self.points@[pts@[jj] as int].coords@)
                        && pairs@[jj].1 == pts@[jj] && pairs@[jj].0 <= max_d,
                forall|b: int|
                    0 <= b < dim ==> low@[b] == center@[b] || coord_seen(self.points@, pts@, j as int, b, #[trigger] low@[b]),
                forall|b: int|
                    0 <= b < dim ==> high@[b] == center@[b] || coord_seen(self.points@, pts@, j as int, b, #[trigger] high@[b]),
                j > 0 ==> exists|jj: int| 0 <= jj < j && max_d == (#[trigger] pairs@[jj]).0,
                j == 0 ==> max_d == 0,
            decreases pts@.len() - j,
        {
            let p = pts[j];
            proof {
                assert forall|b: int| #![trigger low@[b]] #![trigger high@[b]] 0 <= b < dim implies (low@[b] == center@[b] || coord_seen(
                    self.points@,
                    pts@,
                    j as int + 1,
                    b,
                    low@[b],
                )) && (high@[b] == center@[b] || coord_seen(self.points@, pts@, j as int + 1, b, high@[b])) by {
                    if coord_seen(self.points@, pts@, j as int, b, low@[b]) {
                        let jj = choose|jj: int| 0 <= jj < j && #[trigger] self.points@[pts@[jj] as int].coords@[b] == low@[b];
                    }
                    if coord_seen(self.points@, pts@, j as int, b, high@[b]) {
                        let jj = choose|jj: int| 0 <= jj < j && #[trigger] self.points@[pts@[jj] as int].coords@[b] == high@[b];
                    }
                }
            }
            let mut a: usize = 0;
            while a < dim
                invariant
                    0 <= a <= dim,
                    0 <= j < pts@.len(),
                    p == pts@[j as int],
                    dim == self.params.dimension,
                    indices_ok(self.points@, pts@, dim as nat),
                    low@.len() == dim,
                    high@.len() == dim,
                    forall|jj: int, b: int|
                        0 <= jj < j && 0 <= b < dim ==> low@[b] <= #[trigger] self.points@[pts@[jj] as int].coords@[b]
                            <= high@[b],
                    forall|b: int|
                        0 <= b < a ==> low@[b] <= #[trigger] self.points@[p as int].coords@[b] <= high@[b],
                    center@.len() == dim,
                    forall|b: int|
                        0 <= b < dim ==> low@[b] == center@[b] || coord_seen(self.points@, pts@, j as int + 1, b, #[trigger] low@[b]),
                    forall|b: int|
                        0 <= b < dim ==> high@[b] == center@[b] || coord_seen(self.points@, pts@, j as int + 1, b, #[trigger] high@[b]),
                decreases dim - a,
            {
                let x = self.points[p].coords[a];
                let ghost low0 = low@;
                let ghost high0 = high@;
                proof {
                    assert(self.points@[pts@[j as int] as int].coords@[a as int] == x);
                    assert(coord_seen(self.points@, pts@, j as int + 1, a as int, x));
                }
                if x < low[a] {
                    low.set(a, x);
                }
                if x > high[a] {
                    high.set(a, x);
                }
                proof {
                    assert forall|b: int| #![trigger low@[b]] #![trigger high@[b]] 0 <= b < dim implies (low@[b] == center@[b] || coord_seen(
                        self.points@,
                        pts@,
                        j as int + 1,
                        b,
                        low@[b],
                    )) && (high@[b] == center@[b] || coord_seen(self.points@, pts@, j as int + 1, b, high@[b])) by {
                        if b != a {
                            assert(low@[b] == low0[b]);
                            assert(high@[b] == high0[b]);
                        }
                    }
                }
                a = a + 1;
            }
            let ghost low_after = low@;
            let ghost high_after = high@;
            proof {
                M::lemma_measure_bound(center@, self.points@[p as int].coords@);
            }
            let d = M::measure_between(center.as_slice(), self.points[p].coords.as_slice());
            let ghost old_max = max_d;
            let ghost old_pairs = pairs@;
            if d > max_d {
                max_d = d;
            }
            pairs.push((d, p));
            proof {
                if max_d == d {
                    assert(pairs@[j as int].0 == max_d);
                } else {
                    let jj = choose|jj: int| 0 <= jj < j && old_max == (#[trigger] old_pairs[jj]).0;
                    assert(pairs@[jj] == old_pairs[jj]);
                    assert(pairs@[jj].0 == max_d);
                }
                assert forall|b: int| #![trigger low@[b]] #![trigger high@[b]] 0 <= b < dim implies (low@[b] == center@[b] || coord_seen(
                    self.points@,
                    pts@,
                    j as int + 1,
                    b,
                    low@[b],
                )) && (high@[b] == center@[b] || coord_seen(self.points@, pts@, j as int + 1, b, high@[b])) by {
                    assert(low@[b] == low_after[b]);
                    assert(high@[b] == high_after[b]);
                }
            }
            j = j + 1;
        }
        let ghost pts0 = self.points@;
        let mut k: usize = 0;
        while k < pairs.len()
            invariant
                0 <= k <= pairs@.len(),
                pairs@.len() == pts@.len(),
                self.points_ok(),
                self.params == old(self).params,
                self.nodes == old(self).nodes,
                self.root_index == old(self).root_index,
                self.points@.len() == pts0.len(),
                indices_ok(pts0, pts@, self.params.dimension as nat),
                forall|i: int| 0 <= i < pts0.len() ==> #[trigger] self.points@[i].coords@ == pts0[i].coords@,
                forall|jj: int|
                    0 <= jj < pairs@.len() ==> (#[trigger] pairs@[jj]).0 == M::measure(center@, pts0[pts@[jj] as int].coords@)
                        && pairs@[jj].1 == pts@[jj] && pairs@[jj].0 <= max_d,
                forall|jj: int|
                    0 <= jj < k ==> #[trigger] self.points@[pts@[jj] as int].radius_sq == pairs@[jj].0
                        && self.points@[pts@[jj] as int].parent_index == node_index,
                forall|p: int| 0 <= p < pts0.len() && !pts@.contains(p as usize) ==> #[trigger] self.points@[p] == pts0[p],
            decreases pairs@.len() - k,
        {
            let (d, p) = pairs[k];
            let np = Point {
                coords: copy_coords(self.points[p].coords.as_slice()),
                radius_sq: d,
                index: self.points[p].index,
                parent_index: node_index,
            };
            let ghost prev = self.points@;
            assert(d == pairs@[k as int].0 && p == pairs@[k as int].1);
            assert(p == pts@[k as int]);
            self.points.set(p, np);
            proof {
                assert(self.points@[p as int].radius_sq == d);
                assert(self.points@[p as int].parent_index == node_index);
                assert forall|jj: int|
                    0 <= jj < k + 1 implies #[trigger] self.points@[pts@[jj] as int].radius_sq == pairs@[jj].0
                        && self.points@[pts@[jj] as int].parent_index == node_index by {
                    if pts@[jj] == p {
                        assert(pairs@[jj].0 == M::measure(center@, pts0[p as int].coords@));
                        assert(pairs@[k as int].0 == M::measure(center@, pts0[p as int].coords@));
                    } else {
                        assert(jj < k);
                        assert(prev[pts@[jj] as int].radius_sq == pairs@[jj].0);
                        assert(self.points@[pts@[jj] as int] == prev[pts@[jj] as int]);
                    }
                }
            }
            k = k + 1;
        }
        let ghost unsorted = pairs@;
        proof {
            assert forall|a: int, b: int| 0 <= a < b < unsorted.len() implies unsorted[a] != unsorted[b] by {
                assert(pts@[a] != pts@[b]);
            }
        }
        sort_pairs(&mut pairs);
        proof {
            lemma_same_elements(unsorted, pairs@);
            lemma_same_elements_no_dup(unsorted, pairs@);
        }
        let mut list: Vec<usize> = Vec::new();
        let mut i: usize = pairs.len();
        while i > 0
            invariant
                0 <= i <= pairs@.len(),
                list@.len() == pairs@.len() - i,
                forall|t: int| 0 <= t < list@.len() ==> #[trigger] list@[t] == pairs@[pairs@.len() - 1 - t].1,
            decreases i,
        {
            i = i - 1;
            list.push(pairs[i].1);
        }
        let ghost list_s = list@;
        let old_height = self.nodes[node_index].height;
        let old_parent = self.nodes[node_index].parent_index;
        let node = Node {
            rect: Rect { low, high },
            sphere: Sphere { center: Point::with_coords(center), radius_sq: max_d },
            data: Data::Points(list),
            height: old_height,
            parent_index: old_parent,
        };
        self.nodes.set(node_index, node);
        proof {
            assert(pts@ == old(self).nodes@[node_index as int].entries());
            assert forall|j: int|
                0 <= j < list_s.len() implies leaf_point_ok::<M>(
                    self.nodes@,
                    self.points@,
                    node_index as int,
                    #[trigger] list_s[j] as int,
                ) by {
                let e = pairs@[pairs@.len() - 1 - j];
                assert(pairs@.contains(e));
                assert(unsorted.contains(e));
                let jj = choose|jj: int| 0 <= jj < unsorted.len() && unsorted[jj] == e;
                assert(unsorted[jj] == e);
                let p = pts@[jj];
                assert(list_s[j] == p);
                assert(self.points@[p as int].coords@ == pts0[p as int].coords@);
                assert(0 <= p < self.points@.len());
                assert(self.nodes@[node_index as int].sphere.center.coords@ == center@);
                assert(unsorted[jj].0 == M::measure(center@, pts0[p as int].coords@));
                assert(unsorted[jj].0 <= max_d);
                assert(self.points@[p as int].radius_sq == unsorted[jj].0);
                assert(self.points@[p as int].parent_index == node_index);
                assert(ball_holds::<M>(self.nodes@[node_index as int].sphere, self.points@[p as int].coords@));
                assert forall|b: int| 0 <= b < self.params.dimension implies self.nodes@[node_index as int].rect.low@[b]
                    <= #[trigger] self.points@[p as int].coords@[b] <= self.nodes@[node_index as int].rect.high@[b] by {
                    assert(low@[b] <= old(self).points@[pts@[jj] as int].coords@[b] <= high@[b]);
                }
            }
            assert(self.nodes@[node_index as int].entries() == list_s);
            assert forall|a: int, b: int|
                0 <= a <= b < list_s.len() implies self.points@[list_s[a] as int].radius_sq
                    >= #[trigger] self.points@[list_s[b] as int].radius_sq && #[trigger] list_s[a] == list_s[a] by {
                assert(dist_le(pairs@[pairs@.len() - 1 - b], pairs@[pairs@.len() - 1 - a]));
                assert(leaf_point_ok::<M>(self.nodes@, self.points@, node_index as int, list_s[a] as int));
                assert(leaf_point_ok::<M>(self.nodes@, self.points@, node_index as int, list_s[b] as int));
                let ea = pairs@[pairs@.len() - 1 - a];
                let eb = pairs@[pairs@.len() - 1 - b];
                assert(unsorted.contains(ea));
                assert(unsorted.contains(eb));
            }
            assert forall|a: int, b: int| 0 <= a < b < list_s.len() implies list_s[a] != list_s[b] by {
                let ea = pairs@[pairs@.len() - 1 - a];
                let eb = pairs@[pairs@.len() - 1 - b];
                assert(unsorted.contains(ea));
                assert(unsorted.contains(eb));
                let ia = choose|i: int| 0 <= i < unsorted.len() && unsorted[i] == ea;
                let ib = choose|i: int| 0 <= i < unsorted.len() && unsorted[i] == eb;
                if ea.1 == eb.1 {
                    assert(ia == ib);
                }
            }
            assert forall|x: usize| list_s.contains(x) <==> pts@.contains(x) by {
                if list_s.contains(x) {
                    let t = choose|t: int| 0 <= t < list_s.len() && list_s[t] == x;
                    let e = pairs@[pairs@.len() - 1 - t];
                    assert(pairs@.contains(e));
                    assert(unsorted.contains(e));
                    let jj = choose|jj: int| 0 <= jj < unsorted.len() && unsorted[jj] == e;
                    assert(pts@[jj] == x);
                }
                if pts@.contains(x) {
                    let jj = choose|jj: int| 0 <= jj < pts@.len() && pts@[jj] == x;
                    assert(unsorted.contains(unsorted[jj]));
                    assert(pairs@.contains(unsorted[jj]));
                    let m = choose|m: int| 0 <= m < pairs@.len() && pairs@[m] == unsorted[jj];
                    assert(list_s[pairs@.len() - 1 - m] == x);
                }
            }
        }
    }
}

} // verus!

verus! {

/// The box `[low, high]` covers `r` on every axis of `low`.
pub open spec fn box_covers(low: Seq<i32>, high: Seq<i32>, r: Rect) -> bool {
    forall|b: int| 0 <= b < low.len() ==> low[b] <= r.low@[b] && r.high@[b] <= high[b]
}

/// Node `c` has shapes of dimension `dim`.
pub open spec fn shapes_ok(node: Node, dim: nat) -> bool {
    &&& node.rect.low@.len() == dim
    &&& node.rect.high@.len() == dim
    &&& node.sphere.center.coords@.len() == dim
}

impl<M: Metric> SRTree<M> {
    /// Recomputes an interior node over the points `point_indices` of its
    /// subtree: its center is their centroid, its box covers its children's
    /// boxes and its ball reaches every point its children bound.
    #[verifier::spinoff_prover]
    fn reshape_node(&mut self, node_index: usize, point_indices: &[usize])
        requires
            old(self).points_ok(),
            node_index < old(self).nodes@.len(),
            !old(self).nodes@[node_index as int].is_leaf_spec(),
            forall|j: int|
                0 <= j < old(self).nodes@[node_index as int].entries().len() ==> (#[trigger] old(self).nodes@[node_index as int].entries()[j]) < node_index
                    && shapes_ok(
                    old(self).nodes@[old(self).nodes@[node_index as int].entries()[j] as int],
                    old(self).params.dimension as nat,
                ),
            point_indices@.len() > 0,
            point_indices@.len() <= MAX_POINTS,
            indices_ok(old(self).points@, point_indices@, old(self).params.dimension as nat),
        ensures
            final(self).points == old(self).points,
            final(self).params == old(self).params,
            final(self).root_index == old(self).root_index,
            final(self).nodes@.len() == old(self).nodes@.len(),
            forall|k: int| 0 <= k < final(self).nodes@.len() && k != node_index ==> final(self).nodes@[k] == old(self).nodes@[k],
            final(self).nodes@[node_index as int].entries() == old(self).nodes@[node_index as int].entries(),
            !final(self).nodes@[node_index as int].is_leaf_spec(),
            final(self).nodes@[node_index as int].height == old(self).nodes@[node_index as int].height,
            final(self).nodes@[node_index as int].parent_index == old(self).nodes@[node_index as int].parent_index,
            shapes_ok(final(self).nodes@[node_index as int], final(self).params.dimension as nat),
            forall|a: int|
                0 <= a < final(self).params.dimension ==> final(self).nodes@[node_index as int].sphere.center.coords@[a]
                    == axis_sum(old(self).points@, point_indices@, a, point_indices@.len() as int) / (
                    point_indices@.len() as int),
            forall|j: int|
                0 <= j < old(self).nodes@[node_index as int].entries().len() ==> ball_within::<M>(
                    final(self).nodes@[node_index as int].sphere,
                    old(self).nodes@[#[trigger] old(self).nodes@[node_index as int].entries()[j] as int].sphere,
                ),
            ({
                let nd = final(self).nodes@[node_index as int];
                let e = old(self).nodes@[node_index as int].entries();
                &&& forall|b: int|
                    0 <= b < final(self).params.dimension ==> nd.rect.low@[b] == nd.sphere.center.coords@[b]
                        || box_end_seen(old(self).nodes@, e, e.len() as int, b, #[trigger] nd.rect.low@[b], false)
                &&& forall|b: int|
                    0 <= b < final(self).params.dimension ==> nd.rect.high@[b] == nd.sphere.center.coords@[b]
                        || box_end_seen(old(self).nodes@, e, e.len() as int, b, #[trigger] nd.rect.high@[b], true)
                &&& forall|t: int|
                    0 <= t < e.len() ==> node_reach::<M>(nd.sphere.center.coords@, old(self).nodes@[#[trigger] e[t] as int])
                        <= nd.sphere.radius_sq
                &&& e.len() > 0 ==> exists|t: int|
                    0 <= t < e.len() && nd.sphere.radius_sq == node_reach::<M>(
                        nd.sphere.center.coords@,
                        old(self).nodes@[#[trigger] e[t] as int],
                    )
            }),
            forall|j: int|
                0 <= j < old(self).nodes@[node_index as int].entries().len() ==> box_covers(
                    final(self).nodes@[node_index as int].rect.low@,
                    final(self).nodes@[node_index as int].rect.high@,
                    old(self).nodes@[#[trigger] old(self).nodes@[node_index as int].entries()[j] as int].rect,
                ),
            forall|j: int, p: Seq<i32>|
                0 <= j < old(self).nodes@[node_index as int].entries().len() && p.len() == old(self).params.dimension
                    && #[trigger] node_holds::<M>(old(self).nodes@[old(self).nodes@[node_index as int].entries()[j] as int], p)
                    ==> node_holds::<M>(final(self).nodes@[node_index as int], p),
    {
        let children = copy_indices(self.nodes[node_index].children().as_slice());
        let center = self.mean_point(point_indices);
        let dim = self.params.dimension;
        let cp = Point::with_coords(copy_coords(center.as_slice()));
        let mut low = copy_coords(center.as_slice());
        let mut high = copy_coords(center.as_slice());
        let mut max_d: u128 = 0;
        let mut j: usize = 0;
        while j < children.len()
            invariant
                0 <= j <= children@.len(),
                self.points_ok(),
                self == old(self),
                dim == self.params.dimension,
                children@ == self.nodes@[node_index as int].entries(),
                node_index < self.nodes@.len(),
                forall|t: int|
                    0 <= t < children@.len() ==> (#[trigger] children@[t]) < node_index && shapes_ok(
                        self.nodes@[children@[t] as int],
                        dim as nat,
                    ),
                cp.coords@ == center@,
                center@.len() == dim,
                low@.len() == dim,
                high@.len() == dim,
                forall|t: int|
                    0 <= t < j ==> saturate(
                        M::reach(
                            M::measure(center@, (#[trigger] self.nodes@[children@[t] as int]).sphere.center.coords@) as nat,
                            self.nodes@[children@[t] as int].sphere.radius_sq as nat,
                        ),
                    ) <= max_d,
                forall|t: int| 0 <= t < j ==> box_covers(low@, high@, #[trigger] self.nodes@[children@[t] as int].rect),
                forall|t: int| 0 <= t < j ==> node_reach::<M>(center@, #[trigger] self.nodes@[children@[t] as int]) <= max_d,
                j > 0 ==> exists|t: int| 0 <= t < j && max_d == node_reach::<M>(center@, #[trigger] self.nodes@[children@[t] as int]),
                j == 0 ==> max_d == 0,
                forall|b: int|
                    0 <= b < dim ==> low@[b] == center@[b] || box_end_seen(self.nodes@, children@, j as int, b, #[trigger] low@[b], false),
                forall|b: int|
                    0 <= b < dim ==> high@[b] == center@[b] || box_end_seen(self.nodes@, children@, j as int, b, #[trigger] high@[b], true),
                forall|t: int, p: Seq<i32>|
                    0 <= t < j && #[trigger] node_holds::<M>(self.nodes@[children@[t] as int], p) ==> M::measure(center@, p)
                        <= max_d,
            decreases children@.len() - j,
        {
            let c = children[j];
            let ghost low0 = low@;
            let ghost high0 = high@;
            proof {
                assert forall|b: int| #![trigger low@[b]] #![trigger high@[b]] 0 <= b < dim implies (low@[b] == center@[b]
                    || box_end_seen(self.nodes@, children@, j as int + 1, b, low@[b], false)) && (high@[b] == center@[b]
                    || box_end_seen(self.nodes@, children@, j as int + 1, b, high@[b], true)) by {
                    if box_end_seen(self.nodes@, children@, j as int, b, low@[b], false) {
                        let t = choose|t: int|
                            0 <= t < j && low@[b] == (#[trigger] self.nodes@[children@[t] as int]).rect.low@[b];
                    }
                    if box_end_seen(self.nodes@, children@, j as int, b, high@[b], true) {
                        let t = choose|t: int|
                            0 <= t < j && high@[b] == (#[trigger] self.nodes@[children@[t] as int]).rect.high@[b];
                    }
                }
            }
            let mut a: usize = 0;
            while a < dim
                invariant
                    0 <= a <= dim,
                    0 <= j < children@.len(),
                    c == children@[j as int],
                    dim == self.params.dimension,
                    self == old(self),
                    node_index < self.nodes@.len(),
                    c < node_index,
                    shapes_ok(self.nodes@[c as int], dim as nat),
                    low@.len() == dim,
                    high@.len() == dim,
                    low0.len() == dim,
                    high0.len() == dim,
                    forall|b: int| 0 <= b < dim ==> low@[b] <= #[trigger] low0[b] && high0[b] <= high@[b],
                    forall|b: int|
                        0 <= b < a ==> low@[b] <= #[trigger] self.nodes@[c as int].rect.low@[b]
                            && self.nodes@[c as int].rect.high@[b] <= high@[b],
                    center@.len() == dim,
                    children@ == self.nodes@[node_index as int].entries(),
                    forall|b: int|
                        0 <= b < dim ==> low@[b] == center@[b] || box_end_seen(self.nodes@, children@, j as int + 1, b, #[trigger] low@[b], false),
                    forall|b: int|
                        0 <= b < dim ==> high@[b] == center@[b] || box_end_seen(self.nodes@, children@, j as int + 1, b, #[trigger] high@[b], true),
                decreases dim - a,
            {
                let lo = self.nodes[c].rect.low[a];
                let hi = self.nodes[c].rect.high[a];
                let ghost lowa = low@;
                let ghost higha = high@;
                proof {
                    assert(box_end_seen(self.nodes@, children@, j as int + 1, a as int, lo, false)) by {
                        assert(self.nodes@[children@[j as int] as int].rect.low@[a as int] == lo);
                    }
                    assert(box_end_seen(self.nodes@, children@, j as int + 1, a as int, hi, true)) by {
                        assert(self.nodes@[children@[j as int] as int].rect.high@[a as int] == hi);
                    }
                }
                if lo < low[a] {
                    low.set(a, lo);
                }
                if hi > high[a] {
                    high.set(a, hi);
                }
                proof {
                    assert forall|b: int| #![trigger low@[b]] #![trigger high@[b]] 0 <= b < dim implies (low@[b] == center@[b]
                        || box_end_seen(self.nodes@, children@, j as int + 1, b, low@[b], false)) && (high@[b] == center@[b]
                        || box_end_seen(self.nodes@, children@, j as int + 1, b, high@[b], true)) by {
                        if b != a {
                            assert(low@[b] == lowa[b]);
                            assert(high@[b] == higha[b]);
                        }
                    }
                }
                a = a + 1;
            }
            let d = self.point_to_node_max_distance(&cp, &self.nodes[c]);
            let ghost old_max = max_d;
            if d > max_d {
                max_d = d;
            }
            proof {
                assert(d == node_reach::<M>(center@, self.nodes@[children@[j as int] as int]));
                assert forall|t: int| 0 <= t < j + 1 implies node_reach::<M>(center@, #[trigger] self.nodes@[children@[t] as int]) <= max_d by {
                }
                if max_d != d {
                    let t = choose|t: int| 0 <= t < j && old_max == node_reach::<M>(center@, #[trigger] self.nodes@[children@[t] as int]);
                }
                assert forall|b: int| #![trigger low@[b]] #![trigger high@[b]] 0 <= b < dim implies (low@[b] == center@[b]
                    || box_end_seen(self.nodes@, children@, j as int + 1, b, low@[b], false)) && (high@[b] == center@[b]
                    || box_end_seen(self.nodes@, children@, j as int + 1, b, high@[b], true)) by {
                }
                assert forall|t: int| 0 <= t < j + 1 implies box_covers(low@, high@, #[trigger] self.nodes@[children@[t] as int].rect) by {
                    let r = self.nodes@[children@[t] as int].rect;
                    if t < j {
                        assert(box_covers(low0, high0, r));
                        assert forall|b: int| 0 <= b < low@.len() implies low@[b] <= r.low@[b] && r.high@[b] <= high@[b] by {
                            assert(low@[b] <= low0[b] && high0[b] <= high@[b]);
                        }
                    } else {
                        assert(children@[t] == c);
                        assert forall|b: int| 0 <= b < low@.len() implies low@[b] <= r.low@[b] && r.high@[b] <= high@[b] by {
                            assert(low@[b] <= self.nodes@[c as int].rect.low@[b]);
                        }
                    }
                }
            }
            j = j + 1;
        }
        let ghost old_nodes = self.nodes@;
        let old_height = self.nodes[node_index].height;
        let old_parent = self.nodes[node_index].parent_index;
        let node = Node {
            rect: Rect { low, high },
            sphere: Sphere { center: cp, radius_sq: max_d },
            data: Data::Nodes(children),
            height: old_height,
            parent_index: old_parent,
        };
        self.nodes.set(node_index, node);
        proof {
            assert forall|t: int, p: Seq<i32>|
                0 <= t < children@.len() && p.len() == dim
                    && #[trigger] node_holds::<M>(old_nodes[children@[t] as int], p) implies node_holds::<M>(
                self.nodes@[node_index as int],
                p,
            ) by {
                let ch = old_nodes[children@[t] as int];
                assert(box_covers(low@, high@, ch.rect));
                assert forall|b: int| 0 <= b < p.len() implies self.nodes@[node_index as int].rect.low@[b]
                    <= #[trigger] p[b] <= self.nodes@[node_index as int].rect.high@[b] by {
                    assert(low@[b] <= ch.rect.low@[b]);
                    assert(ch.rect.low@[b] <= p[b]);
                }
            }
        }
    }
}

} // verus!

verus! {

/// The point indices of the pairs `s[lo..hi]`.
pub open spec fn pair_indices(s: Seq<(i32, usize)>, lo: int, hi: int) -> Seq<usize> {
    Seq::new((hi - lo) as nat, |t: int| s[lo + t].1)
}

/// The groups are non-empty, free of duplicates, pairwise disjoint, and
/// together hold exactly the indices of `idx`.
pub open spec fn is_partition(groups: Seq<Vec<usize>>, idx: Seq<usize>) -> bool {
    &&& forall|g: int| 0 <= g < groups.len() ==> (#[trigger] groups[g])@.len() > 0 && groups[g]@.no_duplicates()
    &&& forall|g: int, x: usize| 0 <= g < groups.len() && #[trigger] groups[g]@.contains(x) ==> idx.contains(x)
    &&& forall|x: usize| idx.contains(x) ==> exists|g: int| 0 <= g < groups.len() && #[trigger] groups[g]@.contains(x)
    &&& forall|g1: int, g2: int, x: usize|
        0 <= g1 < groups.len() && 0 <= g2 < groups.len() && g1 != g2 && #[trigger] groups[g1]@.contains(x)
            ==> !#[trigger] groups[g2]@.contains(x)
}

impl<M: Metric> SRTree<M> {
    /// `axis` is an axis of maximal variance over the points `idx` (axis 0
    /// when points have no coordinates).
    pub open spec fn is_split_axis(&self, idx: Seq<usize>, axis: usize) -> bool {
        let dim = self.params.dimension as int;
        &&& dim == 0 ==> axis == 0
        &&& dim > 0 ==> {
            &&& axis < dim
            &&& forall|b: int| 0 <= b < dim ==> #[trigger] scaled_variance(self.points@, idx, b) <= scaled_variance(self.points@, idx, axis as int)
        }
    }

    /// The sort key of point `p` along `axis`: its coordinate there (zero when
    /// points have no such axis), then its index.
    pub open spec fn keyed(&self, p: usize, axis: usize) -> (i32, usize) {
        (if axis < self.params.dimension {
            self.points@[p as int].coords@[axis as int]
        } else {
            0i32
        }, p)
    }

    /// Splits the points into groups along axis `split_dim`: starting from the
    /// largest coordinates, each group takes the next
    /// `calculate_internal_node_size` points, the last one what is left.
    #[verifier::spinoff_prover]
    pub fn partition_points(&self, point_indices: Vec<usize>, split_dim: usize) -> (r: Vec<Vec<usize>>)
        requires
            self.points_ok(),
            point_indices@.len() > 0,
            point_indices@.len() <= MAX_POINTS,
            point_indices@.no_duplicates(),
            indices_ok(self.points@, point_indices@, self.params.dimension as nat),
        ensures
            r@.len() > 0,
            is_partition(r@, point_indices@),
            point_indices@.len() > self.params.max_number_of_elements ==> forall|g: int|
                0 <= g < r@.len() ==> (#[trigger] r@[g])@.len() < point_indices@.len(),
            point_indices@.len() <= self.params.max_number_of_elements ==> r@.len() == 1 && r@[0]@ == point_indices@,
            point_indices@.len() > self.params.max_number_of_elements ==> {
                let size = internal_node_size_spec(
                    point_indices@.len(),
                    self.params.max_number_of_elements as nat,
                    self.params.min_number_of_elements as nat,
                );
                &&& forall|g: int| 0 <= g < r@.len() - 1 ==> (#[trigger] r@[g])@.len() == size
                &&& r@.last()@.len() <= size
                &&& forall|g1: int, g2: int, i: int, j: int|
                    0 <= g1 < g2 < r@.len() && 0 <= i < r@[g1]@.len() && 0 <= j < r@[g2]@.len() ==> key_le(
                        self.keyed(#[trigger] r@[g2]@[j], split_dim),
                        self.keyed(#[trigger] r@[g1]@[i], split_dim),
                    )
            },
    {
        let n = point_indices.len();
        if n <= self.params.max_number_of_elements {
            let mut v: Vec<Vec<usize>> = Vec::new();
            let ghost idx = point_indices@;
            v.push(point_indices);
            proof {
                assert(v@[0]@ == idx);
                assert forall|x: usize| idx.contains(x) implies exists|g: int| 0 <= g < v@.len() && #[trigger] v@[g]@.contains(x) by {
                    assert(v@[0]@.contains(x));
                }
            }
            return v;
        }
        let size = calculate_internal_node_size(
            n,
            self.params.max_number_of_elements,
            self.params.min_number_of_elements,
        );
        let mut pairs: Vec<(i32, usize)> = Vec::new();
        let mut j: usize = 0;
        while j < n
            invariant
                0 <= j <= n,
                n == point_indices@.len(),
                self.points_ok(),
                indices_ok(self.points@, point_indices@, self.params.dimension as nat),
                pairs@.len() == j,
                forall|t: int| 0 <= t < j ==> #[trigger] pairs@[t] == self.keyed(point_indices@[t], split_dim),
            decreases n - j,
        {
            let p = point_indices[j];
            let key: i32 = if split_dim < self.params.dimension {
                self.points[p].coords[split_dim]
            } else {
                0
            };
            pairs.push((key, p));
            j = j + 1;
        }
        let ghost unsorted = pairs@;
        proof {
            assert forall|a: int, b: int| 0 <= a < b < unsorted.len() implies unsorted[a] != unsorted[b] by {
                assert(point_indices@[a] != point_indices@[b]);
            }
        }
        sort_keys(&mut pairs);
        proof {
            lemma_same_elements(unsorted, pairs@);
            lemma_same_elements_no_dup(unsorted, pairs@);
            assert forall|a: int, b: int|
                0 <= a < pairs@.len() && 0 <= b < pairs@.len() && a != b implies (#[trigger] pairs@[a]).1 != (#[trigger] pairs@[b]).1 by {
                assert(unsorted.contains(pairs@[a]));
                assert(unsorted.contains(pairs@[b]));
                let ia = choose|i: int| 0 <= i < unsorted.len() && unsorted[i] == pairs@[a];
                let ib = choose|i: int| 0 <= i < unsorted.len() && unsorted[i] == pairs@[b];
                assert(unsorted[ia] == self.keyed(point_indices@[ia], split_dim));
                assert(unsorted[ib] == self.keyed(point_indices@[ib], split_dim));
                if pairs@[a].1 == pairs@[b].1 {
                    assert(ia == ib);
                    assert(pairs@[a] == pairs@[b]);
                }
            }
        }
        let mut entries: Vec<Vec<usize>> = Vec::new();
        let mut hi: usize = n;
        let ghost mut bounds: Seq<int> = seq![n as int];
        while hi > 0
            invariant
                0 <= hi <= n,
                n == pairs@.len(),
                n == point_indices@.len(),
                1 <= size < n,
                bounds.len() == entries@.len() + 1,
                bounds[0] == n,
                bounds[entries@.len() as int] == hi,
                forall|k: int| 0 <= k < entries@.len() ==> #[trigger] bounds[k + 1] < bounds[k] && 0 <= bounds[k + 1]
                    && bounds[k] - bounds[k + 1] <= size && (bounds[k + 1] > 0 ==> bounds[k] - bounds[k + 1] == size),
                forall|k: int| 0 <= k < entries@.len() ==> (#[trigger] entries@[k])@ == pair_indices(pairs@, bounds[k + 1], bounds[k]),
                size == internal_node_size_spec(n as nat, self.params.max_number_of_elements as nat, self.params.min_number_of_elements as nat),
                forall|i: int| hi <= i < n ==> #[trigger] covered(bounds, entries@.len() as int, i),
            decreases hi,
        {
            let lo: usize = if hi > size { hi - size } else { 0 };
            let mut g: Vec<usize> = Vec::new();
            let mut t: usize = lo;
            while t < hi
                invariant
                    lo <= t <= hi,
                    hi <= pairs@.len(),
                    g@ == pair_indices(pairs@, lo as int, t as int),
                decreases hi - t,
            {
                g.push(pairs[t].1);
                t = t + 1;
                proof {
                    assert(g@ =~= pair_indices(pairs@, lo as int, t as int));
                }
            }
            let ghost old_bounds = bounds;
            let ghost old_len = entries@.len();
            entries.push(g);
            proof {
                bounds = bounds.push(lo as int);
                assert forall|k: int| 0 <= k < entries@.len() implies #[trigger] bounds[k + 1] < bounds[k] && 0 <= bounds[k + 1]
                    && bounds[k] - bounds[k + 1] <= size && (bounds[k + 1] > 0 ==> bounds[k] - bounds[k + 1] == size) by {
                    if k < old_len {
                        assert(bounds[k + 1] == old_bounds[k + 1]);
                        assert(bounds[k] == old_bounds[k]);
                    }
                }
                assert forall|k: int| 0 <= k < entries@.len() implies (#[trigger] entries@[k])@ == pair_indices(pairs@, bounds[k + 1], bounds[k]) by {
                    if k < old_len {
                        assert(bounds[k + 1] == old_bounds[k + 1]);
                        assert(bounds[k] == old_bounds[k]);
                    }
                }
                assert forall|i: int| lo <= i < n implies #[trigger] covered(bounds, entries@.len() as int, i) by {
                    if i < hi {
                        assert(bounds[old_len as int + 1] <= i < bounds[old_len as int]);
                    } else {
                        assert(covered(old_bounds, old_len as int, i));
                        let k = choose|k: int| 0 <= k < old_len && #[trigger] old_bounds[k + 1] <= i < old_bounds[k];
                        assert(bounds[k + 1] == old_bounds[k + 1]);
                        assert(bounds[k] == old_bounds[k]);
                    }
                }
            }
            hi = lo;
        }
        proof {
            lemma_bounds_decreasing(bounds, entries@.len() as int);
            let es = entries@;
            assert forall|g: int| 0 <= g < es.len() implies (#[trigger] es[g])@.len() > 0 && es[g]@.no_duplicates() by {
                assert forall|a: int, b: int| 0 <= a < es[g]@.len() && 0 <= b < es[g]@.len() && a != b implies es[g]@[a] != es[g]@[b] by {
                    assert(es[g]@[a] == pairs@[bounds[g + 1] + a].1);
                    assert(es[g]@[b] == pairs@[bounds[g + 1] + b].1);
                }
            }
            assert forall|g: int, x: usize| 0 <= g < es.len() && #[trigger] es[g]@.contains(x) implies point_indices@.contains(x) by {
                let a = choose|a: int| 0 <= a < es[g]@.len() && es[g]@[a] == x;
                let e = pairs@[bounds[g + 1] + a];
                assert(pairs@.contains(e));
                assert(unsorted.contains(e));
                let i = choose|i: int| 0 <= i < unsorted.len() && unsorted[i] == e;
                assert(unsorted[i] == self.keyed(point_indices@[i], split_dim));
                assert(point_indices@[i] == x);
            }
            assert forall|x: usize| point_indices@.contains(x) implies exists|g: int| 0 <= g < es.len() && #[trigger] es[g]@.contains(x) by {
                let i = choose|i: int| 0 <= i < n && point_indices@[i] == x;
                assert(unsorted.contains(unsorted[i]));
                assert(pairs@.contains(unsorted[i]));
                let m = choose|m: int| 0 <= m < n && pairs@[m] == unsorted[i];
                assert(unsorted[i] == self.keyed(point_indices@[i], split_dim));
                assert(covered(bounds, es.len() as int, m));
                let k = choose|k: int| 0 <= k < es.len() && #[trigger] bounds[k + 1] <= m < bounds[k];
                assert(es[k]@ == pair_indices(pairs@, bounds[k + 1], bounds[k]));
                assert(es[k]@[m - bounds[k + 1]] == x);
                assert(es[k]@.contains(x));
            }
            assert forall|g1: int, g2: int, x: usize|
                0 <= g1 < es.len() && 0 <= g2 < es.len() && g1 != g2 && #[trigger] es[g1]@.contains(x)
                    implies !#[trigger] es[g2]@.contains(x) by {
                if es[g2]@.contains(x) {
                    let a = choose|a: int| 0 <= a < es[g1]@.len() && es[g1]@[a] == x;
                    let b = choose|b: int| 0 <= b < es[g2]@.len() && es[g2]@[b] == x;
                    let pa = bounds[g1 + 1] + a;
                    let pb = bounds[g2 + 1] + b;
                    assert(pairs@[pa].1 == x);
                    assert(pairs@[pb].1 == x);
                    if g1 < g2 {
                        assert(bounds[g2] <= bounds[g1 + 1]);
                    } else {
                        assert(bounds[g1] <= bounds[g2 + 1]);
                    }
                }
            }
            assert forall|g: int| 0 <= g < es.len() implies (#[trigger] es[g])@.len() < point_indices@.len() by {
            }
            assert(es.len() > 0);
            assert forall|g: int| 0 <= g < es.len() - 1 implies (#[trigger] es[g])@.len() == size by {
                assert(bounds[(g + 1) + 1] < bounds[g + 1]);
                assert(bounds[(g + 1) + 1] >= bounds[es.len() as int]);
            }
            assert(es.last() == es[es.len() - 1]);
            assert forall|g1: int, g2: int, i: int, j: int|
                0 <= g1 < g2 < es.len() && 0 <= i < es[g1]@.len() && 0 <= j < es[g2]@.len() implies key_le(
                    self.keyed(#[trigger] es[g2]@[j], split_dim),
                    self.keyed(#[trigger] es[g1]@[i], split_dim),
                ) by {
                let pa = bounds[g1 + 1] + i;
                let pb = bounds[g2 + 1] + j;
                assert(bounds[g2] <= bounds[g1 + 1]);
                assert(key_le(pairs@[pb], pairs@[pa]));
                assert(unsorted.contains(pairs@[pa]));
                assert(unsorted.contains(pairs@[pb]));
                let ia = choose|t: int| 0 <= t < unsorted.len() && unsorted[t] == pairs@[pa];
                let ib = choose|t: int| 0 <= t < unsorted.len() && unsorted[t] == pairs@[pb];
                assert(unsorted[ia] == self.keyed(point_indices@[ia], split_dim));
                assert(unsorted[ib] == self.keyed(point_indices@[ib], split_dim));
                assert(es[g1]@[i] == pairs@[pa].1);
                assert(es[g2]@[j] == pairs@[pb].1);
            }
        }
        entries
    }
}

/// Position `i` falls in one of the first `m` groups.
pub open spec fn covered(bounds: Seq<int>, m: int, i: int) -> bool {
    exists|k: int| 0 <= k < m && #[trigger] bounds[k + 1] <= i < bounds[k]
}

/// The bounds of the groups decrease: a later group lies wholly before an earlier one.
proof fn lemma_bounds_decreasing(bounds: Seq<int>, m: int)
    requires
        bounds.len() == m + 1,
        forall|k: int| 0 <= k < m ==> #[trigger] bounds[k + 1] < bounds[k],
    ensures
        forall|a: int, b: int| 0 <= a <= b <= m ==> #[trigger] bounds[b] <= #[trigger] bounds[a],
    decreases m,
{
    if m > 0 {
        let prefix = bounds.drop_last();
        assert forall|k: int| 0 <= k < m - 1 implies #[trigger] prefix[k + 1] < prefix[k] by {
            assert(prefix[k + 1] == bounds[k + 1]);
            assert(prefix[k] == bounds[k]);
        }
        lemma_bounds_decreasing(prefix, m - 1);
        assert forall|a: int, b: int| 0 <= a <= b <= m implies #[trigger] bounds[b] <= #[trigger] bounds[a] by {
            if b == m && a < m {
                assert(prefix[m - 1] <= prefix[a]);
                assert(bounds[(m - 1) + 1] < bounds[m - 1]);
            } else if b < m {
                assert(prefix[b] <= prefix[a]);
            }
        }
    }
}

} // verus!

verus! {

/// Point `p` lies in the subtree of node `n`.
pub open spec fn in_subtree(nodes: Seq<Node>, n: int, p: int) -> bool
    decreases n,
{
    if 0 <= n < nodes.len() {
        if nodes[n].is_leaf_spec() {
            0 <= p <= usize::MAX && nodes[n].entries().contains(p as usize)
        } else {
            exists|j: int|
                0 <= j < nodes[n].entries().len() && 0 <= #[trigger] nodes[n].entries()[j] < n
                    && in_subtree(nodes, nodes[n].entries()[j] as int, p)
        }
    } else {
        false
    }
}

/// `h + 1`, held at `usize::MAX`.
pub open spec fn next_height(h: usize) -> usize {
    if h < usize::MAX {
        (h + 1) as usize
    } else {
        h
    }
}

/// A leaf has height 1; an interior node is one above its deepest child.
pub open spec fn height_ok(nodes: Seq<Node>, n: int) -> bool {
    let node = nodes[n];
    let e = node.entries();
    &&& node.is_leaf_spec() ==> node.height == 1
    &&& !node.is_leaf_spec() ==> exists|j: int|
        0 <= j < e.len() && node.height == next_height(nodes[#[trigger] e[j] as int].height) && forall|i: int|
            0 <= i < e.len() ==> nodes[#[trigger] e[i] as int].height <= nodes[e[j] as int].height
}

/// Nodes before `bound` hold the same entries in both arenas.
pub open spec fn same_structure(a: Seq<Node>, b: Seq<Node>, bound: int) -> bool {
    &&& bound <= a.len()
    &&& bound <= b.len()
    &&& forall|k: int|
        0 <= k < bound ==> (#[trigger] a[k]).is_leaf_spec() == b[k].is_leaf_spec() && a[k].entries()
            == b[k].entries()
}

pub proof fn lemma_in_subtree_frame(a: Seq<Node>, b: Seq<Node>, bound: int, n: int, p: int)
    requires
        same_structure(a, b, bound),
        0 <= n < bound,
    ensures
        in_subtree(a, n, p) == in_subtree(b, n, p),
    decreases n,
{
    assert(a[n].is_leaf_spec() == b[n].is_leaf_spec());
    if !a[n].is_leaf_spec() {
        let e = a[n].entries();
        assert(e == b[n].entries());
        assert forall|j: int| 0 <= j < e.len() && 0 <= #[trigger] e[j] < n implies in_subtree(a, e[j] as int, p)
            == in_subtree(b, e[j] as int, p) by {
            lemma_in_subtree_frame(a, b, bound, e[j] as int, p);
        }
    }
}

impl<M: Metric> SRTree<M> {
    /// What holds of node `n` throughout construction: its shapes have the
    /// tree's dimension; it holds indices of points (a leaf) or of earlier
    /// nodes; its box and ball hold every point of its subtree; a leaf's points
    /// carry their radius and parent and come by descending radius; a node with
    /// a parent is among that parent's children.
    pub open spec fn node_inv(&self, n: int) -> bool {
        let node = self.nodes@[n];
        &&& shapes_ok(node, self.params.dimension as nat)
        &&& node.entries().len() > 0
        &&& node.is_leaf_spec() ==> node.entries().len() <= self.params.max_number_of_elements
        &&& node.entries().no_duplicates()
        &&& height_ok(self.nodes@, n)
        &&& !node.is_leaf_spec() ==> forall|j: int|
            0 <= j < node.entries().len() ==> box_covers(
                node.rect.low@,
                node.rect.high@,
                self.nodes@[#[trigger] node.entries()[j] as int].rect,
            )
        &&& node.is_leaf_spec() ==> forall|a: int|
            0 <= a < self.params.dimension ==> #[trigger] node.sphere.center.coords@[a] == axis_sum(
                self.points@,
                node.entries(),
                a,
                node.entries().len() as int,
            ) / (node.entries().len() as int)
        &&& node.is_leaf_spec() ==> exists|j: int|
            0 <= j < node.entries().len() && node.sphere.radius_sq == M::measure(
                node.sphere.center.coords@,
                self.points@[#[trigger] node.entries()[j] as int].coords@,
            )
        &&& !node.is_leaf_spec() ==> forall|j: int|
            0 <= j < node.entries().len() ==> ball_within::<M>(node.sphere, self.nodes@[#[trigger] node.entries()[j] as int].sphere)
        &&& !node.is_leaf_spec() ==> forall|j: int|
            0 <= j < node.entries().len() ==> self.nodes@[#[trigger] node.entries()[j] as int].parent_index == n
        &&& node.is_leaf_spec() ==> forall|j: int|
            0 <= j < node.entries().len() ==> leaf_point_ok::<M>(
                self.nodes@,
                self.points@,
                n,
                #[trigger] node.entries()[j] as int,
            )
        &&& node.is_leaf_spec() ==> leaf_sorted(self.nodes@, self.points@, n)
        &&& !node.is_leaf_spec() ==> forall|j: int| 0 <= j < node.entries().len() ==> #[trigger] node.entries()[j] < n
        &&& forall|p: int|
            0 <= p < self.points@.len() && #[trigger] in_subtree(self.nodes@, n, p) ==> node_holds::<M>(
                node,
                self.points@[p].coords@,
            )
        &&& node.parent_index != usize::MAX ==> {
            &&& node.parent_index < self.nodes@.len()
            &&& !self.nodes@[node.parent_index as int].is_leaf_spec()
            &&& self.nodes@[node.parent_index as int].entries().contains(n as usize)
        }
    }

    pub open spec fn build_ok(&self) -> bool {
        &&& self.points_ok()
        &&& forall|n: int| 0 <= n < self.nodes@.len() ==> #[trigger] self.node_inv(n)
    }
}

} // verus!

verus! {

/// Invariants of earlier nodes survive appending nodes and changing points that
/// no leaf has claimed yet.
proof fn lemma_keep_node_inv<M: Metric>(a: SRTree<M>, b: SRTree<M>, bound: int, np: int)
    requires
        a.build_ok(),
        b.points_ok(),
        a.params == b.params,
        bound == a.nodes@.len(),
        bound <= b.nodes@.len(),
        b.nodes@.len() <= usize::MAX,
        a.points@.len() == b.points@.len(),
        forall|k: int|
            0 <= k < bound ==> (#[trigger] b.nodes@[k]).rect == a.nodes@[k].rect && b.nodes@[k].sphere
                == a.nodes@[k].sphere && b.nodes@[k].is_leaf_spec() == a.nodes@[k].is_leaf_spec()
                && b.nodes@[k].entries() == a.nodes@[k].entries() && b.nodes@[k].height == a.nodes@[k].height,
        forall|k: int|
            0 <= k < bound ==> (#[trigger] b.nodes@[k]).parent_index == a.nodes@[k].parent_index || (
            b.nodes@[k].parent_index == np && 0 <= np < b.nodes@.len() && !b.nodes@[np].is_leaf_spec()
                && b.nodes@[np].entries().contains(k as usize) && a.nodes@[k].parent_index == usize::MAX),
        forall|p: int| 0 <= p < a.points@.len() ==> (#[trigger] b.points@[p]).coords@ == a.points@[p].coords@,
        forall|p: int|
            0 <= p < a.points@.len() && (#[trigger] a.points@[p]).parent_index != usize::MAX ==> b.points@[p]
                == a.points@[p],
    ensures
        forall|n: int| 0 <= n < bound ==> #[trigger] b.node_inv(n),
{
    assert(same_structure(a.nodes@, b.nodes@, bound));
    assert forall|n: int| 0 <= n < bound implies #[trigger] b.node_inv(n) by {
        assert(a.node_inv(n));
        let node = a.nodes@[n];
        let bn = b.nodes@[n];
        assert(bn.entries() == node.entries());
        if !node.is_leaf_spec() {
            let e = node.entries();
            let j = choose|j: int|
                0 <= j < e.len() && node.height == next_height(a.nodes@[#[trigger] e[j] as int].height) && forall|i: int|
                    0 <= i < e.len() ==> a.nodes@[#[trigger] e[i] as int].height <= a.nodes@[e[j] as int].height;
            assert(e[j] < n);
            assert forall|i: int| 0 <= i < e.len() implies b.nodes@[#[trigger] e[i] as int].height <= b.nodes@[e[j] as int].height by {
                assert(e[i] < n);
            }
            assert(height_ok(b.nodes@, n));
            assert forall|j: int| 0 <= j < bn.entries().len() implies b.nodes@[#[trigger] bn.entries()[j] as int].parent_index == n by {
                let c = node.entries()[j] as int;
                assert(c < n);
                assert(a.nodes@[c].parent_index == n);
            }
        }

        if node.is_leaf_spec() {
            assert forall|j: int| 0 <= j < bn.entries().len() implies leaf_point_ok::<M>(
                b.nodes@,
                b.points@,
                n,
                #[trigger] bn.entries()[j] as int,
            ) by {
                let p = node.entries()[j] as int;
                assert(leaf_point_ok::<M>(a.nodes@, a.points@, n, p));
                assert(b.points@[p] == a.points@[p]);
            }
            assert forall|a2: int| 0 <= a2 < b.params.dimension implies #[trigger] bn.sphere.center.coords@[a2] == axis_sum(
                b.points@,
                bn.entries(),
                a2,
                bn.entries().len() as int,
            ) / (bn.entries().len() as int) by {
                crate::tree::lemma_axis_sum_coords(b.points@, a.points@, bn.entries(), a2, bn.entries().len() as int);
            }
            assert forall|i: int, j: int|
                0 <= i <= j < bn.entries().len() implies b.points@[bn.entries()[i] as int].radius_sq
                    >= #[trigger] b.points@[bn.entries()[j] as int].radius_sq && #[trigger] bn.entries()[i] == bn.entries()[i] by {
                assert(leaf_point_ok::<M>(a.nodes@, a.points@, n, node.entries()[i] as int));
                assert(leaf_point_ok::<M>(a.nodes@, a.points@, n, node.entries()[j] as int));
                assert(a.points@[node.entries()[i] as int].radius_sq >= a.points@[node.entries()[j] as int].radius_sq);
            }
        }
        assert forall|p: int|
            0 <= p < b.points@.len() && #[trigger] in_subtree(b.nodes@, n, p) implies node_holds::<M>(
            b.nodes@[n],
            b.points@[p].coords@,
        ) by {
            lemma_in_subtree_frame(a.nodes@, b.nodes@, bound, n, p);
        }
        if bn.parent_index != usize::MAX && bn.parent_index == node.parent_index {
            let q = node.parent_index as int;
            assert(0 <= q < bound);
            assert(b.nodes@[q].entries() == a.nodes@[q].entries());
        }
    }
}

} // verus!

verus! {

/// An axis of maximal variance (the last one met); 0 when there is no axis.
pub fn max_variance_axis(variances: &Vec<i128>) -> (r: usize)
    ensures
        variances@.len() == 0 ==> r == 0,
        variances@.len() > 0 ==> {
            &&& r < variances@.len()
            &&& forall|a: int| 0 <= a < variances@.len() ==> #[trigger] variances@[a] <= variances@[r as int]
            &&& forall|a: int| r < a < variances@.len() ==> #[trigger] variances@[a] < variances@[r as int]
        },
{
    let mut best: usize = 0;
    let mut a: usize = 1;
    while a < variances.len()
        invariant
            variances@.len() > 0 ==> 1 <= a <= variances@.len() && best < a,
            variances@.len() == 0 ==> best == 0,
            variances@.len() > 0 ==> forall|b: int| 0 <= b < a ==> #[trigger] variances@[b] <= variances@[best as int],
            variances@.len() > 0 ==> forall|b: int| best < b < a ==> #[trigger] variances@[b] < variances@[best as int],
        decreases variances@.len() - a,
    {
        if variances[a] >= variances[best] {
            best = a;
        }
        a = a + 1;
    }
    best
}

impl<M: Metric> SRTree<M> {
    /// Splits the points along an axis of maximal variance (axis 0 when points
    /// have no coordinates).
    fn create_entries(&self, point_indices: Vec<usize>) -> (r: Vec<Vec<usize>>)
        requires
            self.points_ok(),
            point_indices@.len() > 0,
            point_indices@.len() <= MAX_POINTS,
            point_indices@.no_duplicates(),
            indices_ok(self.points@, point_indices@, self.params.dimension as nat),
        ensures
            r@.len() > 0,
            is_partition(r@, point_indices@),
            point_indices@.len() > self.params.max_number_of_elements ==> forall|g: int|
                0 <= g < r@.len() ==> (#[trigger] r@[g])@.len() < point_indices@.len(),
            point_indices@.len() > self.params.max_number_of_elements ==> {
                let size = internal_node_size_spec(
                    point_indices@.len(),
                    self.params.max_number_of_elements as nat,
                    self.params.min_number_of_elements as nat,
                );
                &&& forall|g: int| 0 <= g < r@.len() - 1 ==> (#[trigger] r@[g])@.len() == size
                &&& r@.last()@.len() <= size
            },
            point_indices@.len() > self.params.max_number_of_elements ==> exists|axis: usize|
                self.is_split_axis(point_indices@, axis) && forall|g1: int, g2: int, i: int, j: int|
                    0 <= g1 < g2 < r@.len() && 0 <= i < r@[g1]@.len() && 0 <= j < r@[g2]@.len() ==> key_le(
                        self.keyed(#[trigger] r@[g2]@[j], axis),
                        self.keyed(#[trigger] r@[g1]@[i], axis),
                    ),
    {
        let variances = self.scaled_variances(point_indices.as_slice());
        let split_dim = max_variance_axis(&variances);
        proof {
            let idx = point_indices@;
            let dim = self.params.dimension as int;
            assert(variances@.len() == dim);
            if dim > 0 {
                assert(variances@[split_dim as int] == scaled_variance(self.points@, idx, split_dim as int));
                assert forall|b: int| 0 <= b < dim implies #[trigger] scaled_variance(self.points@, idx, b)
                    <= scaled_variance(self.points@, idx, split_dim as int) by {
                    assert(variances@[b] == scaled_variance(self.points@, idx, b));
                    assert(variances@[b] <= variances@[split_dim as int]);
                }
            }
            assert(self.is_split_axis(point_indices@, split_dim));
        }
        self.partition_points(point_indices, split_dim)
    }

    /// Appends `node` to the arena and returns its index.
    pub fn add_node(&mut self, node: Node) -> (r: usize)
        ensures
            r == old(self).nodes@.len(),
            final(self).nodes@ == old(self).nodes@.push(node),
            final(self).points == old(self).points,
            final(self).params == old(self).params,
            final(self).root_index == old(self).root_index,
    {
        let index = self.nodes.len();
        self.nodes.push(node);
        index
    }
}

} // verus!

verus! {

impl<M: Metric> SRTree<M> {
    /// Builds a subtree over the points `point_indices` and returns its root:
    /// a leaf when they fit in one, else an interior node over the subtrees of
    /// the groups `create_entries` splits them into.
    #[verifier::spinoff_prover]
    pub fn bulk_load(&mut self, point_indices: Vec<usize>) -> (r: usize)
        requires
            old(self).build_ok(),
            point_indices@.len() <= MAX_POINTS,
            point_indices@.no_duplicates(),
            indices_ok(old(self).points@, point_indices@, old(self).params.dimension as nat),
            forall|j: int|
                0 <= j < point_indices@.len() ==> old(self).points@[#[trigger] point_indices@[j] as int].parent_index
                    == usize::MAX,
        ensures
            point_indices@.len() == 0 ==> r == usize::MAX && *final(self) == *old(self),
            point_indices@.len() > 0 ==> r == final(self).nodes@.len() - 1,
            old(self).params.max_number_of_elements < point_indices@.len() <= 2 * old(self).params.max_number_of_elements
                ==> forall|k: int|
                old(self).nodes@.len() <= k < final(self).nodes@.len() && k != r ==> (#[trigger] final(self).nodes@[k]).is_leaf_spec(),
            old(self).params.max_number_of_elements < point_indices@.len() <= 2 * old(self).params.max_number_of_elements
                ==> !final(self).nodes@[r as int].is_leaf_spec() && forall|j: int|
                0 <= j < final(self).nodes@[r as int].entries().len() ==> final(self).nodes@[
                    #[trigger] final(self).nodes@[r as int].entries()[j] as int
                ].is_leaf_spec(),
            0 < point_indices@.len() <= old(self).params.max_number_of_elements ==> {
                &&& final(self).nodes@.len() == old(self).nodes@.len() + 1
                &&& final(self).nodes@[r as int].is_leaf_spec()
                &&& final(self).nodes@[r as int].height == 1
            },
            final(self).build_ok(),
            final(self).params == old(self).params,
            final(self).root_index == old(self).root_index,
            final(self).points@.len() == old(self).points@.len(),
            point_indices@.len() > 0 ==> old(self).nodes@.len() <= r < final(self).nodes@.len(),
            forall|k: int| 0 <= k < old(self).nodes@.len() ==> #[trigger] final(self).nodes@[k] == old(self).nodes@[k],
            forall|p: int|
                0 <= p < old(self).points@.len() ==> (#[trigger] final(self).points@[p]).coords@ == old(self).points@[p].coords@,
            forall|p: int|
                0 <= p < old(self).points@.len() && !point_indices@.contains(p as usize) ==> #[trigger] final(self).points@[p]
                    == old(self).points@[p],
            point_indices@.len() > 0 ==> forall|p: int|
                #[trigger] in_subtree(final(self).nodes@, r as int, p) <==> (0 <= p <= usize::MAX && point_indices@.contains(
                    p as usize,
                )),
            point_indices@.len() > 0 ==> final(self).nodes@[r as int].parent_index == usize::MAX,
            forall|k: int|
                old(self).nodes@.len() <= k < final(self).nodes@.len() && k != r ==> (#[trigger] final(self).nodes@[k]).parent_index
                    != usize::MAX,
        decreases point_indices@.len(),
    {
        let ghost idx = point_indices@;
        let ghost old_len = self.nodes@.len();
        if point_indices.len() == 0 {
            return usize::MAX;
        }
        if point_indices.len() <= self.params.max_number_of_elements {
            let leaf = Node::new_leaf(point_indices);
            let leaf_index = self.add_node(leaf);
            self.reshape_leaf(leaf_index);
            let len = self.nodes.len();
            proof {
                lemma_keep_node_inv(*old(self), *self, old_len as int, 0);
                let node = self.nodes@[leaf_index as int];
                assert forall|p: int|
                    0 <= p < self.points@.len() && #[trigger] in_subtree(self.nodes@, leaf_index as int, p) implies node_holds::<M>(
                    node,
                    self.points@[p].coords@,
                ) by {
                    let j = choose|j: int| 0 <= j < node.entries().len() && node.entries()[j] == p as usize;
                    assert(leaf_point_ok::<M>(self.nodes@, self.points@, leaf_index as int, node.entries()[j] as int));
                }
                assert forall|a2: int| 0 <= a2 < self.params.dimension implies #[trigger] node.sphere.center.coords@[a2] == axis_sum(
                    self.points@,
                    node.entries(),
                    a2,
                    node.entries().len() as int,
                ) / (node.entries().len() as int) by {
                    crate::tree::lemma_axis_sum_reorder(old(self).points@, idx, node.entries(), a2);
                    crate::tree::lemma_axis_sum_coords(old(self).points@, self.points@, node.entries(), a2, node.entries().len() as int);
                }
                let jj = choose|jj: int|
                    0 <= jj < idx.len() && node.sphere.radius_sq == M::measure(
                        node.sphere.center.coords@,
                        old(self).points@[#[trigger] idx[jj] as int].coords@,
                    );
                assert(idx.contains(idx[jj]));
                assert(node.entries().contains(idx[jj]));
                let j2 = choose|j2: int| 0 <= j2 < node.entries().len() && node.entries()[j2] == idx[jj];
                assert(self.points@[node.entries()[j2] as int].coords@ == old(self).points@[idx[jj] as int].coords@);
                assert(self.node_inv(leaf_index as int));
                assert forall|n: int| 0 <= n < self.nodes@.len() implies #[trigger] self.node_inv(n) by {
                    if n < old_len {
                    }
                }
            }
            return leaf_index;
        }
        let all = copy_indices(point_indices.as_slice());
        proof {
            assert forall|j: int| 0 <= j < idx.len() implies old(self).points@[#[trigger] idx[j] as int].parent_index
                == usize::MAX by {
                assert(point_indices@[j] == idx[j]);
            }
        }
        let groups = self.create_entries(copy_indices(point_indices.as_slice()));
        let count0 = self.nodes.len();
        proof {
            if idx.len() <= 2 * self.params.max_number_of_elements {
                lemma_small_size(idx.len(), self.params.max_number_of_elements as nat, self.params.min_number_of_elements as nat);
                assert forall|t: int| 0 <= t < groups@.len() implies (#[trigger] groups@[t])@.len()
                    <= self.params.max_number_of_elements by {
                    if t == groups@.len() - 1 {
                        assert(groups@.last() == groups@[t]);
                    }
                }
            }
        }
        let mut children: Vec<usize> = Vec::new();
        let mut max_h: usize = 0;
        let mut g: usize = 0;
        while g < groups.len()
            invariant
                0 <= g <= groups@.len(),
                all@ == idx,
                point_indices@ == idx,
                idx.len() > self.params.max_number_of_elements,
                idx.len() <= MAX_POINTS,
                indices_ok(old(self).points@, idx, old(self).params.dimension as nat),
                forall|j: int| 0 <= j < idx.len() ==> old(self).points@[#[trigger] idx[j] as int].parent_index == usize::MAX,
                is_partition(groups@, idx),
                forall|t: int| 0 <= t < groups@.len() ==> (#[trigger] groups@[t])@.len() < idx.len(),
                self.build_ok(),
                self.params == old(self).params,
                self.root_index == old(self).root_index,
                self.points@.len() == old(self).points@.len(),
                old_len <= self.nodes@.len() <= usize::MAX,
                old_len == old(self).nodes@.len(),
                forall|k: int| 0 <= k < old_len ==> #[trigger] self.nodes@[k] == old(self).nodes@[k],
                forall|p: int|
                    0 <= p < old(self).points@.len() ==> (#[trigger] self.points@[p]).coords@ == old(self).points@[p].coords@,
                forall|p: int|
                    0 <= p < old(self).points@.len() && (forall|t: int| 0 <= t < g ==> !(#[trigger] groups@[t])@.contains(p as usize))
                        ==> #[trigger] self.points@[p] == old(self).points@[p],
                children@.len() == g,
                children@.no_duplicates(),
                forall|t: int| 0 <= t < g ==> old_len <= #[trigger] children@[t] < self.nodes@.len(),
                forall|t: int| 0 <= t < g ==> self.nodes@[#[trigger] children@[t] as int].parent_index == usize::MAX,
                idx.len() <= 2 * self.params.max_number_of_elements ==> forall|t: int|
                    0 <= t < groups@.len() ==> (#[trigger] groups@[t])@.len() <= self.params.max_number_of_elements,
                idx.len() <= 2 * self.params.max_number_of_elements ==> forall|t: int|
                    0 <= t < g ==> self.nodes@[#[trigger] children@[t] as int].is_leaf_spec(),
                idx.len() <= 2 * self.params.max_number_of_elements ==> forall|k: int|
                    old_len <= k < self.nodes@.len() ==> (#[trigger] self.nodes@[k]).is_leaf_spec(),
                forall|t: int, p: int|
                    0 <= t < g ==> (#[trigger] in_subtree(self.nodes@, children@[t] as int, p) <==> (0 <= p <= usize::MAX
                        && groups@[t]@.contains(p as usize))),
                forall|k: int|
                    old_len <= k < self.nodes@.len() && (#[trigger] self.nodes@[k]).parent_index == usize::MAX
                        ==> children@.contains(k as usize),
                forall|t: int| 0 <= t < g ==> self.nodes@[#[trigger] children@[t] as int].height <= max_h,
                g > 0 ==> exists|t: int| 0 <= t < g && self.nodes@[#[trigger] children@[t] as int].height == max_h,
            decreases groups@.len() - g,
        {
            let grp = copy_indices(groups[g].as_slice());
            let ghost pre = *self;
            proof {
                assert forall|j: int| 0 <= j < grp@.len() implies (#[trigger] grp@[j]) < self.points@.len()
                    && self.points@[grp@[j] as int].coords@.len() == self.params.dimension by {
                    assert(groups@[g as int]@[j] == grp@[j]);
                    assert(groups@[g as int]@.contains(grp@[j]));
                    assert(idx.contains(grp@[j]));
                    let i = choose|i: int| 0 <= i < idx.len() && idx[i] == grp@[j];
                    assert(idx[i] < old(self).points@.len());
                    assert(self.points@[idx[i] as int].coords@ == old(self).points@[idx[i] as int].coords@);
                }
                assert forall|j: int| 0 <= j < grp@.len() implies self.points@[#[trigger] grp@[j] as int].parent_index
                    == usize::MAX by {
                    let p = grp@[j];
                    assert(groups@[g as int]@[j] == p);
                    assert(groups@[g as int]@.contains(p));
                    assert(idx.contains(p));
                    assert forall|t: int| 0 <= t < g implies !(#[trigger] groups@[t])@.contains(p) by {
                        assert(groups@[g as int]@.contains(p));
                    }
                    let i = choose|i: int| 0 <= i < idx.len() && idx[i] == p;
                    assert(old(self).points@[idx[i] as int].parent_index == usize::MAX);
                    assert(self.points@[p as int] == old(self).points@[p as int]);
                }
            }
            assert(grp@.len() < idx.len());
            let c = self.bulk_load(grp);
            let len = self.nodes.len();
            proof {
                assert forall|t: int, p: int|
                    0 <= t < g implies (#[trigger] in_subtree(self.nodes@, children@[t] as int, p) <==> (0 <= p <= usize::MAX
                        && groups@[t]@.contains(p as usize))) by {
                    assert(same_structure(pre.nodes@, self.nodes@, pre.nodes@.len() as int));
                    lemma_in_subtree_frame(pre.nodes@, self.nodes@, pre.nodes@.len() as int, children@[t] as int, p);
                }
                assert forall|p: int|
                    0 <= p < old(self).points@.len() && (forall|t: int| 0 <= t < g + 1 ==> !(#[trigger] groups@[t])@.contains(p as usize))
                        implies #[trigger] self.points@[p] == old(self).points@[p] by {
                    assert(!groups@[g as int]@.contains(p as usize));
                    assert(pre.points@[p] == old(self).points@[p]);
                }
            }
            let ghost old_children = children@;
            children.push(c);
            proof {
                assert forall|a: int, b: int| 0 <= a < b < children@.len() implies children@[a] != children@[b] by {
                    if b == g {
                        assert(children@[a] == old_children[a]);
                        assert(old_children[a] < pre.nodes@.len());
                    } else {
                        assert(children@[a] == old_children[a]);
                        assert(children@[b] == old_children[b]);
                    }
                }
                if idx.len() <= 2 * self.params.max_number_of_elements {
                    assert forall|k: int| old_len <= k < self.nodes@.len() implies (#[trigger] self.nodes@[k]).is_leaf_spec() by {
                        if k < pre.nodes@.len() {
                            assert(pre.nodes@[k] == self.nodes@[k]);
                        }
                    }
                    assert forall|t: int| 0 <= t < g + 1 implies self.nodes@[#[trigger] children@[t] as int].is_leaf_spec() by {
                        if t < g {
                            assert(children@[t] == old_children[t]);
                            assert(pre.nodes@[old_children[t] as int] == self.nodes@[old_children[t] as int]);
                        }
                    }
                }
                assert forall|t: int| 0 <= t < g + 1 implies self.nodes@[#[trigger] children@[t] as int].parent_index == usize::MAX by {
                    if t < g {
                        assert(children@[t] == old_children[t]);
                        assert(pre.nodes@[old_children[t] as int] == self.nodes@[old_children[t] as int]);
                    }
                }
            }
            if self.nodes[c].height > max_h || g == 0 {
                max_h = self.nodes[c].height;
            }
            proof {
                assert forall|k: int|
                    old_len <= k < self.nodes@.len() && (#[trigger] self.nodes@[k]).parent_index == usize::MAX
                        implies children@.contains(k as usize) by {
                    if k == c {
                        assert(children@[g as int] == c);
                    } else if k < pre.nodes@.len() {
                        assert(pre.nodes@[k] == self.nodes@[k]);
                        assert(old_children.contains(k as usize));
                        let i = choose|i: int| 0 <= i < old_children.len() && old_children[i] == k as usize;
                        assert(children@[i] == k as usize);
                    }
                }
                assert forall|t: int| 0 <= t < g + 1 implies self.nodes@[#[trigger] children@[t] as int].height <= max_h by {
                    if t < g {
                        assert(children@[t] == old_children[t]);
                        assert(pre.nodes@[old_children[t] as int] == self.nodes@[old_children[t] as int]);
                    }
                }
                if self.nodes@[c as int].height == max_h {
                    assert(self.nodes@[children@[g as int] as int].height == max_h);
                } else {
                    let t = choose|t: int| 0 <= t < g && pre.nodes@[#[trigger] old_children[t] as int].height == max_h;
                    assert(pre.nodes@[old_children[t] as int] == self.nodes@[old_children[t] as int]);
                    assert(children@[t] == old_children[t]);
                }
            }
            g = g + 1;
        }
        let height: usize = if max_h < usize::MAX {
            max_h + 1
        } else {
            max_h
        };
        let ghost before = *self;
        let node = Node::new_node(copy_indices(children.as_slice()), height);
        let node_index = self.add_node(node);
        proof {
            assert(self.nodes@[node_index as int].entries() == children@);
            assert forall|j: int| 0 <= j < children@.len() implies (#[trigger] children@[j]) < node_index && shapes_ok(
                self.nodes@[children@[j] as int],
                self.params.dimension as nat,
            ) by {
                assert(before.node_inv(children@[j] as int));
                assert(self.nodes@[children@[j] as int] == before.nodes@[children@[j] as int]);
            }
            assert forall|j: int| 0 <= j < all@.len() implies (#[trigger] all@[j]) < self.points@.len()
                && self.points@[all@[j] as int].coords@.len() == self.params.dimension by {
                assert(idx[j] < old(self).points@.len());
                assert(self.points@[idx[j] as int].coords@ == old(self).points@[idx[j] as int].coords@);
            }
        }
        self.reshape_node(node_index, all.as_slice());
        let ghost mid = *self;
        let mut t: usize = 0;
        while t < children.len()
            invariant
                0 <= t <= children@.len(),
                self.points == mid.points,
                self.params == mid.params,
                self.root_index == mid.root_index,
                self.nodes@.len() == mid.nodes@.len(),
                node_index < self.nodes@.len(),
                forall|s: int| 0 <= s < children@.len() ==> (#[trigger] children@[s]) < node_index,
                forall|k: int|
                    0 <= k < self.nodes@.len() ==> (#[trigger] self.nodes@[k]).rect == mid.nodes@[k].rect
                        && self.nodes@[k].sphere == mid.nodes@[k].sphere && self.nodes@[k].data == mid.nodes@[k].data
                        && self.nodes@[k].height == mid.nodes@[k].height,
                forall|k: int|
                    0 <= k < self.nodes@.len() ==> (#[trigger] self.nodes@[k]).parent_index == mid.nodes@[k].parent_index
                        || (self.nodes@[k].parent_index == node_index && children@.contains(k as usize)),
                forall|k: int|
                    0 <= k < self.nodes@.len() && !children@.contains(k as usize) ==> #[trigger] self.nodes@[k]
                        == mid.nodes@[k],
                forall|s: int| 0 <= s < t ==> self.nodes@[#[trigger] children@[s] as int].parent_index == node_index,
            decreases children@.len() - t,
        {
            let c = children[t];
            self.nodes[c].parent_index = node_index;
            t = t + 1;
        }
        let len = self.nodes.len();
        proof {
            let bound = node_index as int;
            assert(before.nodes@.len() == bound);
            assert forall|k: int| 0 <= k < bound implies (#[trigger] self.nodes@[k]).rect == before.nodes@[k].rect
                && self.nodes@[k].sphere == before.nodes@[k].sphere && self.nodes@[k].is_leaf_spec()
                == before.nodes@[k].is_leaf_spec() && self.nodes@[k].entries() == before.nodes@[k].entries()
                && self.nodes@[k].height == before.nodes@[k].height by {
                assert(mid.nodes@[k] == before.nodes@[k]);
            }
            assert forall|k: int| 0 <= k < bound implies (#[trigger] self.nodes@[k]).parent_index
                == before.nodes@[k].parent_index || (self.nodes@[k].parent_index == node_index
                && 0 <= node_index < self.nodes@.len() && !self.nodes@[node_index as int].is_leaf_spec()
                && self.nodes@[node_index as int].entries().contains(k as usize)
                && before.nodes@[k].parent_index == usize::MAX) by {
                assert(mid.nodes@[k] == before.nodes@[k]);
                assert(self.nodes@[node_index as int].entries() == children@);
                if self.nodes@[k].parent_index != before.nodes@[k].parent_index {
                    let s = choose|s: int| 0 <= s < children@.len() && children@[s] == k as usize;
                }
            }
            lemma_keep_node_inv(before, *self, bound, bound);
            assert(same_structure(before.nodes@, self.nodes@, bound));
            let nd = self.nodes@[node_index as int];
            assert(nd.entries() == children@);
            assert forall|j: int| 0 <= j < nd.entries().len() implies self.nodes@[#[trigger] nd.entries()[j] as int].parent_index == node_index by {
                assert(children@[j] == nd.entries()[j]);
            }
            let tj = choose|t: int| 0 <= t < children@.len() && before.nodes@[#[trigger] children@[t] as int].height == max_h;
            assert forall|i: int| 0 <= i < nd.entries().len() implies self.nodes@[#[trigger] nd.entries()[i] as int].height
                <= self.nodes@[nd.entries()[tj] as int].height by {
                assert(children@[i] < bound);
                assert(before.nodes@[children@[i] as int].height <= max_h);
            }
            assert(nd.height == next_height(self.nodes@[nd.entries()[tj] as int].height));
            assert(height_ok(self.nodes@, node_index as int));
            assert forall|p: int| 0 <= p < self.points@.len() && #[trigger] in_subtree(self.nodes@, node_index as int, p)
                implies node_holds::<M>(nd, self.points@[p].coords@) by {
                let j = choose|j: int|
                    0 <= j < nd.entries().len() && 0 <= #[trigger] nd.entries()[j] < node_index
                        && in_subtree(self.nodes@, nd.entries()[j] as int, p);
                let c = children@[j] as int;
                assert(self.node_inv(c));
                assert(node_holds::<M>(self.nodes@[c], self.points@[p].coords@));
                assert(self.nodes@[c].rect == before.nodes@[c].rect);
                assert(node_holds::<M>(before.nodes@[c], self.points@[p].coords@));
            }
            assert(self.node_inv(node_index as int));
            assert forall|n: int| 0 <= n < self.nodes@.len() implies #[trigger] self.node_inv(n) by {
                if n < bound {
                }
            }
            if idx.len() <= 2 * self.params.max_number_of_elements {
                assert forall|k: int| old_len <= k < self.nodes@.len() && k != node_index implies (#[trigger] self.nodes@[k]).is_leaf_spec() by {
                    assert(mid.nodes@[k] == before.nodes@[k]);
                    assert(before.nodes@[k].is_leaf_spec());
                }
                assert forall|j: int| 0 <= j < nd.entries().len() implies self.nodes@[#[trigger] nd.entries()[j] as int].is_leaf_spec() by {
                    assert(children@[j] == nd.entries()[j]);
                    assert(children@[j] < bound);
                    assert(before.nodes@[children@[j] as int].is_leaf_spec());
                }
            }
            assert forall|p: int| #[trigger] in_subtree(self.nodes@, node_index as int, p) <==> (0 <= p <= usize::MAX && idx.contains(p as usize)) by {
                if in_subtree(self.nodes@, node_index as int, p) {
                    let j = choose|j: int|
                        0 <= j < nd.entries().len() && 0 <= #[trigger] nd.entries()[j] < node_index
                            && in_subtree(self.nodes@, nd.entries()[j] as int, p);
                    lemma_in_subtree_frame(before.nodes@, self.nodes@, bound, children@[j] as int, p);
                    assert(in_subtree(before.nodes@, children@[j] as int, p));
                    assert(groups@[j]@.contains(p as usize));
                }
                if 0 <= p <= usize::MAX && idx.contains(p as usize) {
                    let j = choose|j: int| 0 <= j < groups@.len() && #[trigger] groups@[j]@.contains(p as usize);
                    assert(in_subtree(before.nodes@, children@[j] as int, p));
                    lemma_in_subtree_frame(before.nodes@, self.nodes@, bound, children@[j] as int, p);
                    assert(nd.entries()[j] == children@[j]);
                }
            }
            assert forall|k: int| 0 <= k < old_len implies #[trigger] self.nodes@[k] == old(self).nodes@[k] by {
                if children@.contains(k as usize) {
                    let s = choose|s: int| 0 <= s < children@.len() && children@[s] == k as usize;
                }
                assert(mid.nodes@[k] == before.nodes@[k]);
            }
            assert forall|p: int|
                0 <= p < old(self).points@.len() && !idx.contains(p as usize) implies #[trigger] self.points@[p]
                    == old(self).points@[p] by {
                assert forall|t: int| 0 <= t < groups@.len() implies !(#[trigger] groups@[t])@.contains(p as usize) by {
                }
            }
            assert forall|k: int|
                old_len <= k < self.nodes@.len() && k != node_index implies (#[trigger] self.nodes@[k]).parent_index
                    != usize::MAX by {
                assert(mid.nodes@[k] == before.nodes@[k]);
                if !children@.contains(k as usize) {
                    assert(self.nodes@[k] == mid.nodes@[k]);
                }
            }
        }
        node_index
    }
}

} // verus!

verus! {

impl<M: Metric> SRTree<M> {
    /// The tree is well formed: every node keeps its invariant, the root's
    /// subtree holds exactly the stored points, and every node but the root
    /// has a parent.
    pub open spec fn well_formed(&self) -> bool {
        &&& self.build_ok()
        &&& self.root_index < self.nodes@.len()
        &&& forall|p: int| #[trigger] in_subtree(self.nodes@, self.root_index as int, p) <==> 0 <= p < self.points@.len()
        &&& self.nodes@[self.root_index as int].parent_index == usize::MAX
        &&& forall|k: int| 0 <= k < self.nodes@.len() && k != self.root_index ==> (#[trigger] self.nodes@[k]).parent_index != usize::MAX
    }

    /// Builds a tree over `pts` with the given shape parameters and metric.
    /// Fails with `Empty` on no points and with `DimensionMismatch` when the
    /// points do not all have the length of the first.
    #[verifier::spinoff_prover]
    pub fn new(pts: &[Vec<i32>], params: Params, metric: M) -> (r: Result<SRTree<M>, ArrayError>)
        requires
            params.well_formed(),
            pts@.len() <= MAX_POINTS,
            pts@.len() > 0 ==> pts@[0]@.len() <= MAX_DIMENSION,
        ensures
            pts@.len() == 0 <==> r matches Err(ArrayError::Empty),
            (pts@.len() > 0 && exists|i: int| 0 <= i < pts@.len() && (#[trigger] pts@[i])@.len() != pts@[0]@.len())
                <==> r matches Err(ArrayError::DimensionMismatch),
            r matches Ok(t) ==> {
                &&& t.well_formed()
                &&& t.points@.len() == pts@.len()
                &&& forall|i: int| 0 <= i < pts@.len() ==> (#[trigger] t.points@[i]).coords@ == pts@[i]@
                &&& t.params.min_number_of_elements == params.min_number_of_elements
                &&& t.params.max_number_of_elements == params.max_number_of_elements
                &&& t.params.dimension == pts@[0]@.len()
                &&& pts@.len() <= params.max_number_of_elements ==> t.nodes@.len() == 1 && t.nodes@[t.root_index as int].is_leaf_spec()
                &&& params.max_number_of_elements < pts@.len() <= 2 * params.max_number_of_elements ==> forall|k: int|
                    0 <= k < t.nodes@.len() && k != t.root_index ==> (#[trigger] t.nodes@[k]).is_leaf_spec()
                        && t.nodes@[k].parent_index == t.root_index
            },
    {
        if pts.len() == 0 {
            return Err(ArrayError::Empty);
        }
        let dimension = pts[0].len();
        let mut i: usize = 0;
        while i < pts.len()
            invariant
                0 <= i <= pts@.len(),
                dimension == pts@[0]@.len(),
                forall|j: int| 0 <= j < i ==> (#[trigger] pts@[j])@.len() == dimension,
            decreases pts@.len() - i,
        {
            if pts[i].len() != dimension {
                return Err(ArrayError::DimensionMismatch);
            }
            i = i + 1;
        }
        let mut points: Vec<Point> = Vec::new();
        let mut indices: Vec<usize> = Vec::new();
        let mut j: usize = 0;
        while j < pts.len()
            invariant
                0 <= j <= pts@.len(),
                forall|t: int| 0 <= t < pts@.len() ==> (#[trigger] pts@[t])@.len() == dimension,
                points@.len() == j,
                indices@.len() == j,
                forall|t: int|
                    0 <= t < j ==> (#[trigger] points@[t]).coords@ == pts@[t]@ && points@[t].index == t
                        && points@[t].parent_index == usize::MAX,
                forall|t: int| 0 <= t < j ==> #[trigger] indices@[t] == t,
            decreases pts@.len() - j,
        {
            points.push(Point::new(copy_coords(pts[j].as_slice()), j));
            indices.push(j);
            j = j + 1;
        }
        let mut tree = SRTree {
            root_index: usize::MAX,
            points,
            nodes: Vec::new(),
            params: Params {
                min_number_of_elements: params.min_number_of_elements,
                max_number_of_elements: params.max_number_of_elements,
                dimension,
            },
            metric,
        };
        proof {
            assert(indices@.no_duplicates());
            assert(tree.build_ok());
        }
        let ghost idx = indices@;
        let root = tree.bulk_load(indices);
        let ghost built = tree;
        tree.root_index = root;
        proof {
            assert forall|n: int| 0 <= n < tree.nodes@.len() implies #[trigger] tree.node_inv(n) by {
                assert(built.node_inv(n));
            }
            assert forall|p: int| #[trigger] in_subtree(tree.nodes@, tree.root_index as int, p) <==> 0 <= p < tree.points@.len() by {
                assert(in_subtree(tree.nodes@, root as int, p) <==> (0 <= p <= usize::MAX && idx.contains(p as usize)));
                assert(tree.points@.len() == idx.len());
                if 0 <= p < tree.points@.len() {
                    assert(idx[p] == p as usize);
                    assert(idx.contains(p as usize));
                }
                if in_subtree(tree.nodes@, tree.root_index as int, p) {
                    assert(0 <= p <= usize::MAX && idx.contains(p as usize));
                    let t = choose|t: int| 0 <= t < idx.len() && idx[t] == p as usize;
                    assert(idx[t] == t);
                }
            }
            assert(tree.build_ok());
            assert(tree.root_index < tree.nodes@.len());
            if params.max_number_of_elements < pts@.len() <= 2 * params.max_number_of_elements {
                assert forall|k: int| 0 <= k < tree.nodes@.len() && k != tree.root_index implies (#[trigger] tree.nodes@[k]).is_leaf_spec()
                    && tree.nodes@[k].parent_index == tree.root_index by {
                    assert(tree.node_inv(k));
                    assert(tree.nodes@[k].parent_index != usize::MAX);
                    let q = tree.nodes@[k].parent_index as int;
                    assert(!tree.nodes@[q].is_leaf_spec());
                }
            }
            assert(tree.nodes@[tree.root_index as int].parent_index == usize::MAX);
            assert(tree.well_formed());
            assert(tree.points@.len() == pts@.len());
        }
        Ok(tree)
    }

    /// Builds a tree over `pts` with the default shape parameters.
    pub fn default(pts: &[Vec<i32>], metric: M) -> (r: Result<SRTree<M>, ArrayError>)
        requires
            pts@.len() <= MAX_POINTS,
            pts@.len() > 0 ==> pts@[0]@.len() <= MAX_DIMENSION,
        ensures
            pts@.len() == 0 <==> r matches Err(ArrayError::Empty),
            (pts@.len() > 0 && exists|i: int| 0 <= i < pts@.len() && (#[trigger] pts@[i])@.len() != pts@[0]@.len())
                <==> r matches Err(ArrayError::DimensionMismatch),
            r matches Ok(t) ==> {
                &&& t.well_formed()
                &&& t.points@.len() == pts@.len()
                &&& forall|i: int| 0 <= i < pts@.len() ==> (#[trigger] t.points@[i]).coords@ == pts@[i]@
                &&& t.params.min_number_of_elements == 8
                &&& t.params.max_number_of_elements == 20
                &&& t.params.dimension == pts@[0]@.len()
            },
    {
        SRTree::new(pts, Params::default_params(), metric)
    }

}

impl SRTree<Euclidean> {
    /// Builds a tree over `pts` with the given shape parameters and the Euclidean metric.
    pub fn euclidean_with_params(pts: &[Vec<i32>], params: Params) -> (r: Result<SRTree<Euclidean>, ArrayError>)
        requires
            params.well_formed(),
            pts@.len() <= MAX_POINTS,
            pts@.len() > 0 ==> pts@[0]@.len() <= MAX_DIMENSION,
        ensures
            pts@.len() == 0 <==> r matches Err(ArrayError::Empty),
            (pts@.len() > 0 && exists|i: int| 0 <= i < pts@.len() && (#[trigger] pts@[i])@.len() != pts@[0]@.len())
                <==> r matches Err(ArrayError::DimensionMismatch),
            r matches Ok(t) ==> {
                &&& t.well_formed()
                &&& t.points@.len() == pts@.len()
                &&& forall|i: int| 0 <= i < pts@.len() ==> (#[trigger] t.points@[i]).coords@ == pts@[i]@
                &&& t.params.min_number_of_elements == params.min_number_of_elements
                &&& t.params.max_number_of_elements == params.max_number_of_elements
                &&& t.params.dimension == pts@[0]@.len()
            },
    {
        SRTree::new(pts, params, Euclidean::new())
    }

    /// Builds a tree over `pts` with the default shape parameters and the Euclidean metric.
    pub fn euclidean(pts: &[Vec<i32>]) -> (r: Result<SRTree<Euclidean>, ArrayError>)
        requires
            pts@.len() <= MAX_POINTS,
            pts@.len() > 0 ==> pts@[0]@.len() <= MAX_DIMENSION,
        ensures
            pts@.len() == 0 <==> r matches Err(ArrayError::Empty),
            (pts@.len() > 0 && exists|i: int| 0 <= i < pts@.len() && (#[trigger] pts@[i])@.len() != pts@[0]@.len())
                <==> r matches Err(ArrayError::DimensionMismatch),
            r matches Ok(t) ==> {
                &&& t.well_formed()
                &&& t.points@.len() == pts@.len()
                &&& forall|i: int| 0 <= i < pts@.len() ==> (#[trigger] t.points@[i]).coords@ == pts@[i]@
                &&& t.params.min_number_of_elements == 8
                &&& t.params.max_number_of_elements == 20
                &&& t.params.dimension == pts@[0]@.len()
            },
    {
        SRTree::default(pts, Euclidean::new())
    }
}

} // verus!

verus! {

/// Node `d` is node `c` or lies below it.
pub open spec fn descends(nodes: Seq<Node>, c: int, d: int) -> bool
    decreases c,
{
    if 0 <= c < nodes.len() {
        c == d || (!nodes[c].is_leaf_spec() && exists|j: int|
            0 <= j < nodes[c].entries().len() && 0 <= #[trigger] nodes[c].entries()[j] < c && descends(
                nodes,
                nodes[c].entries()[j] as int,
                d,
            ))
    } else {
        false
    }
}

proof fn lemma_descends_below(nodes: Seq<Node>, c: int, d: int)
    requires
        descends(nodes, c, d),
    ensures
        0 <= d <= c < nodes.len(),
    decreases c,
{
    if c != d {
        let j = choose|j: int|
            0 <= j < nodes[c].entries().len() && 0 <= #[trigger] nodes[c].entries()[j] < c && descends(
                nodes,
                nodes[c].entries()[j] as int,
                d,
            );
        lemma_descends_below(nodes, nodes[c].entries()[j] as int, d);
    }
}

impl<M: Metric> SRTree<M> {
    /// A point of the subtree of `c` has its leaf below `c`.
    proof fn lemma_leaf_below(&self, c: int, p: int)
        requires
            self.build_ok(),
            0 <= c < self.nodes@.len(),
            0 <= p < self.points@.len(),
            in_subtree(self.nodes@, c, p),
        ensures
            descends(self.nodes@, c, self.points@[p].parent_index as int),
        decreases c,
    {
        assert(self.node_inv(c));
        let node = self.nodes@[c];
        if node.is_leaf_spec() {
            let j = choose|j: int| 0 <= j < node.entries().len() && node.entries()[j] == p as usize;
            assert(leaf_point_ok::<M>(self.nodes@, self.points@, c, node.entries()[j] as int));
        } else {
            let j = choose|j: int|
                0 <= j < node.entries().len() && 0 <= #[trigger] node.entries()[j] < c && in_subtree(
                    self.nodes@,
                    node.entries()[j] as int,
                    p,
                );
            self.lemma_leaf_below(node.entries()[j] as int, p);
        }
    }

    /// Going up from a strict descendant stays below the ancestor.
    proof fn lemma_parent_below(&self, c: int, d: int)
        requires
            self.build_ok(),
            descends(self.nodes@, c, d),
            c != d,
        ensures
            d < self.nodes@[d].parent_index,
            descends(self.nodes@, c, self.nodes@[d].parent_index as int),
        decreases c,
    {
        assert(self.node_inv(c));
        let node = self.nodes@[c];
        let j = choose|j: int|
            0 <= j < node.entries().len() && 0 <= #[trigger] node.entries()[j] < c && descends(
                self.nodes@,
                node.entries()[j] as int,
                d,
            );
        let ch = node.entries()[j] as int;
        if ch == d {
            assert(self.nodes@[d].parent_index == c);
        } else {
            self.lemma_parent_below(ch, d);
            let q = self.nodes@[d].parent_index as int;
            lemma_descends_below(self.nodes@, ch, q);
            assert(descends(self.nodes@, c, q));
        }
    }

    /// Two ancestors of one node lie on one path.
    proof fn lemma_ancestors_ordered(&self, c1: int, c2: int, d: int)
        requires
            self.build_ok(),
            descends(self.nodes@, c1, d),
            descends(self.nodes@, c2, d),
        ensures
            descends(self.nodes@, c1, c2) || descends(self.nodes@, c2, c1),
        decreases (c1 - d) + (c2 - d),
    {
        lemma_descends_below(self.nodes@, c1, d);
        lemma_descends_below(self.nodes@, c2, d);
        if c1 != d && c2 != d {
            self.lemma_parent_below(c1, d);
            self.lemma_parent_below(c2, d);
            let q = self.nodes@[d].parent_index as int;
            lemma_descends_below(self.nodes@, c1, q);
            lemma_descends_below(self.nodes@, c2, q);
            self.lemma_ancestors_ordered(c1, c2, q);
        }
    }

    /// The subtrees of two different children of a node share no point.
    pub proof fn lemma_siblings_disjoint(&self, n: int, j1: int, j2: int, p: int)
        requires
            self.build_ok(),
            0 <= n < self.nodes@.len(),
            !self.nodes@[n].is_leaf_spec(),
            0 <= j1 < self.nodes@[n].entries().len(),
            0 <= j2 < self.nodes@[n].entries().len(),
            j1 != j2,
            0 <= p < self.points@.len(),
        ensures
            !(in_subtree(self.nodes@, self.nodes@[n].entries()[j1] as int, p) && in_subtree(
                self.nodes@,
                self.nodes@[n].entries()[j2] as int,
                p,
            )),
    {
        assert(self.node_inv(n));
        let e = self.nodes@[n].entries();
        let c1 = e[j1] as int;
        let c2 = e[j2] as int;
        assert(c1 < n && c2 < n);
        assert(c1 != c2);
        if in_subtree(self.nodes@, c1, p) && in_subtree(self.nodes@, c2, p) {
            let l = self.points@[p].parent_index as int;
            self.lemma_leaf_below(c1, p);
            self.lemma_leaf_below(c2, p);
            self.lemma_ancestors_ordered(c1, c2, l);
            assert(self.nodes@[c1].parent_index == n);
            assert(self.nodes@[c2].parent_index == n);
            if descends(self.nodes@, c1, c2) {
                self.lemma_parent_below(c1, c2);
                lemma_descends_below(self.nodes@, c1, n);
            } else {
                self.lemma_parent_below(c2, c1);
                lemma_descends_below(self.nodes@, c2, n);
            }
        }
    }
}

} // verus!
