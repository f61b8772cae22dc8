use vstd::prelude::*;
use crate::bounds::{
    ball_gap_sq, ceil_sqrt, ceil_sqrt_exec, floor_sqrt, floor_sqrt_exec, lemma_ball_gap,
    lemma_ball_reach, lemma_clamp_nearest, lemma_far_corner,
};
use crate::geometry::{clamp, far_end, lemma_sq_dist_n_bounds, sq_dist, sq_distance_exact, Point, Rect, Sphere, MAX_DIMENSION};
use crate::node::Node;
use crate::tree::{Metric, SRTree};

verus! {

pub open spec fn clamp_seq(q: Seq<i32>, lo: Seq<i32>, hi: Seq<i32>) -> Seq<i32> {
    Seq::new(q.len(), |i: int| clamp(q[i] as int, lo[i] as int, hi[i] as int) as i32)
}

pub open spec fn far_seq(q: Seq<i32>, lo: Seq<i32>, hi: Seq<i32>) -> Seq<i32> {
    Seq::new(q.len(), |i: int| far_end(q[i] as int, lo[i] as int, hi[i] as int) as i32)
}

/// Squared upper bound on the distance from a query to any point of a ball:
/// `(ceil_sqrt(d) + ceil_sqrt(r))` squared.
pub open spec fn ball_reach_sq(d: nat, r: nat) -> nat {
    ((ceil_sqrt(d) + ceil_sqrt(r)) * (ceil_sqrt(d) + ceil_sqrt(r))) as nat
}

pub open spec fn max_u128(a: u128, b: u128) -> u128 {
    if a >= b {
        a
    } else {
        b
    }
}

/// `x`, held at `u128::MAX`.
pub open spec fn saturate(x: nat) -> u128 {
    if x <= u128::MAX {
        x as u128
    } else {
        u128::MAX
    }
}

/// How far, in the metric's measure, the node `n` reaches from `center`: the
/// larger of the ball bound and the farthest corner of its box.
pub open spec fn node_reach<M: Metric>(center: Seq<i32>, n: Node) -> u128 {
    max_u128(
        saturate(M::reach(M::measure(center, n.sphere.center.coords@), n.sphere.radius_sq as nat)),
        M::measure(center, far_seq(center, n.rect.low@, n.rect.high@)) as u128,
    )
}

/// The ball `outer` holds the ball `inner`: the reach of the inner ball from
/// the outer center is within the outer radius.
pub open spec fn ball_within<M: Metric>(outer: Sphere, inner: Sphere) -> bool {
    saturate(M::reach(M::measure(outer.center.coords@, inner.center.coords@), inner.radius_sq as nat))
        <= outer.radius_sq
}

/// The ball holds the point `p` in the metric's measure.
pub open spec fn ball_holds<M: Metric>(sphere: Sphere, p: Seq<i32>) -> bool {
    &&& p.len() == sphere.center.coords@.len()
    &&& M::measure(sphere.center.coords@, p) <= sphere.radius_sq
}

/// Both shapes of `node` hold the point `p`.
pub open spec fn node_holds<M: Metric>(node: Node, p: Seq<i32>) -> bool {
    node.rect.holds(p) && ball_holds::<M>(node.sphere, p)
}

/// The Euclidean distance rounded down, or `None` (an infinite distance) for
/// vectors of different lengths.
pub fn euclidean(point1: &[i32], point2: &[i32]) -> (r: Option<u128>)
    requires
        point1@.len() <= MAX_DIMENSION,
    ensures
        r is None <==> point1@.len() != point2@.len(),
        r matches Some(d) ==> d == floor_sqrt(sq_dist(point1@, point2@) as nat),
{
    match crate::geometry::squared_distance(point1, point2) {
        Some(d) => Some(floor_sqrt_exec(d)),
        None => None,
    }
}

/// An upper bound on every squared distance between vectors of at most
/// `MAX_DIMENSION` axes.
pub const MAX_SQ_DIST: u128 = 0x1_0000_0000_0000_0000_0000_0000;

proof fn lemma_root_bound(a: int, d: int)
    requires
        a >= 0,
        a == 0 || (a - 1) * (a - 1) < d,
        d <= 0x1_0000_0000_0000_0000_0000_0000,
    ensures
        a <= 0x1_0000_0000_0000,
{
    if a > 0x1_0000_0000_0000 {
        assert((a - 1) * (a - 1) >= 0x1_0000_0000_0000 * 0x1_0000_0000_0000) by (nonlinear_arith)
            requires
                a - 1 >= 0x1_0000_0000_0000,
        ;
    }
}

impl<M: Metric> SRTree<M> {
    /// The metric's measure between two points (the squared distance for
    /// `Euclidean`).
    pub fn distance_squared(&self, a: &Point, b: &Point) -> (r: u128)
        requires
            a.coords@.len() == b.coords@.len(),
            a.coords@.len() <= MAX_DIMENSION,
        ensures
            r == M::measure(a.coords@, b.coords@),
            r <= MAX_SQ_DIST,
    {
        proof {
            M::lemma_measure_bound(a.coords@, b.coords@);
        }
        M::measure_between(a.coords.as_slice(), b.coords.as_slice())
    }

    /// The metric's distance between two points, rounded down.
    pub fn distance(&self, a: &Point, b: &Point) -> (r: u128)
        requires
            a.coords@.len() == b.coords@.len(),
            a.coords@.len() <= MAX_DIMENSION,
        ensures
            r == self.metric.dist_spec(a.coords@, b.coords@),
    {
        match self.metric.distance(a.coords.as_slice(), b.coords.as_slice()) {
            Some(d) => d,
            None => 0,
        }
    }

    /// The measure from `point` to the nearest point of `rect`; no point of the
    /// box lies nearer.
    pub fn point_to_rect_min_distance(&self, point: &Point, rect: &Rect) -> (r: u128)
        requires
            rect.low@.len() == rect.high@.len(),
            point.coords@.len() == rect.low@.len(),
            point.coords@.len() <= MAX_DIMENSION,
        ensures
            r == M::measure(point.coords@, clamp_seq(point.coords@, rect.low@, rect.high@)),
            forall|p: Seq<i32>| #[trigger] rect.holds(p) ==> r <= M::measure(point.coords@, p),
    {
        let closest = rect.closest_point_to(point);
        assert(closest.coords@ =~= clamp_seq(point.coords@, rect.low@, rect.high@));
        let r = self.distance_squared(point, &closest);
        proof {
            assert forall|p: Seq<i32>| #[trigger] rect.holds(p) implies r <= M::measure(point.coords@, p) by {
                M::lemma_clamp_nearest(point.coords@, p, rect.low@, rect.high@);
            }
        }
        r
    }

    /// The measure from `point` to the farthest corner of `rect`; no point of
    /// the box lies farther.
    pub fn point_to_rect_max_distance(&self, point: &Point, rect: &Rect) -> (r: u128)
        requires
            rect.low@.len() == rect.high@.len(),
            point.coords@.len() == rect.low@.len(),
            point.coords@.len() <= MAX_DIMENSION,
        ensures
            r == M::measure(point.coords@, far_seq(point.coords@, rect.low@, rect.high@)),
            forall|p: Seq<i32>| #[trigger] rect.holds(p) ==> M::measure(point.coords@, p) <= r,
    {
        let farthest = rect.farthest_point_to(point);
        assert(farthest.coords@ =~= far_seq(point.coords@, rect.low@, rect.high@));
        let r = self.distance_squared(point, &farthest);
        proof {
            assert forall|p: Seq<i32>| #[trigger] rect.holds(p) implies M::measure(point.coords@, p) <= r by {
                M::lemma_far_corner(point.coords@, p, rect.low@, rect.high@);
            }
        }
        r
    }

    /// Lower bound on the measure from `point` to any point of the ball: the
    /// metric's gap for the measure to the center and the radius.
    pub fn point_to_sphere_min_distance(&self, point: &Point, sphere: &Sphere) -> (r: u128)
        requires
            point.coords@.len() == sphere.center.coords@.len(),
            point.coords@.len() <= MAX_DIMENSION,
        ensures
            r == M::gap(M::measure(point.coords@, sphere.center.coords@), sphere.radius_sq as nat),
            forall|p: Seq<i32>| #[trigger] ball_holds::<M>(*sphere, p) ==> r <= M::measure(point.coords@, p),
    {
        let d = self.distance_squared(point, &sphere.center);
        let r = M::gap_between(d, sphere.radius_sq);
        proof {
            assert forall|p: Seq<i32>| #[trigger] ball_holds::<M>(*sphere, p) implies r <= M::measure(point.coords@, p) by {
                M::lemma_gap(point.coords@, p, sphere.center.coords@, sphere.radius_sq as nat);
            }
        }
        r
    }

    /// Upper bound on the measure from `point` to any point of the ball: the
    /// metric's reach for the measure to the center and the radius, held at
    /// `u128::MAX`.
    pub fn point_to_sphere_max_distance(&self, point: &Point, sphere: &Sphere) -> (r: u128)
        requires
            point.coords@.len() == sphere.center.coords@.len(),
            point.coords@.len() <= MAX_DIMENSION,
        ensures
            r == saturate(M::reach(M::measure(point.coords@, sphere.center.coords@), sphere.radius_sq as nat)),
            forall|p: Seq<i32>| #[trigger] ball_holds::<M>(*sphere, p) ==> M::measure(point.coords@, p) <= r,
    {
        let d = self.distance_squared(point, &sphere.center);
        let r = M::reach_between(d, sphere.radius_sq);
        proof {
            assert forall|p: Seq<i32>| #[trigger] ball_holds::<M>(*sphere, p) implies M::measure(point.coords@, p) <= r by {
                M::lemma_reach(point.coords@, p, sphere.center.coords@, sphere.radius_sq as nat);
                M::lemma_measure_bound(point.coords@, p);
            }
        }
        r
    }

    /// Lower bound on the measure from `point` to any point in both shapes of
    /// `node`: the larger of the ball bound and the box bound.
    pub fn point_to_node_min_distance(&self, point: &Point, node: &Node) -> (r: u128)
        requires
            node.rect.low@.len() == node.rect.high@.len(),
            point.coords@.len() == node.rect.low@.len(),
            point.coords@.len() == node.sphere.center.coords@.len(),
            point.coords@.len() <= MAX_DIMENSION,
        ensures
            r == max_u128(
                M::gap(M::measure(point.coords@, node.sphere.center.coords@), node.sphere.radius_sq as nat) as u128,
                M::measure(point.coords@, clamp_seq(point.coords@, node.rect.low@, node.rect.high@)) as u128,
            ),
            forall|p: Seq<i32>| #[trigger] node_holds::<M>(*node, p) ==> r <= M::measure(point.coords@, p),
    {
        let ds = self.point_to_sphere_min_distance(point, &node.sphere);
        let dr = self.point_to_rect_min_distance(point, &node.rect);
        if ds >= dr {
            ds
        } else {
            dr
        }
    }

    /// Upper bound on the measure from `point` to any point of `node`: the
    /// larger of the ball bound and the box bound, so that it reaches past the
    /// node's whole ball.
    pub fn point_to_node_max_distance(&self, point: &Point, node: &Node) -> (r: u128)
        requires
            node.rect.low@.len() == node.rect.high@.len(),
            point.coords@.len() == node.rect.low@.len(),
            point.coords@.len() == node.sphere.center.coords@.len(),
            point.coords@.len() <= MAX_DIMENSION,
        ensures
            r == node_reach::<M>(point.coords@, *node),
            forall|p: Seq<i32>| #[trigger] node_holds::<M>(*node, p) ==> M::measure(point.coords@, p) <= r,
    {
        let ds = self.point_to_sphere_max_distance(point, &node.sphere);
        let dr = self.point_to_rect_max_distance(point, &node.rect);
        if ds >= dr {
            ds
        } else {
            dr
        }
    }
}

} // verus!
