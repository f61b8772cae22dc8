use vstd::prelude::*;
use crate::bounds::{ceil_sqrt, ceil_sqrt_exec, floor_sqrt, floor_sqrt_exec};
use crate::bulk_load::shapes_ok;
use crate::geometry::{sq_dist, MAX_DIMENSION};
use crate::tree::{Euclidean, Metric, SRTree};

verus! {

/// The number of leaves among `nodes[0..m]`.
pub open spec fn count_leaves(nodes: Seq<crate::node::Node>, m: int) -> nat
    decreases m,
{
    if m <= 0 {
        0
    } else {
        count_leaves(nodes, m - 1) + if nodes[m - 1].is_leaf_spec() {
            1nat
        } else {
            0nat
        }
    }
}

/// Squared lower bound on the distance between the balls of two nodes:
/// `floor_sqrt(d) - ceil_sqrt(r1) - ceil_sqrt(r2)`, squared when positive.
pub open spec fn balls_gap_sq(d: nat, r1: nat, r2: nat) -> nat {
    let g = floor_sqrt(d) - ceil_sqrt(r1) - ceil_sqrt(r2);
    if g > 0 {
        (g * g) as nat
    } else {
        0
    }
}

impl<M: Metric> SRTree<M> {
    pub fn num_nodes(&self) -> (r: usize)
        ensures
            r == self.nodes@.len(),
    {
        self.nodes.len()
    }

    pub fn num_points(&self) -> (r: usize)
        ensures
            r == self.points@.len(),
    {
        self.points.len()
    }

    pub fn num_leaves(&self) -> (r: usize)
        ensures
            r == count_leaves(self.nodes@, self.nodes@.len() as int),
    {
        let mut count: usize = 0;
        let mut i: usize = 0;
        while i < self.nodes.len()
            invariant
                0 <= i <= self.nodes@.len(),
                count == count_leaves(self.nodes@, i as int),
                count <= i,
            decreases self.nodes@.len() - i,
        {
            if self.nodes[i].is_leaf() {
                count = count + 1;
            }
            i = i + 1;
        }
        count
    }

    /// The height of the root: 1 for a single leaf.
    pub fn height(&self) -> (r: usize)
        requires
            self.root_index < self.nodes@.len(),
        ensures
            r == self.nodes@[self.root_index as int].height,
    {
        self.nodes[self.root_index].height
    }

    /// The children of an interior node; `None` for a leaf.
    pub fn children_of(&self, node_index: usize) -> (r: Option<&Vec<usize>>)
        requires
            node_index < self.nodes@.len(),
        ensures
            r is None <==> self.nodes@[node_index as int].is_leaf_spec(),
            r matches Some(v) ==> v@ == self.nodes@[node_index as int].entries(),
    {
        if self.nodes[node_index].is_leaf() {
            return None;
        }
        Some(self.nodes[node_index].children())
    }

    /// The points of a leaf.
    pub fn points_of(&self, node_index: usize) -> (r: &Vec<usize>)
        requires
            node_index < self.nodes@.len(),
            self.nodes@[node_index as int].is_leaf_spec(),
        ensures
            r@ == self.nodes@[node_index as int].entries(),
    {
        self.nodes[node_index].points()
    }

    /// The squared radius of a node's ball.
    pub fn radius_of(&self, node_index: usize) -> (r: u128)
        requires
            node_index < self.nodes@.len(),
        ensures
            r == self.nodes@[node_index as int].sphere.radius_sq,
    {
        self.nodes[node_index].sphere.radius_sq
    }

    /// Orders two nodes by the radius of their balls.
    pub fn compare_nodes(&self, node_index: usize, other_node_index: usize) -> (r: Option<std::cmp::Ordering>)
        requires
            node_index < self.nodes@.len(),
            other_node_index < self.nodes@.len(),
        ensures
            ({
                let a = self.nodes@[node_index as int].sphere.radius_sq;
                let b = self.nodes@[other_node_index as int].sphere.radius_sq;
                &&& a < b ==> r == Some(std::cmp::Ordering::Less)
                &&& a == b ==> r == Some(std::cmp::Ordering::Equal)
                &&& a > b ==> r == Some(std::cmp::Ordering::Greater)
            }),
    {
        let a = self.radius_of(node_index);
        let b = self.radius_of(other_node_index);
        if a < b {
            Some(std::cmp::Ordering::Less)
        } else if a == b {
            Some(std::cmp::Ordering::Equal)
        } else {
            Some(std::cmp::Ordering::Greater)
        }
    }

}

impl SRTree<Euclidean> {
    /// Squared lower bound on the distance between points of the balls of two
    /// nodes.
    pub fn node_distance_lower_bound(&self, node_index: usize, other_node_index: usize) -> (r: u128)
        requires
            node_index < self.nodes@.len(),
            other_node_index < self.nodes@.len(),
            self.params.dimension <= MAX_DIMENSION,
            shapes_ok(self.nodes@[node_index as int], self.params.dimension as nat),
            shapes_ok(self.nodes@[other_node_index as int], self.params.dimension as nat),
        ensures
            r == balls_gap_sq(
                sq_dist(
                    self.nodes@[node_index as int].sphere.center.coords@,
                    self.nodes@[other_node_index as int].sphere.center.coords@,
                ) as nat,
                self.nodes@[node_index as int].sphere.radius_sq as nat,
                self.nodes@[other_node_index as int].sphere.radius_sq as nat,
            ),
    {
        let node = &self.nodes[node_index];
        let other = &self.nodes[other_node_index];
        let d = self.distance_squared(&node.sphere.center, &other.sphere.center);
        let a = floor_sqrt_exec(d);
        let b1 = ceil_sqrt_exec(node.sphere.radius_sq);
        let b2 = ceil_sqrt_exec(other.sphere.radius_sq);
        if a > b1 && a - b1 > b2 {
            let g = a - b1 - b2;
            proof {
                assert(g * g < 0x1_0000_0000_0000_0000 * 0x1_0000_0000_0000_0000) by (nonlinear_arith)
                    requires
                        0 < g < 0x1_0000_0000_0000_0000,
                ;
            }
            g * g
        } else {
            0
        }
    }
}

} // verus!
