use vstd::prelude::*;
use crate::bulk_load::{in_subtree, leaf_point_ok, leaf_sorted};
use crate::geometry::{copy_coords, Point};
use crate::measure::node_holds;
use crate::tree::{Metric, SRTree};

verus! {

impl<M: Metric> SRTree<M> {
    /// Point `x` lies in the subtree of node `n` within measure `r` of `q`.
    pub open spec fn hit(&self, q: Seq<i32>, r: int, n: int, x: int) -> bool {
        &&& 0 <= x < self.points@.len()
        &&& in_subtree(self.nodes@, n, x)
        &&& M::measure(q, self.points@[x].coords@) <= r
    }

    /// Appends to `neighbors` every point of the subtree of `node_index`
    /// within measure `radius_sq` of `point` (the metric's measure: the squared
    /// distance for `Euclidean`), and no other.
    #[verifier::spinoff_prover]
    fn search_radius(&self, node_index: usize, point: &Point, radius_sq: u128, neighbors: &mut Vec<usize>)
        requires
            self.build_ok(),
            node_index < self.nodes@.len(),
            point.coords@.len() == self.params.dimension,
            old(neighbors)@.no_duplicates(),
            forall|x: usize| #[trigger] old(neighbors)@.contains(x) ==> !in_subtree(self.nodes@, node_index as int, x as int),
        ensures
            final(neighbors)@.subrange(0, old(neighbors)@.len() as int) == old(neighbors)@,
            old(neighbors)@.len() <= final(neighbors)@.len(),
            final(neighbors)@.no_duplicates(),
            forall|x: usize|
                #[trigger] final(neighbors)@.contains(x) <==> (old(neighbors)@.contains(x) || self.hit(
                    point.coords@,
                    radius_sq as int,
                    node_index as int,
                    x as int,
                )),
        decreases node_index,
    {
        let node = &self.nodes[node_index];
        proof {
            assert(self.node_inv(node_index as int));
        }
        let ghost start = neighbors@;
        if node.is_leaf() {
            let d0 = self.distance_squared(point, &node.sphere.center);
            let pts = node.points();
            let mut j: usize = 0;
            let mut done = false;
            while j < pts.len() && !done
                invariant
                    self.build_ok(),
                    node_index < self.nodes@.len(),
                    node == self.nodes@[node_index as int],
                    node.is_leaf_spec(),
                    self.node_inv(node_index as int),
                    pts@ == node.entries(),
                    point.coords@.len() == self.params.dimension,
                    d0 == M::measure(point.coords@, node.sphere.center.coords@),
                    0 <= j <= pts@.len(),
                    neighbors@.no_duplicates(),
                    start == old(neighbors)@,
                    start.len() <= neighbors@.len(),
                    neighbors@.subrange(0, start.len() as int) == start,
                    forall|x: usize| #[trigger] start.contains(x) ==> !in_subtree(self.nodes@, node_index as int, x as int),
                    forall|x: usize|
                        #[trigger] neighbors@.contains(x) <==> (start.contains(x) || exists|jj: int|
                            0 <= jj < j && pts@[jj] == x && M::measure(point.coords@, self.points@[x as int].coords@)
                                <= radius_sq),
                    done ==> forall|jj: int|
                        j <= jj < pts@.len() ==> M::measure(point.coords@, self.points@[#[trigger] pts@[jj] as int].coords@)
                            > radius_sq,
                decreases pts@.len() - j + (if done {
                    0int
                } else {
                    1int
                }),
            {
                let p = pts[j];
                proof {
                    assert(leaf_point_ok::<M>(self.nodes@, self.points@, node_index as int, pts@[j as int] as int));
                }
                let cand = &self.points[p];
                let bb = M::gap_between(d0, cand.radius_sq);
                if bb > radius_sq {
                    proof {
                        assert forall|jj: int|
                            j <= jj < pts@.len() implies M::measure(point.coords@, self.points@[#[trigger] pts@[jj] as int].coords@)
                                > radius_sq by {
                            let q = pts@[jj] as int;
                            assert(leaf_point_ok::<M>(self.nodes@, self.points@, node_index as int, q));
                            assert(leaf_sorted(self.nodes@, self.points@, node_index as int));
                            assert(pts@[j as int] == pts@[j as int]);
                            assert(self.points@[p as int].radius_sq >= self.points@[q].radius_sq);
                            M::lemma_gap_antitone(d0 as nat, self.points@[q].radius_sq as nat, cand.radius_sq as nat);
                            M::lemma_gap(
                                point.coords@,
                                self.points@[q].coords@,
                                node.sphere.center.coords@,
                                self.points@[q].radius_sq as nat,
                            );
                        }
                    }
                    done = true;
                } else {
                    let d = self.distance_squared(point, cand);
                    let ghost before = neighbors@;
                    assert(cand.index == p);
                    if d <= radius_sq {
                        proof {
                            if neighbors@.contains(p) {
                                if start.contains(p) {
                                    assert(pts@.contains(p));
                                } else {
                                    let jj = choose|jj: int|
                                        0 <= jj < j && pts@[jj] == p && M::measure(point.coords@, self.points@[p as int].coords@)
                                            <= radius_sq;
                                    assert(node.entries().no_duplicates());
                                }
                            }
                        }
                        neighbors.push(cand.index);
                    }
                    proof {
                        assert(neighbors@.subrange(0, start.len() as int) =~= start);
                        assert forall|x: usize|
                            #[trigger] neighbors@.contains(x) <==> (start.contains(x) || exists|jj: int|
                                0 <= jj < j + 1 && pts@[jj] == x && M::measure(point.coords@, self.points@[x as int].coords@)
                                    <= radius_sq) by {
                            if neighbors@.contains(x) && !before.contains(x) {
                                assert(neighbors@ == before.push(p));
                                assert(x == p);
                                assert(pts@[j as int] == x);
                            }
                            if before.contains(x) {
                                let i = choose|i: int| 0 <= i < before.len() && before[i] == x;
                                assert(neighbors@[i] == x);
                                assert(neighbors@.contains(x));
                            }
                            if exists|jj: int|
                                0 <= jj < j + 1 && pts@[jj] == x && M::measure(point.coords@, self.points@[x as int].coords@)
                                    <= radius_sq {
                                let jj = choose|jj: int|
                                    0 <= jj < j + 1 && pts@[jj] == x && M::measure(point.coords@, self.points@[x as int].coords@)
                                        <= radius_sq;
                                if jj == j {
                                    assert(neighbors@[neighbors@.len() - 1] == x);
                                }
                            }
                        }
                    }
                    j = j + 1;
                }
            }
            proof {
                assert forall|x: usize|
                    #[trigger] neighbors@.contains(x) <==> (start.contains(x) || self.hit(
                        point.coords@,
                        radius_sq as int,
                        node_index as int,
                        x as int,
                    )) by {
                    if self.hit(point.coords@, radius_sq as int, node_index as int, x as int) {
                        let jj = choose|jj: int| 0 <= jj < pts@.len() && pts@[jj] == x;
                        if jj >= j {
                            assert(done);
                        }
                    }
                    if exists|jj: int|
                        0 <= jj < j && pts@[jj] == x && M::measure(point.coords@, self.points@[x as int].coords@)
                            <= radius_sq {
                        let jj = choose|jj: int|
                            0 <= jj < j && pts@[jj] == x && M::measure(point.coords@, self.points@[x as int].coords@)
                                <= radius_sq;
                        assert(leaf_point_ok::<M>(self.nodes@, self.points@, node_index as int, pts@[jj] as int));
                        assert(pts@.contains(x));
                    }
                }
            }
        } else {
            let children = node.children();
            let mut j: usize = 0;
            while j < children.len()
                invariant
                    self.build_ok(),
                    node_index < self.nodes@.len(),
                    node == self.nodes@[node_index as int],
                    !node.is_leaf_spec(),
                    self.node_inv(node_index as int),
                    children@ == node.entries(),
                    point.coords@.len() == self.params.dimension,
                    0 <= j <= children@.len(),
                    neighbors@.no_duplicates(),
                    start == old(neighbors)@,
                    start.len() <= neighbors@.len(),
                    neighbors@.subrange(0, start.len() as int) == start,
                    forall|x: usize| #[trigger] start.contains(x) ==> !in_subtree(self.nodes@, node_index as int, x as int),
                    forall|x: usize|
                        #[trigger] neighbors@.contains(x) <==> (start.contains(x) || exists|jj: int|
                            0 <= jj < j && self.hit(
                                point.coords@,
                                radius_sq as int,
                                children@[jj] as int,
                                x as int,
                            )),
                decreases children@.len() - j,
            {
                let c = children[j];
                proof {
                    assert(c < node_index);
                    assert(self.node_inv(c as int));
                }
                let md = self.point_to_node_min_distance(point, &self.nodes[c]);
                let ghost before = neighbors@;
                if md <= radius_sq {
                    proof {
                        assert forall|x: usize| #[trigger] neighbors@.contains(x) implies !in_subtree(
                            self.nodes@,
                            c as int,
                            x as int,
                        ) by {
                            if start.contains(x) {
                                if in_subtree(self.nodes@, c as int, x as int) {
                                    assert(children@[j as int] == c);
                                    assert(in_subtree(self.nodes@, node_index as int, x as int));
                                }
                            } else {
                                let jj = choose|jj: int|
                                    0 <= jj < j && self.hit(point.coords@, radius_sq as int, children@[jj] as int, x as int);
                                self.lemma_siblings_disjoint(node_index as int, jj, j as int, x as int);
                            }
                        }
                    }
                    self.search_radius(c, point, radius_sq, neighbors);
                    proof {
                        assert(neighbors@.subrange(0, before.len() as int) == before);
                        assert(neighbors@.subrange(0, start.len() as int) =~= before.subrange(0, start.len() as int));
                    }
                } else {
                    proof {
                        assert forall|x: int| !self.hit(point.coords@, radius_sq as int, c as int, x) by {
                            if 0 <= x < self.points@.len() && in_subtree(self.nodes@, c as int, x) {
                                assert(node_holds::<M>(self.nodes@[c as int], self.points@[x].coords@));
                            }
                        }
                    }
                }
                proof {
                    assert forall|x: usize|
                        #[trigger] neighbors@.contains(x) <==> (start.contains(x) || exists|jj: int|
                            0 <= jj < j + 1 && self.hit(
                                point.coords@,
                                radius_sq as int,
                                children@[jj] as int,
                                x as int,
                            )) by {
                        if self.hit(point.coords@, radius_sq as int, c as int, x as int) {
                            assert(children@[j as int] == c);
                        }
                        if exists|jj: int|
                            0 <= jj < j + 1 && self.hit(point.coords@, radius_sq as int, children@[jj] as int, x as int) {
                            let jj = choose|jj: int|
                                0 <= jj < j + 1 && self.hit(point.coords@, radius_sq as int, children@[jj] as int, x as int);
                            if jj < j {
                                assert(before.contains(x));
                            }
                        }
                    }
                }
                j = j + 1;
            }
            proof {
                assert forall|x: usize|
                    #[trigger] neighbors@.contains(x) <==> (start.contains(x) || self.hit(
                        point.coords@,
                        radius_sq as int,
                        node_index as int,
                        x as int,
                    )) by {
                    if self.hit(point.coords@, radius_sq as int, node_index as int, x as int) {
                        let jj = choose|jj: int|
                            0 <= jj < node.entries().len() && 0 <= #[trigger] node.entries()[jj] < node_index
                                && in_subtree(self.nodes@, node.entries()[jj] as int, x as int);
                        assert(self.hit(point.coords@, radius_sq as int, children@[jj] as int, x as int));
                    }
                    if exists|jj: int|
                        0 <= jj < j && self.hit(point.coords@, radius_sq as int, children@[jj] as int, x as int) {
                        let jj = choose|jj: int|
                            0 <= jj < j && self.hit(point.coords@, radius_sq as int, children@[jj] as int, x as int);
                        assert(node.entries()[jj] < node_index);
                    }
                }
            }
        }
    }

    /// The indices of all points within the metric's measure `radius_sq` of
    /// `point_coords`, in no particular order; none when `point_coords` does
    /// not have the tree's dimension.
    pub fn query_radius(&self, point_coords: &[i32], radius_sq: u128) -> (r: Vec<usize>)
        requires
            self.well_formed(),
        ensures
            point_coords@.len() != self.params.dimension ==> r@.len() == 0,
            r@.no_duplicates(),
            point_coords@.len() == self.params.dimension ==> forall|x: usize|
                #[trigger] r@.contains(x) <==> (x < self.points@.len() && M::measure(
                    point_coords@,
                    self.points@[x as int].coords@,
                ) <= radius_sq),
    {
        let mut neighbors: Vec<usize> = Vec::new();
        if point_coords.len() != self.params.dimension {
            return neighbors;
        }
        let point = Point::with_coords(copy_coords(point_coords));
        self.search_radius(self.root_index, &point, radius_sq, &mut neighbors);
        proof {
            assert forall|x: usize|
                #[trigger] neighbors@.contains(x) <==> (x < self.points@.len() && M::measure(
                    point_coords@,
                    self.points@[x as int].coords@,
                ) <= radius_sq) by {
                if x < self.points@.len() {
                    assert(in_subtree(self.nodes@, self.root_index as int, x as int));
                }
            }
        }
        neighbors
    }
}

} // verus!
