use vstd::prelude::*;
use crate::bulk_load::{height_ok, in_subtree, leaf_point_ok, leaf_sorted};
use crate::measure::{ball_within, clamp_seq, node_holds};
use crate::knn::ranks_before;
use crate::tree::{Metric, SRTree};

verus! {

/// Containment: the box and the ball of every node hold every point of its
/// subtree, so both lower bounds from such a point to the node are zero.
pub proof fn lemma_containment<M: Metric>(t: SRTree<M>, n: int, p: int)
    requires
        t.well_formed(),
        0 <= n < t.nodes@.len(),
        0 <= p < t.points@.len(),
        in_subtree(t.nodes@, n, p),
    ensures
        node_holds::<M>(t.nodes@[n], t.points@[p].coords@),
        M::gap(
            M::measure(t.points@[p].coords@, t.nodes@[n].sphere.center.coords@) as nat,
            t.nodes@[n].sphere.radius_sq as nat,
        ) == 0,
        M::measure(
            t.points@[p].coords@,
            clamp_seq(t.points@[p].coords@, t.nodes@[n].rect.low@, t.nodes@[n].rect.high@),
        ) == 0,
{
    assert(t.node_inv(n));
    assert(t.points_ok());
    let x = t.points@[p].coords@;
    let node = t.nodes@[n];
    M::lemma_measure_self(x);
    M::lemma_gap(x, x, node.sphere.center.coords@, node.sphere.radius_sq as nat);
    assert(clamp_seq(x, node.rect.low@, node.rect.high@) =~= x) by {
        assert forall|i: int| 0 <= i < x.len() implies clamp_seq(x, node.rect.low@, node.rect.high@)[i] == x[i] by {
            assert(node.rect.low@[i] <= x[i] <= node.rect.high@[i]);
        }
    }
}

/// Every point of the tree lies in the subtree of the root.
pub proof fn lemma_every_point_indexed<M: Metric>(t: SRTree<M>, p: int)
    requires
        t.well_formed(),
        0 <= p < t.points@.len(),
    ensures
        in_subtree(t.nodes@, t.root_index as int, p),
{
}

/// Leaf order: the points of every leaf come by non-increasing radius, and
/// each radius is the point's squared distance to the leaf's center.
pub proof fn lemma_leaf_order<M: Metric>(t: SRTree<M>, n: int, i: int, j: int)
    requires
        t.well_formed(),
        0 <= n < t.nodes@.len(),
        t.nodes@[n].is_leaf_spec(),
        0 <= i <= j < t.nodes@[n].entries().len(),
    ensures
        t.points@[t.nodes@[n].entries()[i] as int].radius_sq >= t.points@[t.nodes@[n].entries()[j] as int].radius_sq,
        t.points@[t.nodes@[n].entries()[i] as int].radius_sq == M::measure(
            t.nodes@[n].sphere.center.coords@,
            t.points@[t.nodes@[n].entries()[i] as int].coords@,
        ),
{
    assert(t.node_inv(n));
    assert(leaf_sorted(t.nodes@, t.points@, n));
    let e = t.nodes@[n].entries();
    assert(e[i] == e[i]);
    assert(leaf_point_ok::<M>(t.nodes@, t.points@, n, e[i] as int));
}

/// Parent integrity: every node but the root names a parent whose children
/// include it.
pub proof fn lemma_parent_integrity<M: Metric>(t: SRTree<M>, n: int)
    requires
        t.well_formed(),
        0 <= n < t.nodes@.len(),
        n != t.root_index,
    ensures
        t.nodes@[n].parent_index < t.nodes@.len(),
        !t.nodes@[t.nodes@[n].parent_index as int].is_leaf_spec(),
        t.nodes@[t.nodes@[n].parent_index as int].entries().contains(n as usize),
{
    assert(t.node_inv(n));
}

/// Leaf capacity: no leaf holds more than `max_number_of_elements` points.
pub proof fn lemma_leaf_capacity<M: Metric>(t: SRTree<M>, n: int)
    requires
        t.well_formed(),
        0 <= n < t.nodes@.len(),
        t.nodes@[n].is_leaf_spec(),
    ensures
        0 < t.nodes@[n].entries().len() <= t.params.max_number_of_elements,
{
    assert(t.node_inv(n));
}

/// Heights: a leaf has height 1 and an interior node stands one above its
/// deepest child.
pub proof fn lemma_heights<M: Metric>(t: SRTree<M>, n: int)
    requires
        t.well_formed(),
        0 <= n < t.nodes@.len(),
    ensures
        height_ok(t.nodes@, n),
{
    assert(t.node_inv(n));
}

/// Ball containment: the ball of every interior node holds the ball of each
/// of its children.
pub proof fn lemma_child_ball_within<M: Metric>(t: SRTree<M>, n: int, j: int)
    requires
        t.well_formed(),
        0 <= n < t.nodes@.len(),
        !t.nodes@[n].is_leaf_spec(),
        0 <= j < t.nodes@[n].entries().len(),
    ensures
        ball_within::<M>(t.nodes@[n].sphere, t.nodes@[t.nodes@[n].entries()[j] as int].sphere),
{
    assert(t.node_inv(n));
}

proof fn lemma_knn_prefix<M: Metric>(
    t: SRTree<M>,
    q: Seq<i32>,
    k: usize,
    i1: Seq<usize>,
    d1: Seq<u128>,
    i2: Seq<usize>,
    d2: Seq<u128>,
    m: int,
)
    requires
        t.is_knn_result(q, k, i1, d1),
        t.is_knn_result(q, k, i2, d2),
        0 <= m <= i1.len(),
    ensures
        forall|p: int| 0 <= p < m ==> i1[p] == i2[p],
    decreases m,
{
    if m > 0 {
        lemma_knn_prefix(t, q, k, i1, d1, i2, d2, m - 1);
        let p = m - 1;
        if i1[p] != i2[p] {
            lemma_knn_missing(t, q, k, i1, d1, i2, d2, p);
            lemma_knn_missing(t, q, k, i2, d2, i1, d1, p);
        }
    }
}

/// Where two results agree before position `p` and differ at `p`, the first
/// does not rank lower there: its point could be neither later in the second
/// result nor missing from it.
proof fn lemma_knn_missing<M: Metric>(
    t: SRTree<M>,
    q: Seq<i32>,
    k: usize,
    i1: Seq<usize>,
    d1: Seq<u128>,
    i2: Seq<usize>,
    d2: Seq<u128>,
    p: int,
)
    requires
        t.is_knn_result(q, k, i1, d1),
        t.is_knn_result(q, k, i2, d2),
        0 <= p < i1.len(),
        forall|r: int| 0 <= r < p ==> i1[r] == i2[r],
        i1[p] != i2[p],
    ensures
        !ranks_before((d1[p], i1[p]), d2[p] as int, i2[p] as int),
{
    let x = i1[p];
    if ranks_before((d1[p], i1[p]), d2[p] as int, i2[p] as int) {
    assert(i2.len() == i1.len());
    if i2.contains(x) {
        let j = choose|j: int| 0 <= j < i2.len() && i2[j] == x;
        if j < p {
            assert(i1[j] == x);
            assert(ranks_before((d1[j], i1[j]), d1[p] as int, i1[p] as int) && i1[j] == i1[j]);
        } else if j > p {
            assert(ranks_before((d2[p], i2[p]), d2[j] as int, i2[j] as int) && i2[p] == i2[p]);
            assert(d2[j] == d1[p]);
        }
    } else {
        assert(ranks_before((d2[p], i2[p]), M::measure(q, t.points@[x as int].coords@) as int, x as int));
        assert(d1[p] == M::measure(q, t.points@[x as int].coords@));
    }
    }
}

/// Idempotence: the `k` nearest points, ordered by (distance, index), are
/// unique, so any two results of a query on the same input agree.
pub proof fn lemma_knn_unique<M: Metric>(
    t: SRTree<M>,
    q: Seq<i32>,
    k: usize,
    i1: Seq<usize>,
    d1: Seq<u128>,
    i2: Seq<usize>,
    d2: Seq<u128>,
)
    requires
        t.is_knn_result(q, k, i1, d1),
        t.is_knn_result(q, k, i2, d2),
    ensures
        i1 == i2,
        d1 == d2,
{
    lemma_knn_prefix(t, q, k, i1, d1, i2, d2, i1.len() as int);
    assert(i1 =~= i2);
    assert forall|p: int| 0 <= p < d1.len() implies d1[p] == d2[p] by {
        assert(i1[p] == i2[p]);
    }
    assert(d1 =~= d2);
}

} // verus!
