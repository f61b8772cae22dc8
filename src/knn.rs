use vstd::prelude::*;
use crate::bulk_load::{in_subtree, leaf_point_ok, leaf_sorted};
use crate::geometry::{copy_coords, Point};
use crate::measure::node_holds;
use crate::select::{dist_le, lemma_same_elements, sort_pairs};
use crate::tree::{Metric, SRTree};

verus! {

/// The largest distance among the candidates; zero when there are none.
pub open spec fn seq_max(s: Seq<(u128, usize)>) -> int
    decreases s.len(),
{
    if s.len() == 0 {
        0
    } else {
        let m = seq_max(s.drop_last());
        if s.last().0 >= m {
            s.last().0 as int
        } else {
            m
        }
    }
}

pub proof fn lemma_seq_max(s: Seq<(u128, usize)>)
    ensures
        forall|i: int| 0 <= i < s.len() ==> (#[trigger] s[i]).0 <= seq_max(s),
        s.len() > 0 ==> exists|i: int| 0 <= i < s.len() && (#[trigger] s[i]).0 == seq_max(s),
        seq_max(s) >= 0,
    decreases s.len(),
{
    if s.len() > 0 {
        let t = s.drop_last();
        lemma_seq_max(t);
        assert forall|i: int| 0 <= i < s.len() implies (#[trigger] s[i]).0 <= seq_max(s) by {
            if i < s.len() - 1 {
                assert(s[i] == t[i]);
            }
        }
        if s.last().0 < seq_max(t) {
            let i = choose|i: int| 0 <= i < t.len() && (#[trigger] t[i]).0 == seq_max(t);
            assert(s[i] == t[i]);
        }
    }
}

pub proof fn lemma_seq_max_bound(s: Seq<(u128, usize)>, m: int)
    requires
        m >= 0,
        forall|i: int| 0 <= i < s.len() ==> (#[trigger] s[i]).0 <= m,
    ensures
        seq_max(s) <= m,
    decreases s.len(),
{
    if s.len() > 0 {
        let t = s.drop_last();
        assert forall|i: int| 0 <= i < t.len() implies (#[trigger] t[i]).0 <= m by {
            assert(t[i] == s[i]);
        }
        lemma_seq_max_bound(t, m);
    }
}

/// The candidate `a` comes before point `x` at measure `d` in the
/// order of (distance, index).
pub open spec fn ranks_before(a: (u128, usize), d: int, x: int) -> bool {
    a.0 < d || (a.0 == d && a.1 < x)
}

/// No point is a candidate twice.
pub open spec fn distinct_indices(s: Seq<(u128, usize)>) -> bool {
    forall|i: int, j: int| 0 <= i < j < s.len() ==> (#[trigger] s[i]).1 != (#[trigger] s[j]).1
}

/// Some candidate is point `x`.
pub open spec fn has_index(s: Seq<(u128, usize)>, x: int) -> bool {
    exists|i: int| 0 <= i < s.len() && (#[trigger] s[i]).1 == x
}

impl<M: Metric> SRTree<M> {
    /// Each candidate carries its point's measure from `q`.
    pub open spec fn cands_ok(&self, q: Seq<i32>, s: Seq<(u128, usize)>) -> bool {
        forall|i: int|
            0 <= i < s.len() ==> (#[trigger] s[i]).1 < self.points@.len() && s[i].0 == M::measure(
                q,
                self.points@[s[i].1 as int].coords@,
            )
    }

    /// Point `x` need not be among the candidates: they are `k` already and
    /// none is farther from `q` than `x`.
    pub open spec fn beaten(&self, q: Seq<i32>, k: usize, s: Seq<(u128, usize)>, x: int) -> bool {
        s.len() == k && forall|i: int|
            0 <= i < s.len() ==> ranks_before(#[trigger] s[i], M::measure(q, self.points@[x].coords@) as int, x)
    }
}

/// A duplicate-free sequence of indices below `n` has at most `n` entries,
/// and exactly `n` when it holds every index below `n`.
pub proof fn lemma_index_count(s: Seq<usize>, n: nat)
    requires
        n <= usize::MAX,
        s.no_duplicates(),
        forall|i: int| 0 <= i < s.len() ==> (#[trigger] s[i]) < n,
    ensures
        s.len() <= n,
        (forall|x: usize| x < n ==> #[trigger] s.contains(x)) ==> s.len() == n,
{
    let r = Seq::new(n, |i: int| i as usize);
    assert forall|a: int, b: int| 0 <= a < b < r.len() implies r[a] != r[b] by {
        assert(r[a] == a && r[b] == b);
    }
    assert(r.no_duplicates());
    r.unique_seq_to_set();
    s.unique_seq_to_set();
    vstd::seq_lib::seq_to_set_is_finite(r);
    vstd::seq_lib::seq_to_set_is_finite(s);
    assert(s.to_set().subset_of(r.to_set())) by {
        assert forall|x: usize| s.to_set().contains(x) implies r.to_set().contains(x) by {
            let i = choose|i: int| 0 <= i < s.len() && s[i] == x;
            assert(r[x as int] == x);
        }
    }
    vstd::set_lib::lemma_len_subset(s.to_set(), r.to_set());
    if forall|x: usize| x < n ==> #[trigger] s.contains(x) {
        assert(r.to_set().subset_of(s.to_set())) by {
            assert forall|x: usize| r.to_set().contains(x) implies s.to_set().contains(x) by {
                let i = choose|i: int| 0 <= i < r.len() && r[i] == x;
                assert(s.contains(x));
            }
        }
        vstd::set_lib::lemma_len_subset(r.to_set(), s.to_set());
    }
}

/// The position and distance of a farthest candidate.
fn farthest(s: &Vec<(u128, usize)>) -> (r: (usize, u128))
    requires
        s@.len() > 0,
    ensures
        r.0 < s@.len(),
        r.1 == s@[r.0 as int].0,
        r.1 == seq_max(s@),
        forall|j: int| 0 <= j < s@.len() ==> dist_le(#[trigger] s@[j], s@[r.0 as int]),
{
    proof {
        lemma_seq_max(s@);
    }
    let mut best: usize = 0;
    let mut i: usize = 1;
    while i < s.len()
        invariant
            1 <= i <= s@.len(),
            best < i,
            forall|j: int| 0 <= j < i ==> dist_le(#[trigger] s@[j], s@[best as int]),
        decreases s@.len() - i,
    {
        if s[i].0 > s[best].0 || (s[i].0 == s[best].0 && s[i].1 > s[best].1) {
            best = i;
        }
        i = i + 1;
    }
    proof {
        lemma_seq_max(s@);
        assert forall|j: int| 0 <= j < s@.len() implies (#[trigger] s@[j]).0 <= s@[best as int].0 by {
            assert(dist_le(s@[j], s@[best as int]));
        }
        lemma_seq_max_bound(s@, s@[best as int].0 as int);
    }
    (best, s[best].0)
}

impl<M: Metric> SRTree<M> {
    /// Point `x` is accounted for: a candidate, or beaten by the candidates.
    pub open spec fn settled(&self, q: Seq<i32>, k: usize, s: Seq<(u128, usize)>, x: int) -> bool {
        has_index(s, x) || self.beaten(q, k, s, x)
    }

    /// Offers point `x` at measure `d`: it joins the candidates while
    /// they are fewer than `k`, else it replaces a farthest one when closer.
    fn offer(&self, point: &Point, k: usize, cands: &mut Vec<(u128, usize)>, d: u128, x: usize)
        requires
            self.cands_ok(point.coords@, old(cands)@),
            old(cands)@.len() <= k,
            k >= 1,
            x < self.points@.len(),
            d == M::measure(point.coords@, self.points@[x as int].coords@),
            distinct_indices(old(cands)@),
            !has_index(old(cands)@, x as int),
        ensures
            distinct_indices(final(cands)@),
            forall|i: int|
                0 <= i < final(cands)@.len() ==> (#[trigger] final(cands)@[i]).1 == x || has_index(
                    old(cands)@,
                    final(cands)@[i].1 as int,
                ),
            self.cands_ok(point.coords@, final(cands)@),
            old(cands)@.len() <= final(cands)@.len() <= k,
            old(cands)@.len() == k ==> final(cands)@.len() == k && seq_max(final(cands)@) <= seq_max(old(cands)@),
            self.settled(point.coords@, k, final(cands)@, x as int),
            forall|y: int|
                0 <= y < self.points@.len() && #[trigger] self.settled(point.coords@, k, old(cands)@, y) ==> self.settled(
                    point.coords@,
                    k,
                    final(cands)@,
                    y,
                ),
    {
        let ghost before = cands@;
        proof {
            lemma_seq_max(before);
        }
        if cands.len() < k {
            cands.push((d, x));
            proof {
                assert(cands@[cands@.len() - 1].1 == x);
                assert forall|i: int| 0 <= i < cands@.len() implies (#[trigger] cands@[i]).1 == x || has_index(
                    before,
                    cands@[i].1 as int,
                ) by {
                    if i < before.len() {
                        assert(cands@[i] == before[i]);
                    }
                }
                assert forall|i: int, j: int| 0 <= i < j < cands@.len() implies (#[trigger] cands@[i]).1 != (#[trigger] cands@[j]).1 by {
                    assert(cands@[i] == before[i]);
                    if j < before.len() {
                        assert(cands@[j] == before[j]);
                    }
                }
                assert forall|y: int|
                    0 <= y < self.points@.len() && #[trigger] self.settled(point.coords@, k, before, y) implies self.settled(
                        point.coords@,
                        k,
                        cands@,
                        y,
                    ) by {
                    if has_index(before, y) {
                        let i = choose|i: int| 0 <= i < before.len() && (#[trigger] before[i]).1 == y;
                        assert(cands@[i] == before[i]);
                    }
                }
            }
        } else {
            let (m, md) = farthest(cands);
            let mx = cands[m].1;
            let ghost dq = M::measure(point.coords@, self.points@[x as int].coords@) as int;
            if d < md || (d == md && x < mx) {
                cands.set(m, (d, x));
                proof {
                    assert forall|i: int| 0 <= i < cands@.len() implies (#[trigger] cands@[i]).1 == x || has_index(
                        before,
                        cands@[i].1 as int,
                    ) by {
                        if i != m {
                            assert(cands@[i] == before[i]);
                        }
                    }
                    assert forall|i: int, j: int| 0 <= i < j < cands@.len() implies (#[trigger] cands@[i]).1 != (#[trigger] cands@[j]).1 by {
                        if i != m {
                            assert(cands@[i] == before[i]);
                        }
                        if j != m {
                            assert(cands@[j] == before[j]);
                        }
                    }
                    assert forall|i: int| 0 <= i < cands@.len() implies (#[trigger] cands@[i]).0 <= md by {
                        if i != m {
                            assert(cands@[i] == before[i]);
                            assert(dist_le(before[i], before[m as int]));
                        }
                    }
                    lemma_seq_max_bound(cands@, md as int);
                    assert(cands@[m as int].1 == x);
                    assert forall|y: int|
                        0 <= y < self.points@.len() && #[trigger] self.settled(point.coords@, k, before, y) implies self.settled(
                            point.coords@,
                            k,
                            cands@,
                            y,
                        ) by {
                        let dy = M::measure(point.coords@, self.points@[y].coords@) as int;
                        if has_index(before, y) {
                            let i = choose|i: int| 0 <= i < before.len() && (#[trigger] before[i]).1 == y;
                            if i != m {
                                assert(cands@[i] == before[i]);
                            } else {
                                assert(before[i].0 == dy);
                                assert forall|t: int| 0 <= t < cands@.len() implies ranks_before(#[trigger] cands@[t], dy, y) by {
                                    if t != m {
                                        assert(cands@[t] == before[t]);
                                        assert(dist_le(before[t], before[m as int]));
                                        assert(before[t].1 != before[m as int].1);
                                    }
                                }
                            }
                        } else {
                            assert forall|t: int| 0 <= t < cands@.len() implies ranks_before(#[trigger] cands@[t], dy, y) by {
                                if t != m {
                                    assert(cands@[t] == before[t]);
                                } else {
                                    assert(ranks_before(before[m as int], dy, y));
                                }
                            }
                        }
                    }
                }
            } else {
                proof {
                    assert(before[m as int].1 != x);
                    assert forall|t: int| 0 <= t < before.len() implies ranks_before(#[trigger] before[t], dq, x as int) by {
                        assert(dist_le(before[t], before[m as int]));
                    }
                }
            }
        }
    }
}

impl<M: Metric> SRTree<M> {
    /// Best-first search of the subtree of `node_index`: afterwards every point
    /// of the subtree, and every earlier candidate, is a candidate or beaten.
    fn search(&self, point: &Point, node_index: usize, k: usize, neighbors: &mut Vec<(u128, usize)>)
        requires
            self.build_ok(),
            node_index < self.nodes@.len(),
            point.coords@.len() == self.params.dimension,
            k >= 1,
            old(neighbors)@.len() <= k,
            self.cands_ok(point.coords@, old(neighbors)@),
            distinct_indices(old(neighbors)@),
            forall|i: int|
                0 <= i < old(neighbors)@.len() ==> !in_subtree(self.nodes@, node_index as int, (#[trigger] old(neighbors)@[i]).1 as int),
        ensures
            self.cands_ok(point.coords@, final(neighbors)@),
            distinct_indices(final(neighbors)@),
            forall|i: int|
                0 <= i < final(neighbors)@.len() ==> has_index(old(neighbors)@, (#[trigger] final(neighbors)@[i]).1 as int)
                    || in_subtree(self.nodes@, node_index as int, final(neighbors)@[i].1 as int),
            old(neighbors)@.len() <= final(neighbors)@.len() <= k,
            old(neighbors)@.len() == k ==> final(neighbors)@.len() == k && seq_max(final(neighbors)@) <= seq_max(
                old(neighbors)@,
            ),
            forall|x: int|
                0 <= x < self.points@.len() && (self.settled(point.coords@, k, old(neighbors)@, x)
                    || in_subtree(self.nodes@, node_index as int, x)) ==> #[trigger] self.settled(
                    point.coords@,
                    k,
                    final(neighbors)@,
                    x,
                ),
        decreases node_index, 1int,
    {
        if self.nodes[node_index].is_leaf() {
            self.search_leaf(point, node_index, k, neighbors);
        } else {
            self.search_children(point, node_index, k, neighbors);
        }
    }

    /// The search at a leaf: its points in order of descending radius, until the
    /// ball bound rules out the rest.
    #[verifier::rlimit(60)]
    fn search_leaf(&self, point: &Point, node_index: usize, k: usize, neighbors: &mut Vec<(u128, usize)>)
        requires
            self.build_ok(),
            node_index < self.nodes@.len(),
            self.nodes@[node_index as int].is_leaf_spec(),
            point.coords@.len() == self.params.dimension,
            k >= 1,
            old(neighbors)@.len() <= k,
            self.cands_ok(point.coords@, old(neighbors)@),
            distinct_indices(old(neighbors)@),
            forall|i: int|
                0 <= i < old(neighbors)@.len() ==> !in_subtree(self.nodes@, node_index as int, (#[trigger] old(neighbors)@[i]).1 as int),
        ensures
            self.cands_ok(point.coords@, final(neighbors)@),
            distinct_indices(final(neighbors)@),
            forall|i: int|
                0 <= i < final(neighbors)@.len() ==> has_index(old(neighbors)@, (#[trigger] final(neighbors)@[i]).1 as int)
                    || in_subtree(self.nodes@, node_index as int, final(neighbors)@[i].1 as int),
            old(neighbors)@.len() <= final(neighbors)@.len() <= k,
            old(neighbors)@.len() == k ==> final(neighbors)@.len() == k && seq_max(final(neighbors)@) <= seq_max(
                old(neighbors)@,
            ),
            forall|x: int|
                0 <= x < self.points@.len() && (self.settled(point.coords@, k, old(neighbors)@, x)
                    || in_subtree(self.nodes@, node_index as int, x)) ==> #[trigger] self.settled(
                    point.coords@,
                    k,
                    final(neighbors)@,
                    x,
                ),
    {
        let node = &self.nodes[node_index];
        proof {
            assert(self.node_inv(node_index as int));
        }
        let ghost start = neighbors@;
        assert(start == old(neighbors)@);
        let ghost q = point.coords@;
        let d0 = self.distance_squared(point, &node.sphere.center);
        let pts = node.points();
        let mut j: usize = 0;
        let mut done = false;
        while j < pts.len() && !done
            invariant
                self.build_ok(),
                node_index < self.nodes@.len(),
                node == self.nodes@[node_index as int],
                node.is_leaf_spec(),
                self.node_inv(node_index as int),
                pts@ == node.entries(),
                q == point.coords@,
                point.coords@.len() == self.params.dimension,
                d0 == M::measure(q, node.sphere.center.coords@),
                0 <= j <= pts@.len(),
                k >= 1,
                self.cands_ok(q, neighbors@),
                start.len() <= neighbors@.len() <= k,
                start.len() == k ==> neighbors@.len() == k && seq_max(neighbors@) <= seq_max(start),
                forall|x: int|
                    0 <= x < self.points@.len() && #[trigger] self.settled(q, k, start, x) ==> self.settled(
                        q,
                        k,
                        neighbors@,
                        x,
                    ),
                forall|jj: int| 0 <= jj < j ==> self.settled(q, k, neighbors@, #[trigger] pts@[jj] as int),
                distinct_indices(neighbors@),
                forall|i: int|
                    0 <= i < start.len() ==> !in_subtree(self.nodes@, node_index as int, (#[trigger] start[i]).1 as int),
                forall|i: int|
                    0 <= i < neighbors@.len() ==> has_index(start, (#[trigger] neighbors@[i]).1 as int) || exists|jj: int|
                        0 <= jj < j && pts@[jj] == neighbors@[i].1,
                done ==> forall|jj: int|
                    j <= jj < pts@.len() ==> self.beaten(q, k, neighbors@, #[trigger] pts@[jj] as int),
            decreases pts@.len() - j + (if done {
                0int
            } else {
                1int
            }),
        {
            let p = pts[j];
            proof {
                assert(leaf_point_ok::<M>(self.nodes@, self.points@, node_index as int, pts@[j as int] as int));
            }
            let cand = &self.points[p];
            let full = neighbors.len() == k;
            let mut kth: u128 = 0;
            if full {
                let (_, m) = farthest(neighbors);
                kth = m;
            }
            let bb = M::gap_between(d0, cand.radius_sq);
            if full && bb > kth {
                proof {
                    assert forall|jj: int| j <= jj < pts@.len() implies self.beaten(q, k, neighbors@, #[trigger] pts@[jj] as int) by {
                        let x = pts@[jj] as int;
                        assert(leaf_point_ok::<M>(self.nodes@, self.points@, node_index as int, x));
                        assert(leaf_sorted(self.nodes@, self.points@, node_index as int));
                        assert(pts@[j as int] == pts@[j as int]);
                        assert(self.points@[p as int].radius_sq >= self.points@[x].radius_sq);
                        M::lemma_gap_antitone(d0 as nat, self.points@[x].radius_sq as nat, cand.radius_sq as nat);
                        M::lemma_gap(q, self.points@[x].coords@, node.sphere.center.coords@, self.points@[x].radius_sq as nat);
                    }
                }
                done = true;
            } else {
                let d = self.distance_squared(point, cand);
                let ghost before = neighbors@;
                assert(cand.index == p);
                proof {
                    if has_index(neighbors@, p as int) {
                        let i = choose|i: int| 0 <= i < neighbors@.len() && (#[trigger] neighbors@[i]).1 == p as int;
                        if has_index(start, p as int) {
                            let i2 = choose|i2: int| 0 <= i2 < start.len() && (#[trigger] start[i2]).1 == p as int;
                            assert(pts@.contains(p));
                            assert(in_subtree(self.nodes@, node_index as int, start[i2].1 as int));
                        } else {
                            let jj = choose|jj: int| 0 <= jj < j && pts@[jj] == neighbors@[i].1;
                            assert(node.entries().no_duplicates());
                        }
                    }
                }
                self.offer(point, k, neighbors, d, cand.index);
                proof {
                    assert forall|i: int|
                        0 <= i < neighbors@.len() implies has_index(start, (#[trigger] neighbors@[i]).1 as int) || exists|jj: int|
                            0 <= jj < j + 1 && pts@[jj] == neighbors@[i].1 by {
                        if neighbors@[i].1 == p {
                            assert(pts@[j as int] == neighbors@[i].1);
                        } else {
                            assert(has_index(before, neighbors@[i].1 as int));
                            let i2 = choose|i2: int| 0 <= i2 < before.len() && (#[trigger] before[i2]).1 == neighbors@[i].1 as int;
                            assert(has_index(start, before[i2].1 as int) || exists|jj: int| 0 <= jj < j && pts@[jj] == before[i2].1);
                        }
                    }
                    assert forall|jj: int| 0 <= jj < j + 1 implies self.settled(q, k, neighbors@, #[trigger] pts@[jj] as int) by {
                        if jj < j {
                            assert(self.settled(q, k, before, pts@[jj] as int));
                        }
                    }
                }
                j = j + 1;
            }
        }
        proof {
            assert forall|i: int|
                0 <= i < neighbors@.len() implies has_index(start, (#[trigger] neighbors@[i]).1 as int)
                    || in_subtree(self.nodes@, node_index as int, neighbors@[i].1 as int) by {
                if !has_index(start, neighbors@[i].1 as int) {
                    let jj = choose|jj: int| 0 <= jj < j && pts@[jj] == neighbors@[i].1;
                    assert(pts@.contains(neighbors@[i].1));
                }
            }
            assert forall|x: int|
                0 <= x < self.points@.len() && (#[trigger] self.settled(point.coords@, k, start, x)
                    || in_subtree(self.nodes@, node_index as int, x)) implies self.settled(point.coords@, k, neighbors@, x) by {
                if in_subtree(self.nodes@, node_index as int, x) && !self.settled(q, k, start, x) {
                    let jj = choose|jj: int| 0 <= jj < pts@.len() && pts@[jj] == x as usize;
                    if jj >= j {
                        assert(done);
                        assert(self.beaten(q, k, neighbors@, pts@[jj] as int));
                    } else {
                        assert(self.settled(q, k, neighbors@, pts@[jj] as int));
                    }
                }
            }
        }
    }

    /// The search at an interior node: its children by ascending lower bound,
    /// until the bound exceeds the current `k`-th distance.
    #[verifier::rlimit(60)]
    #[verifier::spinoff_prover]
    fn search_children(&self, point: &Point, node_index: usize, k: usize, neighbors: &mut Vec<(u128, usize)>)
        requires
            self.build_ok(),
            node_index < self.nodes@.len(),
            !self.nodes@[node_index as int].is_leaf_spec(),
            point.coords@.len() == self.params.dimension,
            k >= 1,
            old(neighbors)@.len() <= k,
            self.cands_ok(point.coords@, old(neighbors)@),
            distinct_indices(old(neighbors)@),
            forall|i: int|
                0 <= i < old(neighbors)@.len() ==> !in_subtree(self.nodes@, node_index as int, (#[trigger] old(neighbors)@[i]).1 as int),
        ensures
            self.cands_ok(point.coords@, final(neighbors)@),
            distinct_indices(final(neighbors)@),
            forall|i: int|
                0 <= i < final(neighbors)@.len() ==> has_index(old(neighbors)@, (#[trigger] final(neighbors)@[i]).1 as int)
                    || in_subtree(self.nodes@, node_index as int, final(neighbors)@[i].1 as int),
            old(neighbors)@.len() <= final(neighbors)@.len() <= k,
            old(neighbors)@.len() == k ==> final(neighbors)@.len() == k && seq_max(final(neighbors)@) <= seq_max(
                old(neighbors)@,
            ),
            forall|x: int|
                0 <= x < self.points@.len() && (self.settled(point.coords@, k, old(neighbors)@, x)
                    || in_subtree(self.nodes@, node_index as int, x)) ==> #[trigger] self.settled(
                    point.coords@,
                    k,
                    final(neighbors)@,
                    x,
                ),
        decreases node_index, 0int,
    {
        let node = &self.nodes[node_index];
        proof {
            assert(self.node_inv(node_index as int));
        }
        let ghost start = neighbors@;
        assert(start == old(neighbors)@);
        let ghost q = point.coords@;
        let children = node.children();
        let mut to_visit: Vec<(u128, usize)> = Vec::new();
        let mut t: usize = 0;
        while t < children.len()
            invariant
                self.build_ok(),
                node_index < self.nodes@.len(),
                node == self.nodes@[node_index as int],
                !node.is_leaf_spec(),
                self.node_inv(node_index as int),
                children@ == node.entries(),
                point.coords@.len() == self.params.dimension,
                0 <= t <= children@.len(),
                to_visit@.len() == t,
                forall|s: int|
                    0 <= s < t ==> (#[trigger] to_visit@[s]).1 == children@[s] && forall|x: int|
                        0 <= x < self.points@.len() && in_subtree(self.nodes@, children@[s] as int, x)
                            ==> to_visit@[s].0 <= M::measure(point.coords@, self.points@[x].coords@),
            decreases children@.len() - t,
        {
            let c = children[t];
            proof {
                assert(self.node_inv(c as int));
            }
            let lb = self.point_to_node_min_distance(point, &self.nodes[c]);
            to_visit.push((lb, c));
            proof {
                assert forall|x: int|
                    0 <= x < self.points@.len() && in_subtree(self.nodes@, c as int, x) implies lb <= M::measure(
                    point.coords@,
                    self.points@[x].coords@,
                ) by {
                    assert(node_holds::<M>(self.nodes@[c as int], self.points@[x].coords@));
                }
            }
            t = t + 1;
        }
        let ghost unsorted = to_visit@;
        proof {
            assert forall|a: int, b: int| 0 <= a < b < unsorted.len() implies unsorted[a] != unsorted[b] by {
                assert(node.entries().no_duplicates());
                assert(children@[a] != children@[b]);
            }
        }
        sort_pairs(&mut to_visit);
        proof {
            lemma_same_elements(unsorted, to_visit@);
            crate::select::lemma_same_elements_no_dup(unsorted, to_visit@);
        }
        let mut j: usize = 0;
        let mut done = false;
        while j < to_visit.len() && !done
            invariant
                self.build_ok(),
                node_index < self.nodes@.len(),
                node == self.nodes@[node_index as int],
                !node.is_leaf_spec(),
                children@ == node.entries(),
                self.node_inv(node_index as int),
                q == point.coords@,
                point.coords@.len() == self.params.dimension,
                k >= 1,
                0 <= j <= to_visit@.len(),
                forall|a: int| 0 <= a < to_visit@.len() ==> unsorted.contains(#[trigger] to_visit@[a]),
                unsorted.len() == children@.len(),
                forall|a: int, b: int|
                    0 <= a <= b < to_visit@.len() ==> dist_le(#[trigger] to_visit@[a], #[trigger] to_visit@[b]),
                forall|s: int|
                    0 <= s < unsorted.len() ==> (#[trigger] unsorted[s]).1 == children@[s] && forall|x: int|
                        0 <= x < self.points@.len() && in_subtree(self.nodes@, children@[s] as int, x)
                            ==> unsorted[s].0 <= M::measure(point.coords@, self.points@[x].coords@),
                self.cands_ok(q, neighbors@),
                start.len() <= neighbors@.len() <= k,
                start.len() == k ==> neighbors@.len() == k && seq_max(neighbors@) <= seq_max(start),
                forall|x: int|
                    0 <= x < self.points@.len() && #[trigger] self.settled(q, k, start, x) ==> self.settled(
                        q,
                        k,
                        neighbors@,
                        x,
                    ),
                forall|a: int, x: int|
                    0 <= a < j && 0 <= x < self.points@.len() && #[trigger] in_subtree(
                        self.nodes@,
                        to_visit@[a].1 as int,
                        x,
                    ) ==> self.settled(q, k, neighbors@, x),
                done ==> neighbors@.len() == k && j < to_visit@.len() && to_visit@[j as int].0 > seq_max(neighbors@),
                distinct_indices(neighbors@),
                to_visit@.no_duplicates(),
                unsorted.no_duplicates(),
                forall|i: int|
                    0 <= i < start.len() ==> !in_subtree(self.nodes@, node_index as int, (#[trigger] start[i]).1 as int),
                forall|i: int|
                    0 <= i < neighbors@.len() ==> has_index(start, (#[trigger] neighbors@[i]).1 as int) || exists|a: int|
                        0 <= a < j && in_subtree(self.nodes@, to_visit@[a].1 as int, neighbors@[i].1 as int),
            decreases to_visit@.len() - j + (if done {
                0int
            } else {
                1int
            }),
        {
            let (child_distance, c) = to_visit[j];
            proof {
                assert(unsorted.contains(to_visit@[j as int]));
                let s = choose|s: int| 0 <= s < unsorted.len() && unsorted[s] == to_visit@[j as int];
                assert(children@[s] == c);
                assert(node.entries()[s] < node_index);
                assert(c < node_index);
            }
            let full = neighbors.len() == k;
            let mut kth: u128 = 0;
            if full {
                let (_, m) = farthest(neighbors);
                kth = m;
            }
            if full && child_distance > kth {
                done = true;
            } else {
                let ghost before = neighbors@;
                proof {
                    let sj = choose|s: int| 0 <= s < unsorted.len() && unsorted[s] == to_visit@[j as int];
                    assert forall|i: int|
                        0 <= i < neighbors@.len() implies !in_subtree(self.nodes@, c as int, (#[trigger] neighbors@[i]).1 as int) by {
                        let y = neighbors@[i].1 as int;
                        assert(y < self.points@.len());
                        if has_index(start, y) {
                            let i2 = choose|i2: int| 0 <= i2 < start.len() && (#[trigger] start[i2]).1 == y;
                            if in_subtree(self.nodes@, c as int, y) {
                                assert(node.entries()[sj] == c);
                                assert(in_subtree(self.nodes@, node_index as int, y));
                            }
                        } else {
                            let a = choose|a: int| 0 <= a < j && in_subtree(self.nodes@, to_visit@[a].1 as int, y);
                            assert(unsorted.contains(to_visit@[a]));
                            let sa = choose|s: int| 0 <= s < unsorted.len() && unsorted[s] == to_visit@[a];
                            if sa == sj {
                                assert(to_visit@[a] == to_visit@[j as int]);
                            }
                            assert(sa != sj);
                            self.lemma_siblings_disjoint(node_index as int, sa, sj, y);
                        }
                    }
                }
                self.search(point, c, k, neighbors);
                proof {
                    assert forall|i: int|
                        0 <= i < neighbors@.len() implies has_index(start, (#[trigger] neighbors@[i]).1 as int) || exists|a: int|
                            0 <= a < j + 1 && in_subtree(self.nodes@, to_visit@[a].1 as int, neighbors@[i].1 as int) by {
                        let y = neighbors@[i].1 as int;
                        if in_subtree(self.nodes@, c as int, y) {
                            assert(to_visit@[j as int].1 == c);
                        } else {
                            assert(has_index(before, y));
                            let i2 = choose|i2: int| 0 <= i2 < before.len() && (#[trigger] before[i2]).1 == y;
                            assert(has_index(start, before[i2].1 as int) || exists|a: int|
                                0 <= a < j && in_subtree(self.nodes@, to_visit@[a].1 as int, before[i2].1 as int));
                        }
                    }
                    assert forall|a: int, x: int|
                        0 <= a < j + 1 && 0 <= x < self.points@.len() && #[trigger] in_subtree(
                            self.nodes@,
                            to_visit@[a].1 as int,
                            x,
                        ) implies self.settled(q, k, neighbors@, x) by {
                        if a < j {
                            assert(self.settled(q, k, before, x));
                        } else {
                            assert(to_visit@[a].1 == c);
                        }
                    }
                }
                j = j + 1;
            }
        }
        proof {
            assert forall|i: int|
                0 <= i < neighbors@.len() implies has_index(start, (#[trigger] neighbors@[i]).1 as int)
                    || in_subtree(self.nodes@, node_index as int, neighbors@[i].1 as int) by {
                let y = neighbors@[i].1 as int;
                if !has_index(start, y) {
                    let a = choose|a: int| 0 <= a < j && in_subtree(self.nodes@, to_visit@[a].1 as int, y);
                    assert(unsorted.contains(to_visit@[a]));
                    let sa = choose|s: int| 0 <= s < unsorted.len() && unsorted[s] == to_visit@[a];
                    assert(node.entries()[sa] == to_visit@[a].1);
                    assert(node.entries()[sa] < node_index);
                }
            }
            assert forall|x: int|
                0 <= x < self.points@.len() && (#[trigger] self.settled(point.coords@, k, start, x)
                    || in_subtree(self.nodes@, node_index as int, x)) implies self.settled(point.coords@, k, neighbors@, x) by {
                if in_subtree(self.nodes@, node_index as int, x) && !self.settled(q, k, start, x) {
                    let s = choose|s: int|
                        0 <= s < node.entries().len() && 0 <= #[trigger] node.entries()[s] < node_index
                            && in_subtree(self.nodes@, node.entries()[s] as int, x);
                    assert(unsorted[s].1 == children@[s]);
                    assert(unsorted.contains(unsorted[s]));
                    assert(to_visit@.contains(unsorted[s]));
                    let a = choose|a: int| 0 <= a < to_visit@.len() && to_visit@[a] == unsorted[s];
                    if a >= j {
                        assert(done);
                        assert(dist_le(to_visit@[j as int], to_visit@[a]));
                        assert(in_subtree(self.nodes@, to_visit@[a].1 as int, x));
                        lemma_seq_max(neighbors@);
                        let dx = M::measure(point.coords@, self.points@[x].coords@) as int;
                        assert(to_visit@[a].0 <= dx);
                        assert forall|t: int| 0 <= t < neighbors@.len() implies ranks_before(#[trigger] neighbors@[t], dx, x) by {
                            assert(neighbors@[t].0 <= seq_max(neighbors@));
                        }
                    } else {
                        assert(in_subtree(self.nodes@, to_visit@[a].1 as int, x));
                    }
                }
            }
        }

    }
}

impl<M: Metric> SRTree<M> {
    /// `idx` and `ds` are the first `k` points (all of them when fewer) in the
    /// order of (measure from `q`, index), with their measures.
    pub open spec fn is_knn_result(&self, q: Seq<i32>, k: usize, idx: Seq<usize>, ds: Seq<u128>) -> bool {
        &&& idx.len() == ds.len()
        &&& idx.len() == if k <= self.points@.len() {
            k as int
        } else {
            self.points@.len() as int
        }
        &&& forall|i: int|
            0 <= i < idx.len() ==> (#[trigger] idx[i]) < self.points@.len() && ds[i] == M::measure(
                q,
                self.points@[idx[i] as int].coords@,
            )
        &&& forall|a: int, b: int|
            0 <= a < b < idx.len() ==> ranks_before((ds[a], idx[a]), ds[b] as int, #[trigger] idx[b] as int)
                && #[trigger] idx[a] == idx[a]
        &&& forall|x: usize|
            x < self.points@.len() && !(#[trigger] idx.contains(x)) ==> forall|i: int|
                0 <= i < idx.len() ==> ranks_before((ds[i], idx[i]), M::measure(q, self.points@[x as int].coords@) as int, x as int)
    }

    /// The `k` points nearest to `point_coords` by the metric's measure
    /// (fewer when the tree holds fewer), nearest first, with their
    /// distances. Empty when `k` is zero or `point_coords` does not have the
    /// tree's dimension.
    #[verifier::spinoff_prover]
    pub fn query(&self, point_coords: &[i32], k: usize) -> (r: (Vec<usize>, Vec<u128>))
        requires
            self.well_formed(),
        ensures
            (k == 0 || point_coords@.len() != self.params.dimension) ==> r.0@.len() == 0 && r.1@.len() == 0,
            r.0@.len() == r.1@.len(),
            r.0@.len() <= k,
            forall|i: int|
                0 <= i < r.0@.len() ==> (#[trigger] r.0@[i]) < self.points@.len() && r.1@[i] == M::measure(
                    point_coords@,
                    self.points@[r.0@[i] as int].coords@,
                ),
            forall|i: int, j: int| 0 <= i <= j < r.1@.len() ==> #[trigger] r.1@[i] <= #[trigger] r.1@[j],
            k > 0 && point_coords@.len() == self.params.dimension ==> forall|x: usize|
                x < self.points@.len() && !(#[trigger] r.0@.contains(x)) ==> r.0@.len() == k && forall|i: int|
                    0 <= i < r.1@.len() ==> r.1@[i] <= M::measure(point_coords@, self.points@[x as int].coords@),
            r.0@.no_duplicates(),
            k > 0 && point_coords@.len() == self.params.dimension ==> r.0@.len() == if k <= self.points@.len() {
                k as int
            } else {
                self.points@.len() as int
            },
            k > 0 && point_coords@.len() == self.params.dimension ==> self.is_knn_result(point_coords@, k, r.0@, r.1@),
    {
        let mut indices: Vec<usize> = Vec::new();
        let mut distances: Vec<u128> = Vec::new();
        if k == 0 || point_coords.len() != self.params.dimension {
            return (indices, distances);
        }
        let point = Point::with_coords(copy_coords(point_coords));
        let mut neighbors: Vec<(u128, usize)> = Vec::new();
        let ghost start = neighbors@;
        self.search(&point, self.root_index, k, &mut neighbors);
        let ghost found = neighbors@;
        proof {
            assert forall|a: int, b: int| 0 <= a < b < found.len() implies found[a] != found[b] by {
                assert(found[a].1 != found[b].1);
            }
        }
        sort_pairs(&mut neighbors);
        proof {
            lemma_same_elements(found, neighbors@);
            crate::select::lemma_same_elements_no_dup(found, neighbors@);
            assert forall|a: int, b: int| 0 <= a < b < neighbors@.len() implies (#[trigger] neighbors@[a]).1 != (#[trigger] neighbors@[b]).1 by {
                assert(found.contains(neighbors@[a]));
                assert(found.contains(neighbors@[b]));
                let fa = choose|t: int| 0 <= t < found.len() && found[t] == neighbors@[a];
                let fb = choose|t: int| 0 <= t < found.len() && found[t] == neighbors@[b];
                if fa != fb {
                    if fa < fb {
                        assert(found[fa].1 != found[fb].1);
                    } else {
                        assert(found[fb].1 != found[fa].1);
                    }
                }
            }
            lemma_seq_max(found);
            assert forall|a: int| 0 <= a < neighbors@.len() implies (#[trigger] neighbors@[a]).0 <= seq_max(found) by {
                assert(found.contains(neighbors@[a]));
            }
            lemma_seq_max_bound(neighbors@, seq_max(found));
        }
        let mut i: usize = 0;
        while i < neighbors.len()
            invariant
                0 <= i <= neighbors@.len(),
                indices@.len() == i,
                distances@.len() == i,
                forall|t: int| 0 <= t < i ==> #[trigger] indices@[t] == neighbors@[t].1 && distances@[t] == neighbors@[t].0,
            decreases neighbors@.len() - i,
        {
            indices.push(neighbors[i].1);
            distances.push(neighbors[i].0);
            i = i + 1;
        }
        proof {
            assert forall|t: int|
                0 <= t < indices@.len() implies (#[trigger] indices@[t]) < self.points@.len() && distances@[t] == M::measure(
                    point_coords@,
                    self.points@[indices@[t] as int].coords@,
                ) by {
                assert(found.contains(neighbors@[t]));
                let s = choose|s: int| 0 <= s < found.len() && found[s] == neighbors@[t];
            }
            assert forall|a: int, b: int| 0 <= a <= b < distances@.len() implies #[trigger] distances@[a] <= #[trigger] distances@[b] by {
                assert(dist_le(neighbors@[a], neighbors@[b]));
                assert(indices@[a] == neighbors@[a].1);
                assert(indices@[b] == neighbors@[b].1);
            }
            assert forall|x: usize| x < self.points@.len() && !(#[trigger] indices@.contains(x)) implies indices@.len() == k
                && forall|t: int| 0 <= t < distances@.len() ==> distances@[t] <= M::measure(point_coords@, self.points@[x as int].coords@) by {
                assert(in_subtree(self.nodes@, self.root_index as int, x as int));
                assert(self.settled(point.coords@, k, start, x as int) || in_subtree(self.nodes@, self.root_index as int, x as int));
                assert(self.settled(point.coords@, k, found, x as int));
                if has_index(found, x as int) {
                    let s = choose|s: int| 0 <= s < found.len() && (#[trigger] found[s]).1 == x as int;
                    assert(neighbors@.contains(found[s]));
                    let a = choose|a: int| 0 <= a < neighbors@.len() && neighbors@[a] == found[s];
                    assert(indices@[a] == x);
                }
                assert forall|t: int| 0 <= t < distances@.len() implies distances@[t] <= M::measure(point_coords@, self.points@[x as int].coords@) by {
                    assert(neighbors@[t].0 <= seq_max(found));
                    assert(indices@[t] == neighbors@[t].1);
                }
            }
        }
        proof {
            assert forall|a: int, b: int| 0 <= a < b < indices@.len() implies indices@[a] != indices@[b] by {
                assert(indices@[a] == neighbors@[a].1);
                assert(indices@[b] == neighbors@[b].1);
            }
            lemma_index_count(indices@, self.points@.len());
            if indices@.len() < k {
                assert forall|x: usize| x < self.points@.len() implies #[trigger] indices@.contains(x) by {
                }
            }
            assert forall|a: int, b: int| 0 <= a < b < indices@.len() implies ranks_before(
                (distances@[a], indices@[a]),
                distances@[b] as int,
                indices@[b] as int,
            ) by {
                assert(dist_le(neighbors@[a], neighbors@[b]));
                assert(indices@[a] == neighbors@[a].1 && distances@[a] == neighbors@[a].0);
                assert(indices@[b] == neighbors@[b].1 && distances@[b] == neighbors@[b].0);
            }
            assert forall|x: usize| x < self.points@.len() && !(#[trigger] indices@.contains(x)) implies forall|i: int|
                0 <= i < indices@.len() ==> ranks_before(
                    (distances@[i], indices@[i]),
                    M::measure(point_coords@, self.points@[x as int].coords@) as int,
                    x as int,
                ) by {
                assert(in_subtree(self.nodes@, self.root_index as int, x as int));
                assert(self.settled(point.coords@, k, start, x as int) || in_subtree(self.nodes@, self.root_index as int, x as int));
                assert(self.settled(point.coords@, k, found, x as int));
                if has_index(found, x as int) {
                    let s = choose|s: int| 0 <= s < found.len() && (#[trigger] found[s]).1 == x as int;
                    assert(neighbors@.contains(found[s]));
                    let a = choose|a: int| 0 <= a < neighbors@.len() && neighbors@[a] == found[s];
                    assert(indices@[a] == x);
                }
                assert forall|i: int| 0 <= i < indices@.len() implies ranks_before(
                    (distances@[i], indices@[i]),
                    M::measure(point_coords@, self.points@[x as int].coords@) as int,
                    x as int,
                ) by {
                    assert(indices@[i] == neighbors@[i].1 && distances@[i] == neighbors@[i].0);
                    assert(found.contains(neighbors@[i]));
                    let f = choose|f: int| 0 <= f < found.len() && found[f] == neighbors@[i];
                    assert(ranks_before(found[f], M::measure(point.coords@, self.points@[x as int].coords@) as int, x as int));
                }
            }
        }
        (indices, distances)
    }
}

} // verus!
