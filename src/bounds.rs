use vstd::prelude::*;
use crate::geometry::{clamp, far_end, lemma_sq_dist_n_bounds, sq, sq_dist, sq_dist_n};

verus! {

/// The largest `r` with `r * r <= n`.
pub open spec fn floor_sqrt(n: nat) -> nat
    decreases n,
{
    if n == 0 {
        0
    } else {
        let s = floor_sqrt((n - 1) as nat);
        if (s + 1) * (s + 1) <= n {
            s + 1
        } else {
            s
        }
    }
}

/// The smallest `r` with `n <= r * r`.
pub open spec fn ceil_sqrt(n: nat) -> nat {
    let s = floor_sqrt(n);
    if s * s == n {
        s
    } else {
        s + 1
    }
}

pub proof fn lemma_floor_sqrt(n: nat)
    ensures
        floor_sqrt(n) * floor_sqrt(n) <= n < (floor_sqrt(n) + 1) * (floor_sqrt(n) + 1),
    decreases n,
{
    if n == 0 {
        assert(floor_sqrt(0) == 0);
        assert((0 + 1) * (0 + 1) == 1) by (nonlinear_arith);
    } else {
        lemma_floor_sqrt((n - 1) as nat);
        let s = floor_sqrt((n - 1) as nat);
        let t = s + 1;
        if t * t <= n {
            assert(floor_sqrt(n) == t);
            assert(n < (t + 1) * (t + 1)) by (nonlinear_arith)
                requires
                    n - 1 < t * t,
                    t >= 1,
            ;
        } else {
            assert(floor_sqrt(n) == s);
            assert(s * s <= n);
        }
    }
}

pub proof fn lemma_floor_sqrt_unique(n: nat, a: nat)
    requires
        a * a <= n < (a + 1) * (a + 1),
    ensures
        floor_sqrt(n) == a,
{
    lemma_floor_sqrt(n);
    let s = floor_sqrt(n);
    if s < a {
        assert((s + 1) * (s + 1) <= a * a) by (nonlinear_arith)
            requires
                s + 1 <= a,
        ;
    } else if a < s {
        assert((a + 1) * (a + 1) <= s * s) by (nonlinear_arith)
            requires
                a + 1 <= s,
        ;
    }
}

pub proof fn lemma_ceil_sqrt(n: nat)
    ensures
        n <= ceil_sqrt(n) * ceil_sqrt(n),
        ceil_sqrt(n) == 0 || (ceil_sqrt(n) - 1) * (ceil_sqrt(n) - 1) < n,
{
    lemma_floor_sqrt(n);
    let s = floor_sqrt(n);
    if s * s == n {
        if s > 0 {
            assert((s - 1) * (s - 1) < s * s) by (nonlinear_arith)
                requires
                    s > 0,
            ;
        }
    } else {
        assert(ceil_sqrt(n) == s + 1);
        assert((s + 1) - 1 == s);
    }
}

/// Squared lower bound on the distance from a query to any point of a ball,
/// from the squared distance `d` to the center and the squared radius `r`:
/// the square of `floor_sqrt(d) - ceil_sqrt(r)` when that is positive, else zero.
pub open spec fn ball_gap_sq(d: nat, r: nat) -> nat {
    let a = floor_sqrt(d);
    let b = ceil_sqrt(r);
    if a > b {
        ((a - b) * (a - b)) as nat
    } else {
        0
    }
}

/// Sum over the first `n` axes of `(q - p) * (p - c)`.
pub open spec fn cross_n(q: Seq<i32>, p: Seq<i32>, c: Seq<i32>, n: int) -> int
    decreases n,
{
    if n <= 0 {
        0
    } else {
        cross_n(q, p, c, n - 1) + (q[n - 1] - p[n - 1]) * (p[n - 1] - c[n - 1])
    }
}

proof fn lemma_split(q: Seq<i32>, p: Seq<i32>, c: Seq<i32>, n: int)
    ensures
        sq_dist_n(q, c, n) == sq_dist_n(q, p, n) + sq_dist_n(p, c, n) + 2 * cross_n(q, p, c, n),
    decreases n,
{
    if n > 0 {
        lemma_split(q, p, c, n - 1);
        let u = q[n - 1] - p[n - 1];
        let v = p[n - 1] - c[n - 1];
        assert(sq(q[n - 1] - c[n - 1]) == sq(u) + sq(v) + 2 * (u * v)) by (nonlinear_arith)
            requires
                q[n - 1] - c[n - 1] == u + v,
        ;
    }
}

proof fn lemma_weighted_step(aa: int, bb: int, s: int, u: int, v: int, x: int, y: int)
    requires
        2 * s * x * y <= aa * (y * y) + bb * (x * x),
    ensures
        2 * (s + u * v) * x * y <= (aa + u * u) * (y * y) + (bb + v * v) * (x * x),
{
    let a = u * y;
    let b = v * x;
    assert(0 <= (a - b) * (a - b)) by (nonlinear_arith);
    assert((a - b) * (a - b) == a * a + b * b - 2 * (a * b)) by (nonlinear_arith);
    assert(a * a == u * u * (y * y)) by (nonlinear_arith)
        requires
            a == u * y,
    ;
    assert(b * b == v * v * (x * x)) by (nonlinear_arith)
        requires
            b == v * x,
    ;
    assert(a * b == (u * v) * x * y) by (nonlinear_arith)
        requires
            a == u * y,
            b == v * x,
    ;
    assert((aa + u * u) * (y * y) == aa * (y * y) + u * u * (y * y)) by (nonlinear_arith);
    assert((bb + v * v) * (x * x) == bb * (x * x) + v * v * (x * x)) by (nonlinear_arith);
    assert(2 * (s + u * v) * x * y == 2 * s * x * y + 2 * (u * v) * x * y) by (nonlinear_arith);
    assert(2 * (u * v) * x * y == 2 * ((u * v) * x * y)) by (nonlinear_arith);
}

proof fn lemma_cauchy_step(aa: int, bb: int, s: int, u: int, v: int)
    requires
        s * s <= aa * bb,
        2 * s * u * v <= aa * (v * v) + bb * (u * u),
    ensures
        (s + u * v) * (s + u * v) <= (aa + u * u) * (bb + v * v),
{
    assert((s + u * v) * (s + u * v) == s * s + 2 * s * u * v + (u * u) * (v * v))
        by (nonlinear_arith);
    assert((aa + u * u) * (bb + v * v) == aa * bb + aa * (v * v) + bb * (u * u) + (u * u) * (v * v))
        by (nonlinear_arith);
}

proof fn lemma_cross_weighted(q: Seq<i32>, p: Seq<i32>, c: Seq<i32>, n: int, x: int, y: int)
    ensures
        2 * cross_n(q, p, c, n) * x * y <= sq_dist_n(q, p, n) * (y * y) + sq_dist_n(p, c, n) * (x
            * x),
    decreases n,
{
    if n > 0 {
        lemma_cross_weighted(q, p, c, n - 1, x, y);
        let u = q[n - 1] - p[n - 1];
        let v = p[n - 1] - c[n - 1];
        let s = cross_n(q, p, c, n - 1);
        let aa = sq_dist_n(q, p, n - 1);
        let bb = sq_dist_n(p, c, n - 1);
        assert(cross_n(q, p, c, n) == s + u * v);
        assert(sq_dist_n(q, p, n) == aa + u * u);
        assert(sq_dist_n(p, c, n) == bb + v * v);
        lemma_weighted_step(aa, bb, s, u, v, x, y);
        assert(2 * cross_n(q, p, c, n) * x * y == 2 * (s + u * v) * x * y);
        assert(sq_dist_n(q, p, n) * (y * y) == (aa + u * u) * (y * y));
        assert(sq_dist_n(p, c, n) * (x * x) == (bb + v * v) * (x * x));
    } else {
        assert(2 * 0 * x * y <= 0 * (y * y) + 0 * (x * x)) by (nonlinear_arith);
    }
}

proof fn lemma_cauchy_schwarz(q: Seq<i32>, p: Seq<i32>, c: Seq<i32>, n: int)
    ensures
        cross_n(q, p, c, n) * cross_n(q, p, c, n) <= sq_dist_n(q, p, n) * sq_dist_n(p, c, n),
    decreases n,
{
    if n > 0 {
        lemma_cauchy_schwarz(q, p, c, n - 1);
        let u = q[n - 1] - p[n - 1];
        let v = p[n - 1] - c[n - 1];
        lemma_cross_weighted(q, p, c, n - 1, u, v);
        let s = cross_n(q, p, c, n - 1);
        let aa = sq_dist_n(q, p, n - 1);
        let bb = sq_dist_n(p, c, n - 1);
        assert(cross_n(q, p, c, n) == s + u * v);
        assert(sq_dist_n(q, p, n) == aa + u * u);
        assert(sq_dist_n(p, c, n) == bb + v * v);
        lemma_cauchy_step(aa, bb, s, u, v);
    }
}

pub proof fn lemma_sq_dist_symmetric(a: Seq<i32>, b: Seq<i32>, n: int)
    ensures
        sq_dist_n(a, b, n) == sq_dist_n(b, a, n),
    decreases n,
{
    if n > 0 {
        lemma_sq_dist_symmetric(a, b, n - 1);
        assert(sq(a[n - 1] - b[n - 1]) == sq(b[n - 1] - a[n - 1])) by (nonlinear_arith);
    }
}

/// The ball bound: no point within squared distance `r` of the center `c`
/// lies closer to `q` than the squared gap.
pub proof fn lemma_ball_gap(q: Seq<i32>, p: Seq<i32>, c: Seq<i32>, r: nat)
    requires
        q.len() == p.len(),
        p.len() == c.len(),
        sq_dist(c, p) <= r,
    ensures
        ball_gap_sq(sq_dist(q, c) as nat, r) <= sq_dist(q, p),
{
    let n = q.len() as int;
    lemma_sq_dist_n_bounds(q, c, n);
    lemma_sq_dist_n_bounds(q, p, n);
    lemma_sq_dist_n_bounds(p, c, n);
    lemma_sq_dist_symmetric(c, p, n);
    lemma_split(q, p, c, n);
    lemma_cauchy_schwarz(q, p, c, n);
    let d = sq_dist(q, c) as nat;
    lemma_floor_sqrt(d);
    lemma_ceil_sqrt(r);
    let a = floor_sqrt(d) as int;
    let b = ceil_sqrt(r) as int;
    if a > b {
        let l = a - b;
        let x = sq_dist_n(q, p, n);
        let y = sq_dist_n(p, c, n);
        let w = cross_n(q, p, c, n);
        if x < l * l {
            assert(x * y <= (l * l) * (b * b)) by (nonlinear_arith)
                requires
                    0 <= x < l * l,
                    0 <= y <= b * b,
            ;
            assert(w <= l * b) by (nonlinear_arith)
                requires
                    w * w <= (l * l) * (b * b),
                    l > 0,
                    b >= 0,
            ;
            assert(a * a == l * l + b * b + 2 * (l * b)) by (nonlinear_arith)
                requires
                    a == l + b,
            ;
        }
    }
}

/// The triangle inequality, squared: `q` lies within `ceil_sqrt(d) + ceil_sqrt(r)`
/// of any point within squared distance `r` of the center `c`, where `d` is the
/// squared distance from `q` to `c`.
pub proof fn lemma_ball_reach(q: Seq<i32>, p: Seq<i32>, c: Seq<i32>, r: nat)
    requires
        q.len() == p.len(),
        p.len() == c.len(),
        sq_dist(c, p) <= r,
    ensures
        sq_dist(q, p) <= (ceil_sqrt(sq_dist(q, c) as nat) + ceil_sqrt(r)) * (ceil_sqrt(
            sq_dist(q, c) as nat,
        ) + ceil_sqrt(r)),
{
    let n = q.len() as int;
    lemma_sq_dist_n_bounds(q, c, n);
    lemma_sq_dist_n_bounds(c, p, n);
    lemma_split(q, c, p, n);
    lemma_cauchy_schwarz(q, c, p, n);
    let d = sq_dist(q, c) as nat;
    lemma_ceil_sqrt(d);
    lemma_ceil_sqrt(r);
    let a = ceil_sqrt(d) as int;
    let b = ceil_sqrt(r) as int;
    let x = sq_dist_n(q, c, n);
    let y = sq_dist_n(c, p, n);
    let w = cross_n(q, c, p, n);
    assert(x * y <= (a * a) * (b * b)) by (nonlinear_arith)
        requires
            0 <= x <= a * a,
            0 <= y <= b * b,
    ;
    assert(w <= a * b) by (nonlinear_arith)
        requires
            w * w <= (a * a) * (b * b),
            a >= 0,
            b >= 0,
    ;
    assert((a + b) * (a + b) == a * a + b * b + 2 * (a * b)) by (nonlinear_arith);
}

/// Every point of a box lies at least as far from `q` as the clamp of `q`
/// into the box.
pub proof fn lemma_clamp_nearest(q: Seq<i32>, k: Seq<i32>, p: Seq<i32>, lo: Seq<i32>, hi: Seq<i32>, n: int)
    requires
        0 <= n <= q.len(),
        q.len() == k.len(),
        k.len() == p.len(),
        p.len() == lo.len(),
        lo.len() == hi.len(),
        forall|i: int| 0 <= i < q.len() ==> k[i] == clamp(q[i] as int, lo[i] as int, hi[i] as int),
        forall|i: int| 0 <= i < q.len() ==> lo[i] <= #[trigger] p[i] <= hi[i],
    ensures
        sq_dist_n(q, k, n) <= sq_dist_n(q, p, n),
    decreases n,
{
    if n > 0 {
        lemma_clamp_nearest(q, k, p, lo, hi, n - 1);
        let i = n - 1;
        assert(lo[i] <= p[i] <= hi[i]);
        assert(sq(q[i] - k[i]) <= sq(q[i] - p[i])) by (nonlinear_arith)
            requires
                k[i] == clamp(q[i] as int, lo[i] as int, hi[i] as int),
                lo[i] <= p[i] <= hi[i],
        ;
    }
}

/// Every point of a box lies at most as far from `q` as the box's farthest corner.
pub proof fn lemma_far_corner(q: Seq<i32>, f: Seq<i32>, p: Seq<i32>, lo: Seq<i32>, hi: Seq<i32>, n: int)
    requires
        0 <= n <= q.len(),
        q.len() == f.len(),
        f.len() == p.len(),
        p.len() == lo.len(),
        lo.len() == hi.len(),
        forall|i: int| 0 <= i < q.len() ==> f[i] == far_end(q[i] as int, lo[i] as int, hi[i] as int),
        forall|i: int| 0 <= i < q.len() ==> lo[i] <= #[trigger] p[i] <= hi[i],
    ensures
        sq_dist_n(q, p, n) <= sq_dist_n(q, f, n),
    decreases n,
{
    if n > 0 {
        lemma_far_corner(q, f, p, lo, hi, n - 1);
        let i = n - 1;
        assert(lo[i] <= p[i] <= hi[i]);
        assert(sq(q[i] - p[i]) <= sq(q[i] - f[i])) by (nonlinear_arith)
            requires
                f[i] == far_end(q[i] as int, lo[i] as int, hi[i] as int),
                lo[i] <= p[i] <= hi[i],
        ;
    }
}

} // verus!

verus! {

/// The integer square root, rounded down.
pub fn floor_sqrt_exec(n: u128) -> (r: u128)
    ensures
        r == floor_sqrt(n as nat),
        r < 0x1_0000_0000_0000_0000,
{
    let mut lo: u128 = 0;
    let mut hi: u128 = 0x1_0000_0000_0000_0000;
    proof {
        assert(hi * hi == 0x1_0000_0000_0000_0000 * 0x1_0000_0000_0000_0000) by (nonlinear_arith)
            requires
                hi == 0x1_0000_0000_0000_0000,
        ;
    }
    while hi - lo > 1
        invariant
            lo < hi <= 0x1_0000_0000_0000_0000,
            lo * lo <= n,
            n < hi * hi,
        decreases hi - lo,
    {
        let mid = lo + (hi - lo) / 2;
        proof {
            assert(mid * mid < 0x1_0000_0000_0000_0000 * 0x1_0000_0000_0000_0000) by (nonlinear_arith)
                requires
                    mid < 0x1_0000_0000_0000_0000,
            ;
        }
        if mid * mid <= n {
            lo = mid;
        } else {
            hi = mid;
        }
    }
    proof {
        lemma_floor_sqrt_unique(n as nat, lo as nat);
    }
    lo
}

/// The integer square root, rounded up.
pub fn ceil_sqrt_exec(n: u128) -> (r: u128)
    ensures
        r == ceil_sqrt(n as nat),
        r <= 0x1_0000_0000_0000_0000,
{
    let s = floor_sqrt_exec(n);
    proof {
        assert(s * s < 0x1_0000_0000_0000_0000 * 0x1_0000_0000_0000_0000) by (nonlinear_arith)
            requires
                s < 0x1_0000_0000_0000_0000,
        ;
    }
    if s * s == n {
        s
    } else {
        s + 1
    }
}

/// The ball bound `ball_gap_sq(d, r)`.
pub fn ball_gap_exec(d: u128, r: u128) -> (g: u128)
    ensures
        g == ball_gap_sq(d as nat, r as nat),
{
    let a = floor_sqrt_exec(d);
    let b = ceil_sqrt_exec(r);
    if a > b {
        proof {
            assert((a - b) * (a - b) < 0x1_0000_0000_0000_0000 * 0x1_0000_0000_0000_0000)
                by (nonlinear_arith)
                requires
                    0 < a - b < 0x1_0000_0000_0000_0000,
            ;
        }
        (a - b) * (a - b)
    } else {
        0
    }
}

/// A smaller radius leaves a larger gap.
pub proof fn lemma_ball_gap_antitone(d: nat, r1: nat, r2: nat)
    requires
        r1 <= r2,
    ensures
        ball_gap_sq(d, r2) <= ball_gap_sq(d, r1),
{
    lemma_ceil_sqrt(r1);
    lemma_ceil_sqrt(r2);
    let b1 = ceil_sqrt(r1) as int;
    let b2 = ceil_sqrt(r2) as int;
    if b1 > b2 {
        assert((b1 - 1) * (b1 - 1) >= b2 * b2) by (nonlinear_arith)
            requires
                b1 - 1 >= b2,
                b2 >= 0,
        ;
    }
    let a = floor_sqrt(d) as int;
    if a > b2 {
        assert((a - b2) * (a - b2) <= (a - b1) * (a - b1)) by (nonlinear_arith)
            requires
                b1 <= b2 < a,
                b1 >= 0,
        ;
    }
}

pub proof fn lemma_sq_dist_self(a: Seq<i32>, n: int)
    ensures
        sq_dist_n(a, a, n) == 0,
    decreases n,
{
    if n > 0 {
        lemma_sq_dist_self(a, n - 1);
        assert(sq(a[n - 1] - a[n - 1]) == 0);
    }
}

/// `(ceil_sqrt(d) + ceil_sqrt(r))` squared, held at `u128::MAX`.
pub fn ball_reach_exec(d: u128, r: u128) -> (g: u128)
    ensures
        g == crate::measure::saturate(crate::measure::ball_reach_sq(d as nat, r as nat)),
{
    let a = ceil_sqrt_exec(d);
    let b = ceil_sqrt_exec(r);
    if a >= 0x1_0000_0000_0000_0000 || b >= 0x1_0000_0000_0000_0000 - a {
        proof {
            assert((a + b) * (a + b) >= 0x1_0000_0000_0000_0000 * 0x1_0000_0000_0000_0000) by (nonlinear_arith)
                requires
                    a + b >= 0x1_0000_0000_0000_0000,
            ;
        }
        u128::MAX
    } else {
        let s = a + b;
        proof {
            assert(s * s < 0x1_0000_0000_0000_0000 * 0x1_0000_0000_0000_0000) by (nonlinear_arith)
                requires
                    0 <= s < 0x1_0000_0000_0000_0000,
            ;
        }
        s * s
    }
}

} // verus!
