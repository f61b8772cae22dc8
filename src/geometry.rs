use vstd::prelude::*;
use crate::bounds::{ceil_sqrt, ceil_sqrt_exec, floor_sqrt, floor_sqrt_exec};

verus! {

/// Largest number of axes a coordinate vector may have; it keeps every
/// squared distance inside `u128`.
pub const MAX_DIMENSION: usize = 4294967295;

pub open spec fn sq(x: int) -> int {
    x * x
}

/// Squared Euclidean distance over the first `n` axes.
pub open spec fn sq_dist_n(a: Seq<i32>, b: Seq<i32>, n: int) -> int
    decreases n,
{
    if n <= 0 {
        0
    } else {
        sq_dist_n(a, b, n - 1) + sq(a[n - 1] - b[n - 1])
    }
}

/// Squared Euclidean distance between two coordinate vectors of equal length.
pub open spec fn sq_dist(a: Seq<i32>, b: Seq<i32>) -> int {
    sq_dist_n(a, b, a.len() as int)
}

pub proof fn lemma_sq_dist_n_bounds(a: Seq<i32>, b: Seq<i32>, n: int)
    requires
        0 <= n <= a.len(),
        n <= b.len(),
    ensures
        0 <= sq_dist_n(a, b, n) <= n * 0x1_0000_0000_0000_0000,
    decreases n,
{
    if n > 0 {
        lemma_sq_dist_n_bounds(a, b, n - 1);
        let d = a[n - 1] - b[n - 1];
        assert(-0x1_0000_0000 < d < 0x1_0000_0000);
        assert(0 <= d * d <= 0x1_0000_0000_0000_0000) by (nonlinear_arith)
            requires
                -0x1_0000_0000 < d < 0x1_0000_0000,
        ;
    }
}

/// Squared distance of equal-length vectors; `None` stands for the infinite
/// distance between vectors of different lengths.
pub fn squared_distance(a: &[i32], b: &[i32]) -> (r: Option<u128>)
    requires
        a@.len() <= MAX_DIMENSION,
    ensures
        a@.len() != b@.len() <==> r is None,
        r matches Some(d) ==> d == sq_dist(a@, b@),
{
    if a.len() != b.len() {
        return None;
    }
    Some(sq_distance_exact(a, b))
}

pub fn sq_distance_exact(a: &[i32], b: &[i32]) -> (r: u128)
    requires
        a@.len() == b@.len(),
        a@.len() <= MAX_DIMENSION,
    ensures
        r == sq_dist(a@, b@),
{
    let mut acc: u128 = 0;
    let mut i: usize = 0;
    while i < a.len()
        invariant
            0 <= i <= a@.len(),
            a@.len() == b@.len(),
            a@.len() <= MAX_DIMENSION,
            acc == sq_dist_n(a@, b@, i as int),
        decreases a@.len() - i,
    {
        proof {
            lemma_sq_dist_n_bounds(a@, b@, i as int + 1);
        }
        let d: i64 = a[i] as i64 - b[i] as i64;
        proof {
            assert(0 <= d * d <= 0x1_0000_0000_0000_0000) by (nonlinear_arith)
                requires
                    -0x1_0000_0000 < d < 0x1_0000_0000,
            ;
        }
        let dd: i128 = d as i128 * d as i128;
        proof {
            assert(0 <= dd <= 0x1_0000_0000_0000_0000) by (nonlinear_arith)
                requires
                    dd == d * d,
                    -0x1_0000_0000 < d < 0x1_0000_0000,
            ;
            assert(sq_dist_n(a@, b@, i as int + 1) == acc + dd);
            assert((i as int + 1) * 0x1_0000_0000_0000_0000 <= 0x1_0000_0000 * 0x1_0000_0000_0000_0000)
                by (nonlinear_arith)
                requires
                    i < 0x1_0000_0000,
            ;
        }
        acc = acc + dd as u128;
        i = i + 1;
    }
    acc
}

} // verus!

verus! {

/// A coordinate vector together with the bookkeeping a tree keeps for it.
pub struct Point {
    pub coords: Vec<i32>,
    /// Squared distance to the center of the leaf that holds the point.
    pub radius_sq: u128,
    /// Position of the point in the input.
    pub index: usize,
    /// Arena index of the leaf that holds the point; `usize::MAX` when none.
    pub parent_index: usize,
}

impl Point {
    pub fn new(coords: Vec<i32>, index: usize) -> (r: Point)
        ensures
            r.coords@ == coords@,
            r.radius_sq == 0,
            r.index == index,
            r.parent_index == usize::MAX,
    {
        Point { coords, radius_sq: 0, index, parent_index: usize::MAX }
    }

    pub fn with_coords(coords: Vec<i32>) -> (r: Point)
        ensures
            r.coords@ == coords@,
            r.radius_sq == 0,
            r.index == 0,
            r.parent_index == usize::MAX,
    {
        Point::new(coords, 0)
    }

    pub fn dimension(&self) -> (r: usize)
        ensures
            r == self.coords@.len(),
    {
        self.coords.len()
    }
}

pub fn copy_coords(v: &[i32]) -> (r: Vec<i32>)
    ensures
        r@ == v@,
{
    let mut r: Vec<i32> = Vec::new();
    let mut i: usize = 0;
    while i < v.len()
        invariant
            0 <= i <= v@.len(),
            r@ == v@.subrange(0, i as int),
        decreases v@.len() - i,
    {
        r.push(v[i]);
        i = i + 1;
        proof {
            assert(r@ =~= v@.subrange(0, i as int));
        }
    }
    assert(r@ =~= v@);
    r
}

pub open spec fn clamp(x: int, lo: int, hi: int) -> int {
    if x < lo {
        lo
    } else if x > hi {
        hi
    } else {
        x
    }
}

pub open spec fn abs(x: int) -> int {
    if x < 0 {
        -x
    } else {
        x
    }
}

/// The endpoint of `[lo, hi]` that lies farther from `x` (`hi` on a tie).
pub open spec fn far_end(x: int, lo: int, hi: int) -> int {
    if abs(hi - x) >= abs(lo - x) {
        hi
    } else {
        lo
    }
}

/// An axis-aligned box given by its lowest and highest corner.
pub struct Rect {
    pub low: Vec<i32>,
    pub high: Vec<i32>,
}

impl Rect {
    pub open spec fn well_formed(&self) -> bool {
        &&& self.low@.len() == self.high@.len()
        &&& forall|i: int| 0 <= i < self.low@.len() ==> self.low@[i] <= self.high@[i]
    }

    /// The box holds the point `p` (on every axis of the box).
    pub open spec fn holds(&self, p: Seq<i32>) -> bool {
        &&& p.len() == self.low@.len()
        &&& forall|i: int| 0 <= i < p.len() ==> self.low@[i] <= #[trigger] p[i] <= self.high@[i]
    }

    pub fn new(low: Vec<i32>, high: Vec<i32>) -> (r: Rect)
        ensures
            r.low@ == low@,
            r.high@ == high@,
    {
        Rect { low, high }
    }

    pub fn from_point(point: &Point) -> (r: Rect)
        ensures
            r.low@ == point.coords@,
            r.high@ == point.coords@,
            r.well_formed(),
    {
        Rect::new(copy_coords(point.coords.as_slice()), copy_coords(point.coords.as_slice()))
    }

    /// The point of the box closest to `point`: each coordinate clamped into the box.
    pub fn closest_point_to(&self, point: &Point) -> (r: Point)
        requires
            self.low@.len() == self.high@.len(),
            point.coords@.len() == self.low@.len(),
        ensures
            r.coords@.len() == point.coords@.len(),
            forall|i: int|
                0 <= i < r.coords@.len() ==> r.coords@[i] == clamp(
                    point.coords@[i] as int,
                    self.low@[i] as int,
                    self.high@[i] as int,
                ),
    {
        let mut c: Vec<i32> = Vec::new();
        let mut i: usize = 0;
        while i < self.low.len()
            invariant
                0 <= i <= self.low@.len(),
                self.low@.len() == self.high@.len(),
                point.coords@.len() == self.low@.len(),
                c@.len() == i,
                forall|j: int|
                    0 <= j < i ==> c@[j] == clamp(
                        point.coords@[j] as int,
                        self.low@[j] as int,
                        self.high@[j] as int,
                    ),
            decreases self.low@.len() - i,
        {
            let x = point.coords[i];
            if x < self.low[i] {
                c.push(self.low[i]);
            } else if x > self.high[i] {
                c.push(self.high[i]);
            } else {
                c.push(x);
            }
            i = i + 1;
        }
        Point::with_coords(c)
    }

    /// The corner of the box farthest from `point`.
    pub fn farthest_point_to(&self, point: &Point) -> (r: Point)
        requires
            self.low@.len() == self.high@.len(),
            point.coords@.len() == self.low@.len(),
        ensures
            r.coords@.len() == point.coords@.len(),
            forall|i: int|
                0 <= i < r.coords@.len() ==> r.coords@[i] == far_end(
                    point.coords@[i] as int,
                    self.low@[i] as int,
                    self.high@[i] as int,
                ),
    {
        let mut c: Vec<i32> = Vec::new();
        let mut i: usize = 0;
        while i < self.low.len()
            invariant
                0 <= i <= self.low@.len(),
                self.low@.len() == self.high@.len(),
                point.coords@.len() == self.low@.len(),
                c@.len() == i,
                forall|j: int|
                    0 <= j < i ==> c@[j] == far_end(
                        point.coords@[j] as int,
                        self.low@[j] as int,
                        self.high@[j] as int,
                    ),
            decreases self.low@.len() - i,
        {
            let x = point.coords[i] as i64;
            let to_high = abs_i64(self.high[i] as i64 - x);
            let to_low = abs_i64(self.low[i] as i64 - x);
            if to_high >= to_low {
                c.push(self.high[i]);
            } else {
                c.push(self.low[i]);
            }
            i = i + 1;
        }
        Point::with_coords(c)
    }

    /// The box holds the point (on every axis it has).
    pub fn intersects_point(&self, point: &Point) -> (r: bool)
        requires
            self.low@.len() == self.high@.len(),
        ensures
            r == self.holds(point.coords@),
    {
        if point.coords.len() != self.low.len() {
            return false;
        }
        let mut i: usize = 0;
        while i < self.low.len()
            invariant
                0 <= i <= self.low@.len(),
                self.low@.len() == self.high@.len(),
                point.coords@.len() == self.low@.len(),
                forall|j: int| 0 <= j < i ==> self.low@[j] <= #[trigger] point.coords@[j] <= self.high@[j],
            decreases self.low@.len() - i,
        {
            if point.coords[i] < self.low[i] || point.coords[i] > self.high[i] {
                return false;
            }
            i = i + 1;
        }
        true
    }

    /// The two boxes overlap on every axis.
    pub fn intersects(&self, other: &Rect) -> (r: bool)
        requires
            self.low@.len() == self.high@.len(),
            other.low@.len() == other.high@.len(),
        ensures
            r == (self.low@.len() == other.low@.len() && forall|i: int|
                0 <= i < self.low@.len() ==> self.low@[i] <= other.high@[i] && other.low@[i]
                    <= self.high@[i]),
    {
        if other.low.len() != self.low.len() {
            return false;
        }
        let mut i: usize = 0;
        while i < self.low.len()
            invariant
                0 <= i <= self.low@.len(),
                self.low@.len() == self.high@.len(),
                other.low@.len() == other.high@.len(),
                other.low@.len() == self.low@.len(),
                forall|j: int|
                    0 <= j < i ==> self.low@[j] <= other.high@[j] && other.low@[j] <= self.high@[j],
            decreases self.low@.len() - i,
        {
            if self.low[i] > other.high[i] || other.low[i] > self.high[i] {
                return false;
            }
            i = i + 1;
        }
        true
    }
}

fn abs_i64(x: i64) -> (r: i64)
    requires
        x > i64::MIN,
    ensures
        r == abs(x as int),
{
    if x < 0 {
        -x
    } else {
        x
    }
}

/// A ball given by its center and its squared radius.
pub struct Sphere {
    pub center: Point,
    pub radius_sq: u128,
}

impl Sphere {
    pub open spec fn holds(&self, p: Seq<i32>) -> bool {
        &&& p.len() == self.center.coords@.len()
        &&& sq_dist(self.center.coords@, p) <= self.radius_sq
    }

    pub fn new(center: Point, radius_sq: u128) -> (r: Sphere)
        ensures
            r.center == center,
            r.radius_sq == radius_sq,
    {
        Sphere { center, radius_sq }
    }

    pub fn from_point(point: &Point) -> (r: Sphere)
        ensures
            r.center.coords@ == point.coords@,
            r.radius_sq == 0,
    {
        Sphere::new(Point::with_coords(copy_coords(point.coords.as_slice())), 0)
    }

    /// The ball holds the point.
    pub fn intersects_point(&self, point: &Point) -> (r: bool)
        requires
            self.center.coords@.len() <= MAX_DIMENSION,
        ensures
            r == self.holds(point.coords@),
    {
        match squared_distance(self.center.coords.as_slice(), point.coords.as_slice()) {
            Some(d) => d <= self.radius_sq,
            None => false,
        }
    }

    /// The balls may meet: the distance between the centers, rounded down, is
    /// at most the sum of the radii, each rounded up.
    pub fn intersects(&self, sphere: &Sphere) -> (r: bool)
        requires
            self.center.coords@.len() <= MAX_DIMENSION,
        ensures
            r == (self.center.coords@.len() == sphere.center.coords@.len() && floor_sqrt(
                sq_dist(self.center.coords@, sphere.center.coords@) as nat,
            ) <= ceil_sqrt(self.radius_sq as nat) + ceil_sqrt(sphere.radius_sq as nat)),
    {
        match squared_distance(self.center.coords.as_slice(), sphere.center.coords.as_slice()) {
            Some(d) => {
                let a = floor_sqrt_exec(d);
                let b1 = ceil_sqrt_exec(self.radius_sq);
                let b2 = ceil_sqrt_exec(sphere.radius_sq);
                a <= b1 + b2
            },
            None => false,
        }
    }
}

} // verus!
