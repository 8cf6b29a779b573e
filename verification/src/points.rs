use crate::KDPoint;
use vstd::prelude::*;

verus! {

/// Largest coordinate magnitude the integer point types accept; it keeps all
/// squared-distance arithmetic comfortably inside `i64`.
pub const COORD_LIMIT: i64 = 1_000_000;

/// The square of an integer.
pub open spec fn sq(x: int) -> int {
    x * x
}

proof fn lemma_square_nonneg(x: int)
    by (nonlinear_arith)
    ensures
        x * x >= 0,
{
}

proof fn lemma_square_le_square(x: int, y: int)
    by (nonlinear_arith)
    requires
        -y <= x <= y,
    ensures
        x * x <= y * y,
{
}

proof fn lemma_square_closer(a: int, b: int, c: int)
    by (nonlinear_arith)
    requires
        a <= b <= c || c <= b <= a,
    ensures
        (a - b) * (a - b) <= (a - c) * (a - c),
{
}

/// A two-dimensional point with integer coordinates, compared by squared
/// Euclidean distance.
#[derive(Clone, Copy, Debug, PartialEq, Eq, Structural)]
pub struct Point2D {
    pub x: i64,
    pub y: i64,
}

impl KDPoint for Point2D {
    open spec fn wf(&self) -> bool {
        &&& -COORD_LIMIT <= self.x <= COORD_LIMIT
        &&& -COORD_LIMIT <= self.y <= COORD_LIMIT
    }

    open spec fn key(&self, dimension: int) -> int {
        if dimension % 2 == 0 {
            self.x as int
        } else {
            self.y as int
        }
    }

    open spec fn dist(lhs: &Self, rhs: &Self) -> int {
        sq(lhs.x - rhs.x) + sq(lhs.y - rhs.y)
    }

    open spec fn kdist(lhs: int, rhs: int) -> int {
        sq(lhs - rhs)
    }

    open spec fn key_ok(k: int) -> bool {
        -COORD_LIMIT <= k <= COORD_LIMIT
    }

    fn kdkey(&self, dimension: usize) -> (k: i64) {
        if dimension % 2 == 0 {
            self.x
        } else {
            self.y
        }
    }

    fn distance(lhs: &Self, rhs: &Self) -> (d: i64) {
        let dx = lhs.x - rhs.x;
        let dy = lhs.y - rhs.y;
        proof {
            lemma_square_nonneg(dx as int);
            lemma_square_nonneg(dy as int);
            lemma_square_le_square(dx as int, 2 * COORD_LIMIT as int);
            lemma_square_le_square(dy as int, 2 * COORD_LIMIT as int);
        }
        dx * dx + dy * dy
    }

    fn key_distance(lhs: &i64, rhs: &i64) -> (d: i64) {
        let dk = *lhs - *rhs;
        proof {
            lemma_square_nonneg(dk as int);
            lemma_square_le_square(dk as int, 2 * COORD_LIMIT as int);
        }
        dk * dk
    }

    proof fn lemma_key_ok(p: &Self, dimension: int) {
    }

    proof fn lemma_key_distance_lower_bound(p: &Self, q: &Self, dimension: int) {
        lemma_square_nonneg(p.x - q.x);
        lemma_square_nonneg(p.y - q.y);
    }

    proof fn lemma_key_distance_monotonic(a: int, b: int, c: int) {
        lemma_square_closer(a, b, c);
    }

    proof fn lemma_distance_positive(p: &Self, q: &Self) {
        lemma_square_nonneg(p.x - q.x);
        lemma_square_nonneg(p.y - q.y);
    }
}

/// A three-dimensional point with integer coordinates, compared by squared
/// Euclidean distance.
#[derive(Clone, Copy, Debug, PartialEq, Eq, Structural)]
pub struct Point3D {
    pub x: i64,
    pub y: i64,
    pub z: i64,
}

impl KDPoint for Point3D {
    open spec fn wf(&self) -> bool {
        &&& -COORD_LIMIT <= self.x <= COORD_LIMIT
        &&& -COORD_LIMIT <= self.y <= COORD_LIMIT
        &&& -COORD_LIMIT <= self.z <= COORD_LIMIT
    }

    open spec fn key(&self, dimension: int) -> int {
        if dimension % 3 == 0 {
            self.x as int
        } else if dimension % 3 == 1 {
            self.y as int
        } else {
            self.z as int
        }
    }

    open spec fn dist(lhs: &Self, rhs: &Self) -> int {
        sq(lhs.x - rhs.x) + sq(lhs.y - rhs.y) + sq(lhs.z - rhs.z)
    }

    open spec fn kdist(lhs: int, rhs: int) -> int {
        sq(lhs - rhs)
    }

    open spec fn key_ok(k: int) -> bool {
        -COORD_LIMIT <= k <= COORD_LIMIT
    }

    fn kdkey(&self, dimension: usize) -> (k: i64) {
        let r = dimension % 3;
        if r == 0 {
            self.x
        } else if r == 1 {
            self.y
        } else {
            self.z
        }
    }

    fn distance(lhs: &Self, rhs: &Self) -> (d: i64) {
        let dx = lhs.x - rhs.x;
        let dy = lhs.y - rhs.y;
        let dz = lhs.z - rhs.z;
        proof {
            lemma_square_nonneg(dx as int);
            lemma_square_nonneg(dy as int);
            lemma_square_nonneg(dz as int);
            lemma_square_le_square(dx as int, 2 * COORD_LIMIT as int);
            lemma_square_le_square(dy as int, 2 * COORD_LIMIT as int);
            lemma_square_le_square(dz as int, 2 * COORD_LIMIT as int);
        }
        dx * dx + dy * dy + dz * dz
    }

    fn key_distance(lhs: &i64, rhs: &i64) -> (d: i64) {
        let dk = *lhs - *rhs;
        proof {
            lemma_square_nonneg(dk as int);
            lemma_square_le_square(dk as int, 2 * COORD_LIMIT as int);
        }
        dk * dk
    }

    proof fn lemma_key_ok(p: &Self, dimension: int) {
    }

    proof fn lemma_key_distance_lower_bound(p: &Self, q: &Self, dimension: int) {
        lemma_square_nonneg(p.x - q.x);
        lemma_square_nonneg(p.y - q.y);
        lemma_square_nonneg(p.z - q.z);
    }

    proof fn lemma_key_distance_monotonic(a: int, b: int, c: int) {
        lemma_square_closer(a, b, c);
    }

    proof fn lemma_distance_positive(p: &Self, q: &Self) {
        lemma_square_nonneg(p.x - q.x);
        lemma_square_nonneg(p.y - q.y);
        lemma_square_nonneg(p.z - q.z);
    }
}

impl KDPoint for i64 {
    open spec fn wf(&self) -> bool {
        -COORD_LIMIT <= *self <= COORD_LIMIT
    }

    open spec fn key(&self, dimension: int) -> int {
        *self as int
    }

    open spec fn dist(lhs: &Self, rhs: &Self) -> int {
        if *lhs >= *rhs {
            *lhs - *rhs
        } else {
            *rhs - *lhs
        }
    }

    open spec fn kdist(lhs: int, rhs: int) -> int {
        if lhs >= rhs {
            lhs - rhs
        } else {
            rhs - lhs
        }
    }

    open spec fn key_ok(k: int) -> bool {
        -COORD_LIMIT <= k <= COORD_LIMIT
    }

    fn kdkey(&self, dimension: usize) -> (k: i64) {
        *self
    }

    fn distance(lhs: &Self, rhs: &Self) -> (d: i64) {
        if *lhs >= *rhs {
            *lhs - *rhs
        } else {
            *rhs - *lhs
        }
    }

    fn key_distance(lhs: &i64, rhs: &i64) -> (d: i64) {
        if *lhs >= *rhs {
            *lhs - *rhs
        } else {
            *rhs - *lhs
        }
    }

    proof fn lemma_key_ok(p: &Self, dimension: int) {
    }

    proof fn lemma_key_distance_lower_bound(p: &Self, q: &Self, dimension: int) {
    }

    proof fn lemma_key_distance_monotonic(a: int, b: int, c: int) {
    }

    proof fn lemma_distance_positive(p: &Self, q: &Self) {
    }
}

} // verus!
