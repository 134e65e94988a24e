use vstd::prelude::*;
use crate::arith::{scale_up, scaled_up, SCALE_LIMIT};

verus! {

/// A point or displacement of the plane with unbounded integer coordinates:
/// the mathematical value that a [`Vec2`] stands for.
pub struct Point {
    pub x: int,
    pub y: int,
}

impl Point {
    pub open spec fn zero() -> Point {
        Point { x: 0, y: 0 }
    }

    pub open spec fn plus(self, other: Point) -> Point {
        Point { x: self.x + other.x, y: self.y + other.y }
    }

    pub open spec fn minus(self, other: Point) -> Point {
        Point { x: self.x - other.x, y: self.y - other.y }
    }

    pub open spec fn negated(self) -> Point {
        Point { x: -self.x, y: -self.y }
    }

    /// The 2D cross product `self.x * other.y - self.y * other.x`: positive
    /// when `other` points to the left of `self`.
    pub open spec fn cross(self, other: Point) -> int {
        self.x * other.y - self.y * other.x
    }

    pub open spec fn dot(self, other: Point) -> int {
        self.x * other.x + self.y * other.y
    }

    /// The squared Euclidean length.
    pub open spec fn norm2(self) -> int {
        self.x * self.x + self.y * self.y
    }

    /// The squared Euclidean distance to `other`.
    pub open spec fn dist2(self, other: Point) -> int {
        self.minus(other).norm2()
    }

    /// The normal of an edge of a counter-clockwise outline that points out
    /// of the outline: the edge turned clockwise by a quarter.
    pub open spec fn outward(self) -> Point {
        Point { x: self.y, y: -self.x }
    }

    /// The vector turned counter-clockwise by a quarter.
    pub open spec fn turned_left(self) -> Point {
        Point { x: -self.y, y: self.x }
    }

    /// The vector that points where `self` points and is `len` long, each
    /// component rounded away from zero; it points the other way where `len`
    /// is negative, and is zero where `self` is.
    pub open spec fn scaled_to(self, len: int) -> Point {
        let l2 = self.norm2();
        let w = if len >= 0 { len } else { -len };
        let qx = scaled_up(w, self.x, l2);
        let qy = scaled_up(w, self.y, l2);
        Point {
            x: if (self.x >= 0) == (len >= 0) { qx } else { -qx },
            y: if (self.y >= 0) == (len >= 0) { qy } else { -qy },
        }
    }

    pub open spec fn is_zero(self) -> bool {
        self.x == 0 && self.y == 0
    }

    /// Both coordinates lie in `-limit ..= limit`.
    pub open spec fn within(self, limit: int) -> bool {
        -limit <= self.x <= limit && -limit <= self.y <= limit
    }

    /// Lexicographic order by `(y, x)`: lower first, then further left.
    pub open spec fn below(self, other: Point) -> bool {
        self.y < other.y || (self.y == other.y && self.x < other.x)
    }
}

/// A point or displacement on the integer grid.
#[derive(Clone, Copy, Debug, PartialEq, Eq, Structural)]
pub struct Vec2 {
    pub x: i64,
    pub y: i64,
}

impl View for Vec2 {
    type V = Point;

    open spec fn view(&self) -> Point {
        Point { x: self.x as int, y: self.y as int }
    }
}

/// Largest absolute coordinate that the geometry of this crate works with.
pub const COORD_LIMIT: i64 = 0x2000_0000_0000_0000;

impl Vec2 {
    /// The vector with the given components.
    pub fn new(x: i64, y: i64) -> (v: Vec2)
        ensures
            v.x == x,
            v.y == y,
    {
        Vec2 { x, y }
    }

    /// The origin.
    pub fn zero() -> (v: Vec2)
        ensures
            v@ == Point::zero(),
    {
        Vec2 { x: 0, y: 0 }
    }

    /// Whether both coordinates lie in `-limit ..= limit`.
    pub fn is_within(&self, limit: i64) -> (r: bool)
        requires
            0 <= limit,
        ensures
            r == self@.within(limit as int),
    {
        -limit <= self.x && self.x <= limit && -limit <= self.y && self.y <= limit
    }

    pub fn plus(&self, other: &Vec2) -> (r: Vec2)
        requires
            self@.plus(other@).within(i64::MAX as int),
        ensures
            r@ == self@.plus(other@),
    {
        Vec2 { x: self.x + other.x, y: self.y + other.y }
    }

    pub fn minus(&self, other: &Vec2) -> (r: Vec2)
        requires
            self@.minus(other@).within(i64::MAX as int),
        ensures
            r@ == self@.minus(other@),
    {
        Vec2 { x: self.x - other.x, y: self.y - other.y }
    }

    /// The 2D cross product of two vectors.
    pub fn cross(&self, other: &Vec2) -> (r: i128)
        requires
            self@.within(COORD_LIMIT as int),
            other@.within(COORD_LIMIT as int),
        ensures
            r == self@.cross(other@),
    {
        let ax: i128 = self.x as i128;
        let ay: i128 = self.y as i128;
        let bx: i128 = other.x as i128;
        let by: i128 = other.y as i128;
        proof {
            lemma_product_bound(self.x as int, other.y as int, COORD_LIMIT as int);
            lemma_product_bound(self.y as int, other.x as int, COORD_LIMIT as int);
        }
        ax * by - ay * bx
    }

    pub fn dot(&self, other: &Vec2) -> (r: i128)
        requires
            self@.within(COORD_LIMIT as int),
            other@.within(COORD_LIMIT as int),
        ensures
            r == self@.dot(other@),
    {
        let ax: i128 = self.x as i128;
        let ay: i128 = self.y as i128;
        let bx: i128 = other.x as i128;
        let by: i128 = other.y as i128;
        proof {
            lemma_product_bound(self.x as int, other.x as int, COORD_LIMIT as int);
            lemma_product_bound(self.y as int, other.y as int, COORD_LIMIT as int);
        }
        ax * bx + ay * by
    }

    /// The squared Euclidean distance between two points.
    pub fn dist2(&self, other: &Vec2) -> (r: i128)
        requires
            self@.within(COORD_LIMIT as int),
            other@.within(COORD_LIMIT as int),
        ensures
            r == self@.dist2(other@),
            r >= 0,
    {
        let dx: i128 = self.x as i128 - other.x as i128;
        let dy: i128 = self.y as i128 - other.y as i128;
        proof {
            lemma_product_bound(dx as int, dx as int, 2 * COORD_LIMIT);
            lemma_product_bound(dy as int, dy as int, 2 * COORD_LIMIT);
            lemma_square_nonnegative(dx as int);
            lemma_square_nonnegative(dy as int);
        }
        dx * dx + dy * dy
    }

    /// The vector turned clockwise by a quarter: the outward normal of an
    /// edge of a counter-clockwise outline.
    pub fn outward(&self) -> (r: Vec2)
        requires
            self.x > i64::MIN,
        ensures
            r@ == self@.outward(),
    {
        Vec2 { x: self.y, y: -self.x }
    }

    /// The vector turned counter-clockwise by a quarter.
    pub fn turned_left(&self) -> (r: Vec2)
        requires
            self.y > i64::MIN,
        ensures
            r@ == self@.turned_left(),
    {
        Vec2 { x: -self.y, y: self.x }
    }

    pub fn negated(&self) -> (r: Vec2)
        requires
            self.x > i64::MIN,
            self.y > i64::MIN,
        ensures
            r@ == self@.negated(),
    {
        Vec2 { x: -self.x, y: -self.y }
    }

    /// The vector of the same direction and of length `len`, each component
    /// rounded away from zero.
    pub fn scaled_to(&self, len: i64) -> (r: Vec2)
        requires
            self@.within(SCALE_LIMIT as int),
            -SCALE_LIMIT <= len <= SCALE_LIMIT,
        ensures
            r@ == self@.scaled_to(len as int),
            r@.within(if len >= 0 { len as int } else { -len }),
    {
        let x: i128 = self.x as i128;
        let y: i128 = self.y as i128;
        proof {
            lemma_product_bound(x as int, x as int, SCALE_LIMIT as int);
            lemma_product_bound(y as int, y as int, SCALE_LIMIT as int);
            lemma_square_nonnegative(x as int);
            lemma_square_nonnegative(y as int);
        }
        let l2: i128 = x * x + y * y;
        let w: i64 = if len >= 0 { len } else { -len };
        let qx: i64 = scale_up(w, self.x, l2);
        let qy: i64 = scale_up(w, self.y, l2);
        Vec2 {
            x: if (self.x >= 0) == (len >= 0) { qx } else { -qx },
            y: if (self.y >= 0) == (len >= 0) { qy } else { -qy },
        }
    }

    /// Whether `self` comes before `other` in the order by `(y, x)`.
    pub fn is_below(&self, other: &Vec2) -> (r: bool)
        ensures
            r == self@.below(other@),
    {
        self.y < other.y || (self.y == other.y && self.x < other.x)
    }
}

/// A product of two integers of absolute value at most `limit` has absolute
/// value at most `limit * limit`.
pub proof fn lemma_product_bound(a: int, b: int, limit: int)
    by (nonlinear_arith)
    requires
        -limit <= a <= limit,
        -limit <= b <= limit,
    ensures
        -(limit * limit) <= a * b <= limit * limit,
{
}

pub proof fn lemma_square_nonnegative(a: int)
    by (nonlinear_arith)
    ensures
        a * a >= 0,
{
}

} // verus!
