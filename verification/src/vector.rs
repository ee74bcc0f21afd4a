//! Two-dimensional vectors with integer coordinates, and the integer square
//! root that measures them.

use vstd::prelude::*;
use vstd::std_specs::convert::FromSpecImpl;
use vstd::std_specs::ops::{AddSpecImpl, DivSpecImpl, MulSpecImpl, NegSpecImpl, SubSpecImpl};

verus! {

/// `r` is the square root of `n`, rounded down.
pub open spec fn is_square_root(n: nat, r: nat) -> bool {
    r * r <= n < (r + 1) * (r + 1)
}

/// The square root of `n`, rounded down.
pub open spec fn square_root(n: nat) -> nat {
    choose|r: nat| is_square_root(n, r)
}

/// The square root of `n`, rounded up.
pub open spec fn square_root_up(n: nat) -> nat {
    let r = square_root(n);
    if r * r == n {
        r
    } else {
        r + 1
    }
}

/// Every natural number has a rounded-down square root.
pub proof fn lemma_square_root_exists(n: nat)
    ensures
        exists|r: nat| is_square_root(n, r),
    decreases n,
{
    if n == 0 {
        let z: nat = 0;
        assert(z * z == 0 && (z + 1) * (z + 1) == 1) by (nonlinear_arith)
            requires
                z == 0,
        ;
        assert(is_square_root(n, z));
    } else {
        let m = (n - 1) as nat;
        lemma_square_root_exists(m);
        let r = choose|r: nat| is_square_root(m, r);
        if (r + 1) * (r + 1) <= n {
            assert((r + 2) * (r + 2) > (r + 1) * (r + 1)) by (nonlinear_arith);
            assert(is_square_root(n, r + 1));
        } else {
            assert(is_square_root(n, r));
        }
    }
}

/// The rounded-down square root is the only number that lies on `n` or just
/// below it when squared.
pub proof fn lemma_square_root_unique(n: nat, r: nat)
    requires
        is_square_root(n, r),
    ensures
        square_root(n) == r,
{
    let q = square_root(n);
    assert(is_square_root(n, q));
    if q < r {
        assert((q + 1) * (q + 1) <= r * r) by (nonlinear_arith)
            requires
                q + 1 <= r,
        ;
    }
    if r < q {
        assert((r + 1) * (r + 1) <= q * q) by (nonlinear_arith)
            requires
                r + 1 <= q,
        ;
    }
}

/// Square root of `n`, rounded down.
pub fn integer_sqrt(n: u128) -> (r: u64)
    ensures
        r == square_root(n as nat),
        r * r <= n < (r + 1) * (r + 1),
{
    let mut lo: u128 = 0;
    let mut hi: u128 = 0x1_0000_0000_0000_0000;
    assert(hi * hi > n) by (nonlinear_arith)
        requires
            hi == 0x1_0000_0000_0000_0000,
            n <= u128::MAX,
    ;
    while hi - lo > 1
        invariant
            lo < hi <= 0x1_0000_0000_0000_0000,
            lo * lo <= n < hi * hi,
        decreases hi - lo,
    {
        let mid: u128 = lo + (hi - lo) / 2;
        assert(mid * mid <= u128::MAX) by (nonlinear_arith)
            requires
                mid < 0x1_0000_0000_0000_0000,
        ;
        if mid * mid <= n {
            lo = mid;
        } else {
            hi = mid;
        }
    }
    proof {
        lemma_square_root_unique(n as nat, lo as nat);
    }
    lo as u64
}

/// A point of the plane, or the displacement between two points, with whole
/// coordinates.
#[derive(Debug, Clone, Copy, Default, PartialEq, Eq, Structural)]
pub struct Vector {
    pub x: i32,
    pub y: i32,
}

impl Vector {
    /// The squared Euclidean length, as a mathematical integer.
    pub open spec fn spec_sqr_length(self) -> nat {
        (self.x * self.x + self.y * self.y) as nat
    }

    /// The Euclidean length, rounded down.
    pub open spec fn spec_length(self) -> nat {
        square_root(self.spec_sqr_length())
    }

    /// The dot product, as a mathematical integer.
    pub open spec fn spec_dot(self, other: Vector) -> int {
        self.x * other.x + self.y * other.y
    }

    /// The squared Euclidean distance between two points.
    pub open spec fn spec_sqr_distance(self, other: Vector) -> nat {
        ((self.x - other.x) * (self.x - other.x) + (self.y - other.y) * (self.y - other.y)) as nat
    }

    /// The Euclidean distance between two points, rounded down.
    pub open spec fn spec_distance(self, other: Vector) -> nat {
        square_root(self.spec_sqr_distance(other))
    }

    /// The Euclidean distance between two points, rounded up.
    pub open spec fn spec_distance_up(self, other: Vector) -> nat {
        square_root_up(self.spec_sqr_distance(other))
    }

    pub fn new(x: i32, y: i32) -> (v: Vector)
        ensures
            v == (Vector { x, y }),
    {
        Vector { x, y }
    }

    /// The squared length `x * x + y * y`.
    pub fn sqr_length(&self) -> (r: u64)
        ensures
            r == self.spec_sqr_length(),
    {
        let x: i64 = self.x as i64;
        let y: i64 = self.y as i64;
        assert(0 <= x * x <= 0x4000_0000_0000_0000) by (nonlinear_arith)
            requires
                -0x8000_0000 <= x <= 0x7fff_ffff,
        ;
        assert(0 <= y * y <= 0x4000_0000_0000_0000) by (nonlinear_arith)
            requires
                -0x8000_0000 <= y <= 0x7fff_ffff,
        ;
        (x * x) as u64 + (y * y) as u64
    }

    /// The Euclidean length, rounded down to a whole number.
    pub fn length(&self) -> (r: u64)
        ensures
            r == self.spec_length(),
    {
        integer_sqrt(self.sqr_length() as u128)
    }

    /// The Euclidean distance from `self` to `other`, rounded down to a whole
    /// number. Unlike the length of the difference, it is defined for every
    /// pair of points.
    pub fn distance(&self, other: Vector) -> (r: u64)
        ensures
            r == self.spec_distance(other),
            r < MAX_DISTANCE,
    {
        let dx: i128 = self.x as i128 - other.x as i128;
        let dy: i128 = self.y as i128 - other.y as i128;
        assert(0 <= dx * dx <= 0x1_0000_0000_0000_0000) by (nonlinear_arith)
            requires
                -0xffff_ffff <= dx <= 0xffff_ffff,
        ;
        assert(0 <= dy * dy <= 0x1_0000_0000_0000_0000) by (nonlinear_arith)
            requires
                -0xffff_ffff <= dy <= 0xffff_ffff,
        ;
        proof {
            lemma_distance_bound(*self, other);
        }
        integer_sqrt((dx * dx + dy * dy) as u128)
    }

    /// The Euclidean distance from `self` to `other`, rounded up to a whole
    /// number.
    pub fn distance_up(&self, other: Vector) -> (r: u64)
        ensures
            r == self.spec_distance_up(other),
            r < MAX_DISTANCE,
    {
        let dx: i128 = self.x as i128 - other.x as i128;
        let dy: i128 = self.y as i128 - other.y as i128;
        assert(0 <= dx * dx <= 0x1_0000_0000_0000_0000) by (nonlinear_arith)
            requires
                -0xffff_ffff <= dx <= 0xffff_ffff,
        ;
        assert(0 <= dy * dy <= 0x1_0000_0000_0000_0000) by (nonlinear_arith)
            requires
                -0xffff_ffff <= dy <= 0xffff_ffff,
        ;
        proof {
            lemma_distance_bound(*self, other);
        }
        let square: u128 = (dx * dx + dy * dy) as u128;
        let root: u64 = integer_sqrt(square);
        assert(root * root <= square) by {
            lemma_square_root_exists(square as nat);
        }
        if root as u128 * root as u128 == square {
            root
        } else {
            root + 1
        }
    }

    pub fn zero() -> (v: Vector)
        ensures
            v == (Vector { x: 0, y: 0 }),
    {
        Vector { x: 0, y: 0 }
    }

    /// The unit vector along the x axis.
    pub fn right() -> (v: Vector)
        ensures
            v == (Vector { x: 1, y: 0 }),
    {
        Vector { x: 1, y: 0 }
    }

    /// The unit vector along the y axis.
    pub fn up() -> (v: Vector)
        ensures
            v == (Vector { x: 0, y: 1 }),
    {
        Vector { x: 0, y: 1 }
    }

    /// The dot product `x * other.x + y * other.y`.
    pub fn dot(&self, other: Vector) -> (r: i128)
        ensures
            r == self.spec_dot(other),
    {
        let (x, y): (i128, i128) = (self.x as i128, self.y as i128);
        let (u, v): (i128, i128) = (other.x as i128, other.y as i128);
        assert(-0x4000_0000_0000_0000 <= x * u <= 0x4000_0000_0000_0000) by (nonlinear_arith)
            requires
                -0x8000_0000 <= x <= 0x7fff_ffff,
                -0x8000_0000 <= u <= 0x7fff_ffff,
        ;
        assert(-0x4000_0000_0000_0000 <= y * v <= 0x4000_0000_0000_0000) by (nonlinear_arith)
            requires
                -0x8000_0000 <= y <= 0x7fff_ffff,
                -0x8000_0000 <= v <= 0x7fff_ffff,
        ;
        x * u + y * v
    }

    /// The vector turned a quarter turn clockwise: `(y, -x)`.
    pub open spec fn spec_clockwise_90deg(self) -> Vector {
        Vector { x: self.y, y: (-self.x) as i32 }
    }

    /// The vector turned a quarter turn anticlockwise: `(-y, x)`.
    pub open spec fn spec_anticlockwise_90deg(self) -> Vector {
        Vector { x: (-self.y) as i32, y: self.x }
    }

    /// The vector turned a quarter turn clockwise: `(y, -x)`.
    pub fn clockwise_90deg(&self) -> (v: Vector)
        requires
            self.x != i32::MIN,
        ensures
            v == self.spec_clockwise_90deg(),
    {
        Vector { x: self.y, y: -self.x }
    }

    /// The vector turned a quarter turn anticlockwise: `(-y, x)`.
    pub fn anticlockwise_90deg(&self) -> (v: Vector)
        requires
            self.y != i32::MIN,
        ensures
            v == self.spec_anticlockwise_90deg(),
    {
        Vector { x: -self.y, y: self.x }
    }

    /// The smaller coordinate of the two vectors, on each axis.
    pub fn min(&self, other: Vector) -> (v: Vector)
        ensures
            v.x == if self.x <= other.x { self.x } else { other.x },
            v.y == if self.y <= other.y { self.y } else { other.y },
    {
        Vector {
            x: if self.x <= other.x { self.x } else { other.x },
            y: if self.y <= other.y { self.y } else { other.y },
        }
    }

    /// The larger coordinate of the two vectors, on each axis.
    pub fn max(&self, other: Vector) -> (v: Vector)
        ensures
            v.x == if self.x >= other.x { self.x } else { other.x },
            v.y == if self.y >= other.y { self.y } else { other.y },
    {
        Vector {
            x: if self.x >= other.x { self.x } else { other.x },
            y: if self.y >= other.y { self.y } else { other.y },
        }
    }
}

/// No two points of the grid are this far apart.
pub const MAX_DISTANCE: u64 = 0x2_0000_0000;

/// The distance between two points of the grid stays below [`MAX_DISTANCE`],
/// however it is rounded.
pub proof fn lemma_distance_bound(a: Vector, b: Vector)
    ensures
        a.spec_distance(b) < MAX_DISTANCE,
        a.spec_distance_up(b) < MAX_DISTANCE,
        a.spec_distance(b) <= a.spec_distance_up(b) <= a.spec_distance(b) + 1,
{
    let dx = a.x - b.x;
    let dy = a.y - b.y;
    let n = a.spec_sqr_distance(b);
    assert(0 <= dx * dx <= 0x1_0000_0000_0000_0000) by (nonlinear_arith)
        requires
            -0xffff_ffff <= dx <= 0xffff_ffff,
    ;
    assert(0 <= dy * dy <= 0x1_0000_0000_0000_0000) by (nonlinear_arith)
        requires
            -0xffff_ffff <= dy <= 0xffff_ffff,
    ;
    lemma_square_root_exists(n);
    let r = square_root(n);
    if r >= 0x1_ffff_ffff {
        assert(r * r >= 0x3_0000_0000_0000_0000) by (nonlinear_arith)
            requires
                r >= 0x1_ffff_ffff,
        ;
    }
}

/// The distance between two points does not depend on the direction.
pub proof fn lemma_distance_symmetric(a: Vector, b: Vector)
    ensures
        a.spec_sqr_distance(b) == b.spec_sqr_distance(a),
        a.spec_distance(b) == b.spec_distance(a),
        a.spec_distance_up(b) == b.spec_distance_up(a),
{
    assert((a.x - b.x) * (a.x - b.x) == (b.x - a.x) * (b.x - a.x)) by (nonlinear_arith);
    assert((a.y - b.y) * (a.y - b.y) == (b.y - a.y) * (b.y - a.y)) by (nonlinear_arith);
}

/// A quarter turn and the quarter turn back give the vector again; a quarter
/// turn keeps the length, and the turned vector is at a right angle to the
/// vector.
pub proof fn lemma_quarter_turns(v: Vector)
    requires
        v.x != i32::MIN,
        v.y != i32::MIN,
    ensures
        v.spec_clockwise_90deg().spec_anticlockwise_90deg() == v,
        v.spec_anticlockwise_90deg().spec_clockwise_90deg() == v,
        v.spec_clockwise_90deg().spec_sqr_length() == v.spec_sqr_length(),
        v.spec_anticlockwise_90deg().spec_sqr_length() == v.spec_sqr_length(),
        v.spec_dot(v.spec_clockwise_90deg()) == 0,
        v.spec_dot(v.spec_anticlockwise_90deg()) == 0,
{
    let (x, y) = (v.x as int, v.y as int);
    assert((-x) * (-x) == x * x) by (nonlinear_arith);
    assert((-y) * (-y) == y * y) by (nonlinear_arith);
    assert(y * (-x) == -(x * y)) by (nonlinear_arith);
    assert(x * (-y) == -(x * y)) by (nonlinear_arith);
    assert(y * x == x * y) by (nonlinear_arith);
}

/// The square of a dot product is at most the product of the squared
/// lengths.
proof fn lemma_dot_bound(px: int, py: int, qx: int, qy: int)
    ensures
        (px * qx + py * qy) * (px * qx + py * qy) <= (px * px + py * py) * (qx * qx + qy * qy),
{
    let a = px * qx;
    let b = py * qy;
    let c = px * qy;
    let d = py * qx;
    assert(a * a == (px * px) * (qx * qx)) by (nonlinear_arith)
        requires
            a == px * qx,
    ;
    assert(b * b == (py * py) * (qy * qy)) by (nonlinear_arith)
        requires
            b == py * qy,
    ;
    assert(c * c == (px * px) * (qy * qy)) by (nonlinear_arith)
        requires
            c == px * qy,
    ;
    assert(d * d == (py * py) * (qx * qx)) by (nonlinear_arith)
        requires
            d == py * qx,
    ;
    assert(a * b == c * d) by (nonlinear_arith)
        requires
            a == px * qx,
            b == py * qy,
            c == px * qy,
            d == py * qx,
    ;
    let (m, n, v, w) = (px * px, py * py, qx * qx, qy * qy);
    assert((m + n) * (v + w) == m * v + m * w + n * v + n * w) by (nonlinear_arith);
    assert((a + b) * (a + b) == a * a + 2 * (a * b) + b * b) by (nonlinear_arith);
    assert((c - d) * (c - d) == c * c - 2 * (c * d) + d * d) by (nonlinear_arith);
    assert((c - d) * (c - d) >= 0) by (nonlinear_arith);
}

/// The triangle inequality on the grid: the way from `a` to `c` is not longer
/// than the way over `b`. It holds with the first leg rounded up and the
/// other two distances rounded down.
pub proof fn lemma_triangle(a: Vector, b: Vector, c: Vector)
    ensures
        a.spec_distance(c) <= a.spec_distance_up(b) + b.spec_distance(c),
{
    let px = a.x - b.x;
    let py = a.y - b.y;
    let qx = b.x - c.x;
    let qy = b.y - c.y;
    let whole = a.spec_sqr_distance(c);
    let first = a.spec_sqr_distance(b);
    let second = b.spec_sqr_distance(c);
    lemma_square_root_exists(whole);
    lemma_square_root_exists(first);
    lemma_square_root_exists(second);
    let s = square_root(whole) as int;
    let t = square_root_up(first) as int;
    let u = square_root(second) as int;
    let dot = px * qx + py * qy;
    assert(first == px * px + py * py) by (nonlinear_arith)
        requires
            first == (px * px + py * py) as nat,
    ;
    assert(second == qx * qx + qy * qy) by (nonlinear_arith)
        requires
            second == (qx * qx + qy * qy) as nat,
    ;
    assert(whole == (px + qx) * (px + qx) + (py + qy) * (py + qy)) by (nonlinear_arith)
        requires
            whole == ((a.x - c.x) * (a.x - c.x) + (a.y - c.y) * (a.y - c.y)) as nat,
            px + qx == a.x - c.x,
            py + qy == a.y - c.y,
    ;
    assert(whole == first + second + 2 * dot) by (nonlinear_arith)
        requires
            whole == (px + qx) * (px + qx) + (py + qy) * (py + qy),
            first == px * px + py * py,
            second == qx * qx + qy * qy,
            dot == px * qx + py * qy,
    ;
    lemma_dot_bound(px, py, qx, qy);
    assert(first <= t * t) by {
        let r = square_root(first);
        if r * r != first {
            assert((r + 1) * (r + 1) == t * t);
        }
    }
    if s >= t + u + 1 {
        assert(s * s >= t * t + 2 * (t * (u + 1)) + (u + 1) * (u + 1)) by (nonlinear_arith)
            requires
                s >= t + u + 1,
                t >= 0,
                u >= 0,
        ;
        assert(dot >= t * (u + 1) + 1);
        assert(dot * dot > (t * (u + 1)) * (t * (u + 1))) by (nonlinear_arith)
            requires
                dot >= t * (u + 1) + 1,
                t * (u + 1) >= 0,
        ;
        assert(t * (u + 1) >= 0) by (nonlinear_arith)
            requires
                t >= 0,
                u >= 0,
        ;
        assert((t * (u + 1)) * (t * (u + 1)) >= first * second) by (nonlinear_arith)
            requires
                0 <= first <= t * t,
                0 <= second < (u + 1) * (u + 1),
                t >= 0,
                u >= 0,
        ;
    }
}

impl Vector {
    /// Whether the sum of the two vectors has coordinates that can be held.
    pub open spec fn sum_fits(self, rhs: Vector) -> bool {
        &&& i32::MIN <= self.x + rhs.x <= i32::MAX
        &&& i32::MIN <= self.y + rhs.y <= i32::MAX
    }

    /// The sum of the two vectors, coordinate by coordinate.
    pub open spec fn sum(self, rhs: Vector) -> Vector {
        Vector { x: (self.x + rhs.x) as i32, y: (self.y + rhs.y) as i32 }
    }

    /// Whether the difference of the two vectors has coordinates that can be
    /// held.
    pub open spec fn difference_fits(self, rhs: Vector) -> bool {
        &&& i32::MIN <= self.x - rhs.x <= i32::MAX
        &&& i32::MIN <= self.y - rhs.y <= i32::MAX
    }

    /// The difference of the two vectors, coordinate by coordinate.
    pub open spec fn difference(self, rhs: Vector) -> Vector {
        Vector { x: (self.x - rhs.x) as i32, y: (self.y - rhs.y) as i32 }
    }

    /// Whether the vector scaled by `rhs` has coordinates that can be held.
    pub open spec fn product_fits(self, rhs: i32) -> bool {
        &&& i32::MIN <= self.x * rhs <= i32::MAX
        &&& i32::MIN <= self.y * rhs <= i32::MAX
    }

    /// The vector with each coordinate multiplied by `rhs`.
    pub open spec fn product(self, rhs: i32) -> Vector {
        Vector { x: (self.x * rhs) as i32, y: (self.y * rhs) as i32 }
    }

    /// Whether the vector can be divided by `rhs`: not by zero, and not so
    /// that a coordinate leaves the range.
    pub open spec fn quotient_fits(self, rhs: i32) -> bool {
        &&& rhs != 0
        &&& !(rhs == -1 && (self.x == i32::MIN || self.y == i32::MIN))
    }

    /// The vector with each coordinate divided by `rhs`, rounded towards
    /// zero.
    pub open spec fn quotient(self, rhs: i32) -> Vector {
        Vector {
            x: truncating_quotient(self.x as int, rhs as int) as i32,
            y: truncating_quotient(self.y as int, rhs as int) as i32,
        }
    }

    /// Whether the opposite vector has coordinates that can be held.
    pub open spec fn opposite_fits(self) -> bool {
        self.x != i32::MIN && self.y != i32::MIN
    }

    /// The opposite vector.
    pub open spec fn opposite(self) -> Vector {
        Vector { x: (-self.x) as i32, y: (-self.y) as i32 }
    }
}

/// Quotient of `a` by `b`, rounded towards zero.
pub open spec fn truncating_quotient(a: int, b: int) -> int {
    if a >= 0 {
        a / b
    } else {
        -((-a) / b)
    }
}

impl std::ops::Add for Vector {
    type Output = Vector;

    fn add(self, rhs: Vector) -> (r: Vector) {
        Vector { x: self.x + rhs.x, y: self.y + rhs.y }
    }
}

impl AddSpecImpl for Vector {
    open spec fn obeys_add_spec() -> bool {
        true
    }

    open spec fn add_req(self, rhs: Vector) -> bool {
        self.sum_fits(rhs)
    }

    open spec fn add_spec(self, rhs: Vector) -> Vector {
        self.sum(rhs)
    }
}

impl std::ops::AddAssign for Vector {
    fn add_assign(&mut self, rhs: Vector)
        requires
            old(self).sum_fits(rhs),
        ensures
            *final(self) == old(self).sum(rhs),
    {
        self.x = self.x + rhs.x;
        self.y = self.y + rhs.y;
    }
}

impl std::ops::Sub for Vector {
    type Output = Vector;

    fn sub(self, rhs: Vector) -> (r: Vector) {
        Vector { x: self.x - rhs.x, y: self.y - rhs.y }
    }
}

impl SubSpecImpl for Vector {
    open spec fn obeys_sub_spec() -> bool {
        true
    }

    open spec fn sub_req(self, rhs: Vector) -> bool {
        self.difference_fits(rhs)
    }

    open spec fn sub_spec(self, rhs: Vector) -> Vector {
        self.difference(rhs)
    }
}

impl std::ops::SubAssign for Vector {
    fn sub_assign(&mut self, rhs: Vector)
        requires
            old(self).difference_fits(rhs),
        ensures
            *final(self) == old(self).difference(rhs),
    {
        self.x = self.x - rhs.x;
        self.y = self.y - rhs.y;
    }
}

impl std::ops::Mul<i32> for Vector {
    type Output = Vector;

    fn mul(self, rhs: i32) -> (r: Vector) {
        Vector { x: self.x * rhs, y: self.y * rhs }
    }
}

impl MulSpecImpl<i32> for Vector {
    open spec fn obeys_mul_spec() -> bool {
        true
    }

    open spec fn mul_req(self, rhs: i32) -> bool {
        self.product_fits(rhs)
    }

    open spec fn mul_spec(self, rhs: i32) -> Vector {
        self.product(rhs)
    }
}

impl std::ops::MulAssign<i32> for Vector {
    fn mul_assign(&mut self, rhs: i32)
        requires
            old(self).product_fits(rhs),
        ensures
            *final(self) == old(self).product(rhs),
    {
        self.x = self.x * rhs;
        self.y = self.y * rhs;
    }
}

impl std::ops::Div<i32> for Vector {
    type Output = Vector;

    fn div(self, rhs: i32) -> (r: Vector) {
        Vector { x: self.x / rhs, y: self.y / rhs }
    }
}

impl DivSpecImpl<i32> for Vector {
    open spec fn obeys_div_spec() -> bool {
        true
    }

    open spec fn div_req(self, rhs: i32) -> bool {
        self.quotient_fits(rhs)
    }

    open spec fn div_spec(self, rhs: i32) -> Vector {
        self.quotient(rhs)
    }
}

impl std::ops::DivAssign<i32> for Vector {
    fn div_assign(&mut self, rhs: i32)
        requires
            old(self).quotient_fits(rhs),
        ensures
            *final(self) == old(self).quotient(rhs),
    {
        self.x = self.x / rhs;
        self.y = self.y / rhs;
    }
}

impl std::ops::Neg for Vector {
    type Output = Vector;

    fn neg(self) -> (r: Vector) {
        Vector { x: -self.x, y: -self.y }
    }
}

impl NegSpecImpl for Vector {
    open spec fn obeys_neg_spec() -> bool {
        true
    }

    open spec fn neg_req(self) -> bool {
        self.opposite_fits()
    }

    open spec fn neg_spec(self) -> Vector {
        self.opposite()
    }
}

impl From<Vector> for [i32; 2] {
    fn from(val: Vector) -> (pair: [i32; 2]) {
        [val.x, val.y]
    }
}

impl FromSpecImpl<Vector> for [i32; 2] {
    open spec fn obeys_from_spec() -> bool {
        true
    }

    open spec fn from_spec(val: Vector) -> [i32; 2] {
        [val.x, val.y]
    }
}

impl From<[i32; 2]> for Vector {
    fn from(value: [i32; 2]) -> (v: Vector) {
        Vector { x: value[0], y: value[1] }
    }
}

impl FromSpecImpl<[i32; 2]> for Vector {
    open spec fn obeys_from_spec() -> bool {
        true
    }

    open spec fn from_spec(value: [i32; 2]) -> Vector {
        Vector { x: value[0], y: value[1] }
    }
}

} // verus!
