//! Points and vectors with three integer coordinates.

use crate::fixed::{floor_div, SCALE, WORLD_LIMIT};
use vstd::prelude::*;

verus! {

/// A vector of three unbounded integers: what a `Point` stands for, and what
/// sums and multiples of points are before anyone asks whether they fit.
pub struct Vec3 {
    pub x: int,
    pub y: int,
    pub z: int,
}

impl Vec3 {
    pub open spec fn plus(self, other: Vec3) -> Vec3 {
        Vec3 { x: self.x + other.x, y: self.y + other.y, z: self.z + other.z }
    }

    pub open spec fn minus(self, other: Vec3) -> Vec3 {
        Vec3 { x: self.x - other.x, y: self.y - other.y, z: self.z - other.z }
    }

    pub open spec fn negated(self) -> Vec3 {
        Vec3 { x: -self.x, y: -self.y, z: -self.z }
    }

    /// The dot product, in squared steps.
    pub open spec fn dot(self, other: Vec3) -> int {
        self.x * other.x + self.y * other.y + self.z * other.z
    }

    /// The cross product, in squared steps. Its length is the area that the
    /// two vectors span.
    pub open spec fn cross(self, other: Vec3) -> Vec3 {
        Vec3 {
            x: self.y * other.z - self.z * other.y,
            y: self.z * other.x - self.x * other.z,
            z: self.x * other.y - self.y * other.x,
        }
    }

    /// The squared length, in squared steps.
    pub open spec fn norm_sq(self) -> int {
        self.dot(self)
    }

    /// The vector times the number `k / SCALE`, each coordinate rounded down.
    pub open spec fn scaled(self, k: int) -> Vec3 {
        Vec3 {
            x: (k * self.x) / (SCALE as int),
            y: (k * self.y) / (SCALE as int),
            z: (k * self.z) / (SCALE as int),
        }
    }

    /// Every coordinate can be stored in a `Point`.
    pub open spec fn fits(self) -> bool {
        &&& i32::MIN <= self.x <= i32::MAX
        &&& i32::MIN <= self.y <= i32::MAX
        &&& i32::MIN <= self.z <= i32::MAX
    }

    /// No coordinate exceeds `WORLD_LIMIT` in magnitude.
    pub open spec fn in_world(self) -> bool {
        &&& -WORLD_LIMIT <= self.x <= WORLD_LIMIT
        &&& -WORLD_LIMIT <= self.y <= WORLD_LIMIT
        &&& -WORLD_LIMIT <= self.z <= WORLD_LIMIT
    }

    /// The point with these coordinates, where the vector fits.
    pub open spec fn to_point(self) -> Point {
        Point { x: self.x as i32, y: self.y as i32, z: self.z as i32 }
    }
}

/// A position or a direction; each coordinate counts millionths of a unit.
#[derive(Clone, Copy, Debug, PartialEq, Eq, Structural)]
pub struct Point {
    pub x: i32,
    pub y: i32,
    pub z: i32,
}

impl View for Point {
    type V = Vec3;

    open spec fn view(&self) -> Vec3 {
        Vec3 { x: self.x as int, y: self.y as int, z: self.z as int }
    }
}

/// The point with the given coordinates.
pub fn pt(x: i32, y: i32, z: i32) -> (p: Point)
    ensures
        p == (Point { x, y, z }),
{
    Point { x, y, z }
}

impl Point {
    /// The point lies inside the world.
    pub open spec fn in_world(self) -> bool {
        self@.in_world()
    }

    /// Tells whether the point lies inside the world.
    pub fn check_in_world(&self) -> (b: bool)
        ensures
            b == self.in_world(),
    {
        -WORLD_LIMIT <= self.x && self.x <= WORLD_LIMIT && -WORLD_LIMIT <= self.y && self.y
            <= WORLD_LIMIT && -WORLD_LIMIT <= self.z && self.z <= WORLD_LIMIT
    }

    /// The dot product with `other`.
    pub fn dot(&self, other: &Point) -> (d: i128)
        ensures
            d == self@.dot(other@),
    {
        let xx: i128 = mul_coords(self.x, other.x);
        let yy: i128 = mul_coords(self.y, other.y);
        let zz: i128 = mul_coords(self.z, other.z);
        xx + yy + zz
    }

    /// The squared distance from the origin.
    pub fn length_squared(&self) -> (d: i128)
        ensures
            d == self@.norm_sq(),
            0 <= d <= 0xC000_0000_0000_0000,
    {
        let xx: i128 = mul_coords(self.x, self.x);
        let yy: i128 = mul_coords(self.y, self.y);
        let zz: i128 = mul_coords(self.z, self.z);
        assert(xx >= 0 && yy >= 0 && zz >= 0) by (nonlinear_arith)
            requires
                xx == self.x * self.x,
                yy == self.y * self.y,
                zz == self.z * self.z,
        ;
        xx + yy + zz
    }

    /// The difference `self - other`.
    pub fn sub(&self, other: &Point) -> (p: Point)
        requires
            self@.minus(other@).fits(),
        ensures
            p@ == self@.minus(other@),
    {
        pt(self.x - other.x, self.y - other.y, self.z - other.z)
    }

    /// The sum `self + other`.
    pub fn add(&self, other: &Point) -> (p: Point)
        requires
            self@.plus(other@).fits(),
        ensures
            p@ == self@.plus(other@),
    {
        pt(self.x + other.x, self.y + other.y, self.z + other.z)
    }

    /// The point times the number `r / SCALE`, each coordinate rounded down.
    pub fn scale(&self, r: i64) -> (p: Point)
        requires
            self@.scaled(r as int).fits(),
        ensures
            p@ == self@.scaled(r as int),
    {
        pt(scale_coord(r, self.x), scale_coord(r, self.y), scale_coord(r, self.z))
    }
}

/// The identity of Lagrange: the squared lengths of two vectors, multiplied,
/// are the square of their dot product plus the squared length of their
/// cross product.
pub proof fn lemma_lagrange(u: Vec3, v: Vec3)
    ensures
        u.norm_sq() * v.norm_sq() == u.dot(v) * u.dot(v) + u.cross(v).norm_sq(),
{
    let (sx, sy, sz) = (u.x * u.x, u.y * u.y, u.z * u.z);
    let (tx, ty, tz) = (v.x * v.x, v.y * v.y, v.z * v.z);
    let (mx, my, mz) = (u.x * v.x, u.y * v.y, u.z * v.z);
    let w = u.cross(v);
    assert((sx + sy + sz) * (tx + ty + tz) == sx * tx + sx * ty + sx * tz + sy * tx + sy * ty + sy
        * tz + sz * tx + sz * ty + sz * tz) by (nonlinear_arith);
    assert((mx + my + mz) * (mx + my + mz) == mx * mx + my * my + mz * mz + 2 * (mx * my) + 2 * (mx
        * mz) + 2 * (my * mz)) by (nonlinear_arith);
    lemma_square_of_product(u.x, v.x);
    lemma_square_of_product(u.y, v.y);
    lemma_square_of_product(u.z, v.z);
    lemma_square_of_minor(u.y, u.z, v.y, v.z);
    lemma_square_of_minor(u.z, u.x, v.z, v.x);
    lemma_square_of_minor(u.x, u.y, v.x, v.y);
    assert(mz * mx == mx * mz) by (nonlinear_arith);
}

/// The inequality of Cauchy and Schwarz: the square of a dot product is at
/// most the product of the squared lengths.
pub proof fn lemma_cauchy_schwarz(u: Vec3, v: Vec3)
    ensures
        u.dot(v) * u.dot(v) <= u.norm_sq() * v.norm_sq(),
{
    lemma_lagrange(u, v);
    let w = u.cross(v);
    assert(w.x * w.x >= 0 && w.y * w.y >= 0 && w.z * w.z >= 0) by (nonlinear_arith);
}

/// The product of two squares is the square of the product.
proof fn lemma_square_of_product(p: int, r: int)
    by (nonlinear_arith)
    ensures
        (p * p) * (r * r) == (p * r) * (p * r),
{
}

/// The square of a two-by-two determinant, multiplied out.
proof fn lemma_square_of_minor(p: int, q: int, r: int, s: int)
    ensures
        (p * s - q * r) * (p * s - q * r) == (p * p) * (s * s) - 2 * ((p * r) * (q * s)) + (q * q)
            * (r * r),
{
    let m = p * s;
    let n = q * r;
    assert((m - n) * (m - n) == m * m - 2 * (m * n) + n * n) by (nonlinear_arith);
    lemma_square_of_product(p, s);
    lemma_square_of_product(q, r);
    assert(m * n == (p * r) * (q * s)) by (nonlinear_arith)
        requires
            m == p * s,
            n == q * r,
    ;
}

/// The exact product of two coordinates.
fn mul_coords(a: i32, b: i32) -> (p: i128)
    ensures
        p == a * b,
        -0x4000_0000_0000_0000 <= p <= 0x4000_0000_0000_0000,
{
    assert(-0x4000_0000_0000_0000 <= a * b <= 0x4000_0000_0000_0000) by (nonlinear_arith)
        requires
            -0x8000_0000 <= a <= 0x8000_0000,
            -0x8000_0000 <= b <= 0x8000_0000,
    ;
    (a as i128) * (b as i128)
}

/// One coordinate times `r / SCALE`, rounded down.
fn scale_coord(r: i64, c: i32) -> (s: i32)
    requires
        i32::MIN <= (r * c) / (SCALE as int) <= i32::MAX,
    ensures
        s == (r * c) / (SCALE as int),
{
    assert(-0x4000_0000_0000_0000_0000_0000 <= r * c <= 0x4000_0000_0000_0000_0000_0000)
        by (nonlinear_arith)
        requires
            -0x8000_0000_0000_0000 <= r <= 0x8000_0000_0000_0000,
            -0x8000_0000 <= c <= 0x8000_0000,
    ;
    let q: i128 = floor_div((r as i128) * (c as i128), SCALE as i128);
    q as i32
}

} // verus!
