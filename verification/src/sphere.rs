//! Spheres, and where a ray meets one.
//!
//! With lengths in steps, the coefficients `a`, `b` and `c` of the quadratic
//! count squared steps and its discriminant `d` counts steps to the fourth
//! power. A root `(-b + d) / 2a` adds the two as the numbers of units that
//! they stand for, `b / SCALE^2` and `d / SCALE^4`. Over the common
//! denominator this is `(-b SCALE^2 + d) / (2a SCALE^2)` units, that is
//! `(-b SCALE^2 + d) / (2a SCALE)` steps: a numerator over a denominator,
//! both whole numbers. The quotient is rounded down.

use crate::fixed::{floor_div, SCALE, SCALE_SQUARED, WORLD_LIMIT};
use crate::ray::Ray;
use crate::vector::{lemma_lagrange, pt, Point, Vec3};
use vstd::prelude::*;

verus! {

/// Red, green, blue and alpha, each in millionths; by convention between 0
/// and `SCALE`.
pub type Color = [i32; 4];

/// A sphere with a colour.
#[derive(Clone, Copy, Debug)]
pub struct Sphere {
    pub center: Point,
    pub radius: i32,
    pub color: Color,
}

/// The coefficients of the quadratic `a t^2 + b t + c` whose roots are the
/// parameters at which a ray meets a sphere, in squared steps.
pub struct Quadratic {
    pub a: int,
    pub b: int,
    pub c: int,
}

impl Quadratic {
    /// `b^2 - 4ac`, in steps to the fourth power.
    pub open spec fn discriminant(self) -> int {
        self.b * self.b - 4 * self.a * self.c
    }

    /// The numerator of the root `(-b + s) / 2a`, where `s` counts steps to
    /// the fourth power as the discriminant does.
    pub open spec fn numerator(self, s: int) -> int {
        -self.b * (SCALE_SQUARED as int) + s
    }

    /// The denominator of a root: the numerator over it is the root in steps.
    pub open spec fn denominator(self) -> int {
        2 * self.a * (SCALE as int)
    }
}

/// The hit at the root `numer / denom`, for a positive `denom`, if there is
/// one: the root must be positive before it is rounded, and the place that
/// the rounded root leads to must lie inside the world.
pub open spec fn hit_at_root(ray: Ray, numer: int, denom: int) -> Option<Point> {
    if numer > 0 && ray.at(numer / denom).in_world() {
        Some(ray.at(numer / denom).to_point())
    } else {
        None
    }
}

/// Zero or one points, as a sequence.
pub open spec fn optional_point(p: Option<Point>) -> Seq<Point> {
    match p {
        Some(q) => seq![q],
        None => Seq::empty(),
    }
}

impl Sphere {
    /// The centre lies inside the world and the radius is no larger than the
    /// world. A radius of zero or below is in order.
    pub open spec fn wf(self) -> bool {
        self.center.in_world() && -WORLD_LIMIT <= self.radius <= WORLD_LIMIT
    }

    /// With `co` the vector from the centre to the ray's origin and `d` the
    /// ray's direction: `a = d.d`, `b = 2 co.d`, `c = co.co - r^2`.
    pub open spec fn quadratic(self, ray: Ray) -> Quadratic {
        let co = ray.origin@.minus(self.center@);
        Quadratic {
            a: ray.direction@.norm_sq(),
            b: 2 * co.dot(ray.direction@),
            c: co.norm_sq() - self.radius * self.radius,
        }
    }

    /// The points at which `ray` meets the sphere, the larger root first.
    ///
    /// A ray without direction meets nothing, and neither does one whose
    /// discriminant is negative. A discriminant of zero gives the one root
    /// `-b / 2a`. A positive discriminant `d` gives the roots `(-b + d) / 2a`
    /// and `(-b - d) / 2a`, in this order: the discriminant itself is added
    /// and subtracted, not its square root. A root yields a point only if it
    /// is positive and the point lies inside the world.
    pub open spec fn hit_points(self, ray: Ray) -> Seq<Point> {
        let q = self.quadratic(ray);
        let d = q.discriminant();
        if q.a == 0 || d < 0 {
            Seq::empty()
        } else if d == 0 {
            optional_point(hit_at_root(ray, q.numerator(0), q.denominator()))
        } else {
            optional_point(hit_at_root(ray, q.numerator(d), q.denominator()))
                + optional_point(hit_at_root(ray, q.numerator(-d), q.denominator()))
        }
    }

    /// The sphere with the given centre, radius and colour.
    pub fn new(center: Point, radius: i32, color: Color) -> (s: Sphere)
        ensures
            s.center == center,
            s.radius == radius,
            s.color == color,
    {
        Sphere { center, radius, color }
    }

    /// Tells whether the sphere is well formed.
    pub fn check_wf(&self) -> (b: bool)
        ensures
            b == self.wf(),
    {
        self.center.check_in_world() && -WORLD_LIMIT <= self.radius && self.radius
            <= WORLD_LIMIT
    }

    /// The points at which `ray` meets the sphere.
    pub fn itsct(&self, ray: &Ray) -> (hits: Vec<Point>)
        requires
            self.wf(),
            ray.wf(),
        ensures
            hits@ == self.hit_points(*ray),
    {
        let ghost q = self.quadratic(*ray);
        let mut hits: Vec<Point> = Vec::new();
        let a: i128 = ray.direction.length_squared();
        let co: Point = ray.origin.sub(&self.center);
        let half_b: i128 = co.dot(&ray.direction);
        let co_sq: i128 = co.length_squared();
        let r: i128 = self.radius as i128;
        proof {
            // Inside the world a coordinate of `co` is at most 2000 units and
            // one of the direction at most 1000.
            lemma_dot_bound(ray.direction@, ray.direction@, 1_000_000_000, 1_000_000_000);
            lemma_dot_bound(co@, ray.direction@, 2_000_000_000, 1_000_000_000);
            lemma_dot_bound(co@, co@, 2_000_000_000, 2_000_000_000);
            assert(0 <= r * r <= 1_000_000_000_000_000_000) by (nonlinear_arith)
                requires
                    -1_000_000_000 <= r <= 1_000_000_000,
            ;
        }
        let b: i128 = 2 * half_b;
        let c: i128 = co_sq - r * r;
        assert(q.a == a && q.b == b && q.c == c);
        if a == 0 {
            return hits;
        }
        proof {
            lemma_discriminant_bound(a as int, b as int, c as int);
        }
        let disc: i128 = b * b - 4 * a * c;
        if disc < 0 {
            return hits;
        }
        // `-b` and `2a` in the steps of a root: see the head of this file.
        let base: i128 = -b * 1_000_000_000_000;
        let denom: i128 = 2 * a * 1_000_000;
        assert(base == q.numerator(0));
        assert(denom == q.denominator());
        if disc == 0 {
            match root_point(ray, base, denom) {
                Some(p) => {
                    hits.push(p);
                },
                None => {},
            }
            return hits;
        }
        match root_point(ray, base + disc, denom) {
            Some(p) => {
                hits.push(p);
            },
            None => {},
        }
        match root_point(ray, base - disc, denom) {
            Some(p) => {
                hits.push(p);
            },
            None => {},
        }
        hits
    }
}

impl Sphere {
    /// The squared distance between the centre and the line of `ray`, times
    /// the squared length of the ray's direction: the squared area that the
    /// direction spans with the vector from the centre to the ray's origin.
    pub open spec fn offset_sq(self, ray: Ray) -> int {
        ray.origin@.minus(self.center@).cross(ray.direction@).norm_sq()
    }

    /// The squared radius, times the squared length of the ray's direction.
    pub open spec fn reach_sq(self, ray: Ray) -> int {
        self.radius * self.radius * ray.direction@.norm_sq()
    }

    /// The ray's direction leads from its origin towards the plane through
    /// the centre that faces the ray, not away from it.
    pub open spec fn lies_ahead(self, ray: Ray) -> bool {
        ray.origin@.minus(self.center@).dot(ray.direction@) < 0
    }

    /// Nothing is rounded on the way to the place of the root
    /// `(-b + s) / 2a`: the root is a whole number of steps, and so is each
    /// coordinate that it leads to.
    pub open spec fn root_is_exact(self, ray: Ray, s: int) -> bool {
        let q = self.quadratic(ray);
        let t = q.numerator(s) / q.denominator();
        &&& q.numerator(s) % q.denominator() == 0
        &&& (t * ray.direction.x) % (SCALE as int) == 0
        &&& (t * ray.direction.y) % (SCALE as int) == 0
        &&& (t * ray.direction.z) % (SCALE as int) == 0
    }
}

/// The discriminant is four times the difference between reach and offset:
/// its sign tells whether the ray's line passes the centre within the radius.
pub proof fn lemma_discriminant(sphere: Sphere, ray: Ray)
    ensures
        sphere.quadratic(ray).discriminant() == 4 * (sphere.reach_sq(ray) - sphere.offset_sq(ray)),
{
    let q = sphere.quadratic(ray);
    let co = ray.origin@.minus(sphere.center@);
    let d = ray.direction@;
    let h = co.dot(d);
    let n = co.norm_sq();
    let r = sphere.radius as int;
    let area = co.cross(d).norm_sq();
    lemma_lagrange(co, d);
    assert(q.discriminant() == 4 * (r * r * q.a - area)) by (nonlinear_arith)
        requires
            q.discriminant() == q.b * q.b - 4 * q.a * q.c,
            q.b == 2 * h,
            q.c == n - r * r,
            n * q.a == h * h + area,
    ;
}

/// A ray whose line passes the centre of a sphere at more than the radius
/// meets the sphere nowhere.
pub proof fn lemma_miss_has_no_hit(sphere: Sphere, ray: Ray)
    requires
        sphere.offset_sq(ray) > sphere.reach_sq(ray),
    ensures
        sphere.hit_points(ray) == Seq::<Point>::empty(),
{
    lemma_discriminant(sphere, ray);
}

/// A ray whose line passes the centre of a sphere at exactly the radius, and
/// that looks towards the sphere, meets it in exactly one point, provided
/// that point lies inside the world.
pub proof fn lemma_tangent_has_one_hit(sphere: Sphere, ray: Ray)
    requires
        ray.direction@.norm_sq() != 0,
        sphere.offset_sq(ray) == sphere.reach_sq(ray),
        sphere.lies_ahead(ray),
        ray.at(
            sphere.quadratic(ray).numerator(0) / sphere.quadratic(ray).denominator(),
        ).in_world(),
    ensures
        sphere.hit_points(ray) == seq![
            ray.at(
                sphere.quadratic(ray).numerator(0) / sphere.quadratic(ray).denominator(),
            ).to_point(),
        ],
{
    let q = sphere.quadratic(ray);
    lemma_discriminant(sphere, ray);
    assert(q.numerator(0) > 0) by (nonlinear_arith)
        requires
            q.b < 0,
            q.numerator(0) == -q.b * 1_000_000_000_000,
    ;
}

/// A ray that starts outside a sphere and is aimed at its centre has the
/// positive discriminant `4 a r^2`, and its first root is positive. Where
/// the discriminant is at most one, the second root is positive too. The
/// ray so meets the sphere in the points of the two roots, as far as the
/// second root is positive and the points lie inside the world.
pub proof fn lemma_aimed_at_centre(sphere: Sphere, ray: Ray)
    requires
        sphere.radius != 0,
        ray.direction@.norm_sq() != 0,
        ray.origin@.minus(sphere.center@).norm_sq() > sphere.radius * sphere.radius,
        sphere.offset_sq(ray) == 0,
        sphere.lies_ahead(ray),
    ensures
        ({
            let q = sphere.quadratic(ray);
            let d = q.discriminant();
            &&& d == 4 * q.a * (sphere.radius * sphere.radius)
            &&& d > 0
            &&& q.numerator(d) > 0
            &&& d <= SCALE_SQUARED * SCALE_SQUARED ==> q.numerator(-d) > 0
            &&& sphere.hit_points(ray) == optional_point(
                hit_at_root(ray, q.numerator(d), q.denominator()),
            ) + optional_point(hit_at_root(ray, q.numerator(-d), q.denominator()))
            &&& (q.numerator(-d) > 0 && ray.at(q.numerator(d) / q.denominator()).in_world()
                && ray.at(q.numerator(-d) / q.denominator()).in_world())
                ==> sphere.hit_points(ray).len() == 2
        }),
{
    let q = sphere.quadratic(ray);
    let d = q.discriminant();
    let r = sphere.radius as int;
    let co = ray.origin@.minus(sphere.center@);
    let h = co.dot(ray.direction@);
    lemma_discriminant(sphere, ray);
    lemma_lagrange(co, ray.direction@);
    assert(q.a > 0) by (nonlinear_arith)
        requires
            q.a == ray.direction.x * ray.direction.x + ray.direction.y * ray.direction.y
                + ray.direction.z * ray.direction.z,
            q.a != 0,
    ;
    assert(d == 4 * q.a * (r * r) && d > 0) by (nonlinear_arith)
        requires
            d == 4 * (r * r * q.a - 0),
            q.a > 0,
            r != 0,
    ;
    assert(q.numerator(d) > 0) by (nonlinear_arith)
        requires
            q.b < 0,
            d > 0,
            q.numerator(d) == -q.b * 1_000_000_000_000 + d,
    ;
    if d <= SCALE_SQUARED * SCALE_SQUARED {
        assert(q.b * q.b > d) by (nonlinear_arith)
            requires
                q.b == 2 * h,
                co.norm_sq() * q.a == h * h + 0,
                co.norm_sq() > r * r,
                q.a > 0,
                d == 4 * q.a * (r * r),
        ;
        assert(-q.b * 1_000_000_000_000 > d) by (nonlinear_arith)
            requires
                q.b * q.b > d,
                q.b < 0,
                0 < d <= 1_000_000_000_000_000_000_000_000,
        ;
    }
}

/// Where the discriminant is zero or one, adding it to `-b` is adding its
/// square root, and the roots are those of the quadratic itself. The place
/// at such a root lies on the sphere, at the distance of the radius from the
/// centre, provided that nothing was rounded on the way.
pub proof fn lemma_exact_root_lies_on_sphere(sphere: Sphere, ray: Ray, s: int)
    requires
        ray.direction@.norm_sq() != 0,
        sphere.quadratic(ray).discriminant() == 0 || sphere.quadratic(ray).discriminant()
            == SCALE_SQUARED * SCALE_SQUARED,
        s == sphere.quadratic(ray).discriminant() || s == -sphere.quadratic(ray).discriminant(),
        sphere.root_is_exact(ray, s),
    ensures
        ({
            let t = sphere.quadratic(ray).numerator(s) / sphere.quadratic(ray).denominator();
            ray.at(t).minus(sphere.center@).norm_sq() == sphere.radius * sphere.radius
        }),
{
    let q = sphere.quadratic(ray);
    let d = q.discriminant();
    let t = q.numerator(s) / q.denominator();
    let co = ray.origin@.minus(sphere.center@);
    let dir = ray.direction@;
    let r = sphere.radius as int;
    let e = dir.scaled(t);
    let rest = q.a * t * t + q.b * 1_000_000 * t + q.c * 1_000_000_000_000;
    assert(q.a > 0) by (nonlinear_arith)
        requires
            q.a == dir.x * dir.x + dir.y * dir.y + dir.z * dir.z,
            q.a != 0,
    ;
    assert(q.denominator() * t == q.numerator(s)) by (nonlinear_arith)
        requires
            q.denominator() > 0,
            t == q.numerator(s) / q.denominator(),
            q.numerator(s) % q.denominator() == 0,
    ;
    lemma_root_solves_quadratic(q.a, q.b, q.c, t, s);
    assert(s * s == d * 1_000_000_000_000_000_000_000_000) by (nonlinear_arith)
        requires
            d == 0 || d == 1_000_000_000_000_000_000_000_000,
            s == d || s == -d,
    ;
    assert(rest == 0) by (nonlinear_arith)
        requires
            4 * q.a * 1_000_000_000_000 * rest == 0,
            q.a > 0,
    ;
    lemma_exact_step(t, dir.x);
    lemma_exact_step(t, dir.y);
    lemma_exact_step(t, dir.z);
    lemma_square_of_scaled_sum(co.x, e.x, t, dir.x);
    lemma_square_of_scaled_sum(co.y, e.y, t, dir.y);
    lemma_square_of_scaled_sum(co.z, e.z, t, dir.z);
    let p = ray.at(t).minus(sphere.center@);
    assert(p.x == co.x + e.x && p.y == co.y + e.y && p.z == co.z + e.z);
    let dist = p.norm_sq();
    assert(1_000_000_000_000 * dist == 1_000_000_000_000 * co.norm_sq() + 1_000_000 * t * q.b + t
        * t * q.a) by (nonlinear_arith)
        requires
            dist == p.x * p.x + p.y * p.y + p.z * p.z,
            1_000_000_000_000 * (p.x * p.x) == 1_000_000_000_000 * (co.x * co.x) + 2_000_000 * t * (
            co.x * dir.x) + t * t * (dir.x * dir.x),
            1_000_000_000_000 * (p.y * p.y) == 1_000_000_000_000 * (co.y * co.y) + 2_000_000 * t * (
            co.y * dir.y) + t * t * (dir.y * dir.y),
            1_000_000_000_000 * (p.z * p.z) == 1_000_000_000_000 * (co.z * co.z) + 2_000_000 * t * (
            co.z * dir.z) + t * t * (dir.z * dir.z),
            co.norm_sq() == co.x * co.x + co.y * co.y + co.z * co.z,
            q.b == 2 * (co.x * dir.x + co.y * dir.y + co.z * dir.z),
            q.a == dir.x * dir.x + dir.y * dir.y + dir.z * dir.z,
    ;
    assert(1_000_000_000_000 * dist == 1_000_000_000_000 * (r * r)) by (nonlinear_arith)
        requires
            1_000_000_000_000 * dist == 1_000_000_000_000 * co.norm_sq() + 1_000_000 * t * q.b + t
                * t * q.a,
            q.c == co.norm_sq() - r * r,
            q.a * t * t + q.b * 1_000_000 * t + q.c * 1_000_000_000_000 == 0,
    ;
}

/// A ray that starts outside a sphere and is aimed at its centre, with a
/// discriminant of one, meets the sphere in exactly two points, each at the
/// distance of the radius from the centre, provided that nothing is rounded
/// on the way to them and that both lie inside the world.
pub proof fn lemma_aimed_at_centre_with_unit_discriminant(sphere: Sphere, ray: Ray)
    requires
        sphere.radius != 0,
        ray.direction@.norm_sq() != 0,
        ray.origin@.minus(sphere.center@).norm_sq() > sphere.radius * sphere.radius,
        sphere.offset_sq(ray) == 0,
        sphere.lies_ahead(ray),
        sphere.quadratic(ray).discriminant() == SCALE_SQUARED * SCALE_SQUARED,
        sphere.root_is_exact(ray, sphere.quadratic(ray).discriminant()),
        sphere.root_is_exact(ray, -sphere.quadratic(ray).discriminant()),
        ({
            let q = sphere.quadratic(ray);
            &&& ray.at(q.numerator(q.discriminant()) / q.denominator()).in_world()
            &&& ray.at(q.numerator(-q.discriminant()) / q.denominator()).in_world()
        }),
    ensures
        sphere.hit_points(ray).len() == 2,
        forall|i: int|
            0 <= i < 2 ==> (#[trigger] sphere.hit_points(ray)[i])@.minus(
                sphere.center@,
            ).norm_sq() == sphere.radius * sphere.radius,
{
    let q = sphere.quadratic(ray);
    let d = q.discriminant();
    lemma_aimed_at_centre(sphere, ray);
    lemma_exact_root_lies_on_sphere(sphere, ray, d);
    lemma_exact_root_lies_on_sphere(sphere, ray, -d);
    lemma_hit_at_root_in_world(ray, q.numerator(d), q.denominator());
    lemma_hit_at_root_in_world(ray, q.numerator(-d), q.denominator());
}

/// A root `t` with `2 a S t = -b S^2 + s` satisfies
/// `4 a S^2 (a t^2 + b S t + c S^2) = s^2 - (b^2 - 4ac) S^4`, where `S` is
/// `SCALE`.
proof fn lemma_root_solves_quadratic(a: int, b: int, c: int, t: int, s: int)
    requires
        2 * a * 1_000_000 * t == -b * 1_000_000_000_000 + s,
    ensures
        4 * a * 1_000_000_000_000 * (a * t * t + b * 1_000_000 * t + c * 1_000_000_000_000) == s
            * s - (b * b - 4 * a * c) * 1_000_000_000_000_000_000_000_000,
{
    let u = 2 * a * 1_000_000 * t;
    let v = b * 1_000_000_000_000;
    assert(u * u == 4 * a * 1_000_000_000_000 * (a * t * t)) by (nonlinear_arith)
        requires
            u == 2 * a * 1_000_000 * t,
    ;
    assert(2 * v * u == 4 * a * 1_000_000_000_000 * (b * 1_000_000 * t)) by (nonlinear_arith)
        requires
            u == 2 * a * 1_000_000 * t,
            v == b * 1_000_000_000_000,
    ;
    assert(u * u + 2 * v * u + v * v == s * s) by (nonlinear_arith)
        requires
            u == -v + s,
    ;
    assert(v * v == (b * b) * 1_000_000_000_000_000_000_000_000) by (nonlinear_arith)
        requires
            v == b * 1_000_000_000_000,
    ;
    let x = a * t * t;
    let y = b * 1_000_000 * t;
    let z = c * 1_000_000_000_000;
    assert(4 * a * 1_000_000_000_000 * (x + y + z) == 4 * a * 1_000_000_000_000 * x + 4 * a
        * 1_000_000_000_000 * y + 4 * a * 1_000_000_000_000 * z) by (nonlinear_arith);
    assert(4 * a * 1_000_000_000_000 * z == (4 * a * c) * 1_000_000_000_000_000_000_000_000)
        by (nonlinear_arith)
        requires
            z == c * 1_000_000_000_000,
    ;
    assert((b * b - 4 * a * c) * 1_000_000_000_000_000_000_000_000 == (b * b)
        * 1_000_000_000_000_000_000_000_000 - (4 * a * c) * 1_000_000_000_000_000_000_000_000)
        by (nonlinear_arith);
}

/// A multiple of `SCALE` divided by `SCALE` loses nothing.
proof fn lemma_exact_step(t: int, d: int)
    requires
        (t * d) % 1_000_000 == 0,
    ensures
        1_000_000 * ((t * d) / 1_000_000) == t * d,
{
    assert(1_000_000 * ((t * d) / 1_000_000) == t * d) by (nonlinear_arith)
        requires
            (t * d) % 1_000_000 == 0,
    ;
}

/// The square of `c + e`, times `SCALE` squared, where `e` is `t d / SCALE`
/// without remainder.
proof fn lemma_square_of_scaled_sum(c: int, e: int, t: int, d: int)
    requires
        1_000_000 * e == t * d,
    ensures
        1_000_000_000_000 * ((c + e) * (c + e)) == 1_000_000_000_000 * (c * c) + 2_000_000 * t * (c
            * d) + t * t * (d * d),
{
    let w = 1_000_000 * e;
    assert(1_000_000_000_000 * ((c + e) * (c + e)) == 1_000_000_000_000 * (c * c) + 2_000_000 * (c
        * w) + w * w) by (nonlinear_arith)
        requires
            w == 1_000_000 * e,
    ;
    assert(c * w == t * (c * d)) by (nonlinear_arith)
        requires
            w == t * d,
    ;
    assert(w * w == t * t * (d * d)) by (nonlinear_arith)
        requires
            w == t * d,
    ;
    assert(2_000_000 * (t * (c * d)) == 2_000_000 * t * (c * d)) by (nonlinear_arith);
}

/// A ray meets a sphere in at most two points, all of them inside the world.
pub proof fn lemma_hit_points_in_world(sphere: Sphere, ray: Ray)
    ensures
        sphere.hit_points(ray).len() <= 2,
        forall|i: int|
            0 <= i < sphere.hit_points(ray).len() ==> (#[trigger] sphere.hit_points(
                ray,
            )[i]).in_world(),
{
    let q = sphere.quadratic(ray);
    let d = q.discriminant();
    lemma_hit_at_root_in_world(ray, q.numerator(0), q.denominator());
    lemma_hit_at_root_in_world(ray, q.numerator(d), q.denominator());
    lemma_hit_at_root_in_world(ray, q.numerator(-d), q.denominator());
}

/// A hit at a root lies inside the world.
proof fn lemma_hit_at_root_in_world(ray: Ray, numer: int, denom: int)
    ensures
        match hit_at_root(ray, numer, denom) {
            Some(p) => p.in_world() && p@ == ray.at(numer / denom),
            None => true,
        },
{
}

/// The hit at the root `numer / denom`, if there is one.
fn root_point(ray: &Ray, numer: i128, denom: i128) -> (p: Option<Point>)
    requires
        ray.wf(),
        denom > 0,
        ray.direction@.norm_sq() != 0,
    ensures
        p == hit_at_root(*ray, numer as int, denom as int),
{
    if numer <= 0 {
        return None;
    }
    let t: i128 = floor_div(numer, denom);
    assert(t >= 0) by (nonlinear_arith)
        requires
            t == numer / denom,
            numer > 0,
            denom > 0,
    ;
    // More than 2_000_000_001 directions: even at a single step for each
    // direction the ray has left the world by then, wherever it started,
    // and the products below need not be formed.
    if t > 2_000_000_001_000_000 {
        proof {
            lemma_far_root_leaves_world(*ray, t as int);
        }
        return None;
    }
    let x: i128 = ray.origin.x as i128 + offset(t, ray.direction.x);
    let y: i128 = ray.origin.y as i128 + offset(t, ray.direction.y);
    let z: i128 = ray.origin.z as i128 + offset(t, ray.direction.z);
    let limit: i128 = WORLD_LIMIT as i128;
    if -limit <= x && x <= limit && -limit <= y && y <= limit && -limit <= z && z <= limit {
        Some(pt(x as i32, y as i32, z as i32))
    } else {
        None
    }
}

/// How far `t / SCALE` steps of `d` lead along one axis, rounded down.
fn offset(t: i128, d: i32) -> (o: i128)
    requires
        0 <= t <= 2_000_000_001_000_000,
        -WORLD_LIMIT <= d <= WORLD_LIMIT,
    ensures
        o == (t * d) / (SCALE as int),
        -2_000_000_001_000_000_000 <= o <= 2_000_000_001_000_000_000,
{
    assert(-2_000_000_001_000_000_000_000_000 <= t * d <= 2_000_000_001_000_000_000_000_000)
        by (nonlinear_arith)
        requires
            0 <= t <= 2_000_000_001_000_000,
            -1_000_000_000 <= d <= 1_000_000_000,
    ;
    floor_div(t * (d as i128), SCALE as i128)
}

/// The dot product of two vectors is bounded by the bounds of their
/// coordinates.
proof fn lemma_dot_bound(u: Vec3, v: Vec3, bu: int, bv: int)
    requires
        -bu <= u.x <= bu,
        -bu <= u.y <= bu,
        -bu <= u.z <= bu,
        -bv <= v.x <= bv,
        -bv <= v.y <= bv,
        -bv <= v.z <= bv,
    ensures
        -(3 * (bu * bv)) <= u.dot(v) <= 3 * (bu * bv),
{
    lemma_product_bound(u.x, v.x, bu, bv);
    lemma_product_bound(u.y, v.y, bu, bv);
    lemma_product_bound(u.z, v.z, bu, bv);
}

/// A product is bounded by the product of its factors' bounds.
proof fn lemma_product_bound(x: int, y: int, bx: int, by: int)
    by (nonlinear_arith)
    requires
        -bx <= x <= bx,
        -by <= y <= by,
    ensures
        -(bx * by) <= x * y <= bx * by,
{
}

/// Inside the world the discriminant, and the numerators built from it, can
/// be computed in 128 bits.
proof fn lemma_discriminant_bound(a: int, b: int, c: int)
    by (nonlinear_arith)
    requires
        0 <= a <= 3_000_000_000_000_000_000,
        -12_000_000_000_000_000_000 <= b <= 12_000_000_000_000_000_000,
        -1_000_000_000_000_000_000 <= c <= 12_000_000_000_000_000_000,
    ensures
        0 <= b * b <= 144_000_000_000_000_000_000_000_000_000_000_000_000,
        -12_000_000_000_000_000_000_000_000_000_000_000_000 <= 4 * a * c
            <= 144_000_000_000_000_000_000_000_000_000_000_000_000,
{
}

/// A root of more than 2_000_000_001 directions leads out of the world along
/// any axis on which the ray moves at all: even at one step for each
/// direction this is more than twice the limit of the world.
proof fn lemma_far_root_leaves_world(ray: Ray, t: int)
    requires
        ray.wf(),
        ray.direction@.norm_sq() != 0,
        t > 2_000_000_001_000_000,
    ensures
        !ray.at(t).in_world(),
{
    let d = ray.direction@;
    if d.x != 0 {
        lemma_far_offset(t, d.x);
    } else if d.y != 0 {
        lemma_far_offset(t, d.y);
    } else {
        assert(d.z != 0) by (nonlinear_arith)
            requires
                d.x == 0,
                d.y == 0,
                d.x * d.x + d.y * d.y + d.z * d.z != 0,
        ;
        lemma_far_offset(t, d.z);
    }
}

/// So many steps of a non-zero coordinate are more than the world is wide.
proof fn lemma_far_offset(t: int, d: int)
    by (nonlinear_arith)
    requires
        t > 2_000_000_001_000_000,
        d != 0,
    ensures
        d > 0 ==> (t * d) / 1_000_000 > 2_000_000_000,
        d < 0 ==> (t * d) / 1_000_000 < -2_000_000_000,
{
}

} // verus!
