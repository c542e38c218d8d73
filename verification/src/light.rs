//! Light sources, and how much light each sends to a point of a surface.

use crate::fixed::{floor_div, floor_sqrt, isqrt, lemma_floor_sqrt_exists, SCALE};
use crate::vector::{lemma_cauchy_schwarz, Point, Vec3};
use vstd::prelude::*;

verus! {

/// Light that reaches every surface alike.
#[derive(Clone, Copy, Debug)]
pub struct AmbientLight {
    pub intensity: i32,
}

/// Light that spreads from one position.
#[derive(Clone, Copy, Debug)]
pub struct PointLight {
    pub intensity: i32,
    pub position: Point,
}

/// Light that travels along one direction everywhere. Its position plays no
/// part in what it sends.
#[derive(Clone, Copy, Debug)]
pub struct DirectionalLight {
    pub intensity: i32,
    pub direction: Point,
    pub position: Point,
}

/// Any of the three sources.
#[derive(Clone, Copy, Debug)]
pub enum Light {
    Ambient(AmbientLight),
    Point(PointLight),
    Directional(DirectionalLight),
}

/// What a source of the given intensity sends along `light_vec`, the vector
/// from the surface towards the light, to a surface with the given normal.
///
/// A surface that faces away receives nothing. Otherwise the intensity is
/// multiplied by `alignment / length`, where the alignment is the dot
/// product of the normal and `light_vec`, and the length that of `light_vec`,
/// rounded down to a whole step: the alignment is divided by the distance,
/// not by its square. A `light_vec` without length sends nothing.
pub open spec fn falloff(intensity: int, normal: Vec3, light_vec: Vec3) -> int {
    let alignment = normal.dot(light_vec);
    let length = floor_sqrt(light_vec.norm_sq());
    if alignment < 0 || length == 0 {
        0
    } else {
        (intensity * (alignment / length)) / (SCALE as int)
    }
}

impl AmbientLight {
    /// The intensity, wherever the surface is and however it is turned.
    pub open spec fn intensity_at(self, normal: Point, pos: Point) -> int {
        self.intensity as int
    }

    /// The light sent to the surface point `pos` with the given normal.
    pub fn intensity(&self, normal: Point, pos: Point) -> (i: i64)
        ensures
            i == self.intensity_at(normal, pos),
    {
        self.intensity as i64
    }
}

impl PointLight {
    /// What arrives along the vector from `pos` to the light's position.
    pub open spec fn intensity_at(self, normal: Point, pos: Point) -> int {
        falloff(self.intensity as int, normal@, self.position@.minus(pos@))
    }

    /// The light sent to the surface point `pos` with the given normal.
    pub fn intensity(&self, normal: Point, pos: Point) -> (i: i64)
        ensures
            i == self.intensity_at(normal, pos),
    {
        attenuate(
            self.intensity,
            &normal,
            self.position.x as i64 - pos.x as i64,
            self.position.y as i64 - pos.y as i64,
            self.position.z as i64 - pos.z as i64,
        )
    }
}

impl DirectionalLight {
    /// What arrives against the light's direction, wherever the surface is:
    /// the length in `falloff` is that of the direction itself.
    pub open spec fn intensity_at(self, normal: Point, pos: Point) -> int {
        falloff(self.intensity as int, normal@, self.direction@.negated())
    }

    /// The light sent to the surface point `pos` with the given normal.
    pub fn intensity(&self, normal: Point, pos: Point) -> (i: i64)
        ensures
            i == self.intensity_at(normal, pos),
    {
        attenuate(
            self.intensity,
            &normal,
            -(self.direction.x as i64),
            -(self.direction.y as i64),
            -(self.direction.z as i64),
        )
    }
}

impl Light {
    /// What the light sends to the surface point `pos` with the given
    /// normal.
    pub open spec fn intensity_at(self, normal: Point, pos: Point) -> int {
        match self {
            Light::Ambient(l) => l.intensity_at(normal, pos),
            Light::Point(l) => l.intensity_at(normal, pos),
            Light::Directional(l) => l.intensity_at(normal, pos),
        }
    }

    /// The light sent to the surface point `pos` with the given normal.
    pub fn intensity(&self, normal: Point, pos: Point) -> (i: i64)
        ensures
            i == self.intensity_at(normal, pos),
    {
        match self {
            Light::Ambient(l) => l.intensity(normal, pos),
            Light::Point(l) => l.intensity(normal, pos),
            Light::Directional(l) => l.intensity(normal, pos),
        }
    }
}

/// No light of an intensity from zero on takes light away.
pub proof fn lemma_falloff_is_not_negative(intensity: int, normal: Vec3, light_vec: Vec3)
    requires
        intensity >= 0,
    ensures
        falloff(intensity, normal, light_vec) >= 0,
{
    let alignment = normal.dot(light_vec);
    let length = floor_sqrt(light_vec.norm_sq());
    assert(light_vec.norm_sq() >= 0) by (nonlinear_arith)
        requires
            light_vec.norm_sq() == light_vec.x * light_vec.x + light_vec.y * light_vec.y
                + light_vec.z * light_vec.z,
    ;
    lemma_floor_sqrt_exists(light_vec.norm_sq());
    if alignment >= 0 && length > 0 {
        assert((intensity * (alignment / length)) / 1_000_000 >= 0) by (nonlinear_arith)
            requires
                intensity >= 0,
                alignment >= 0,
                length > 0,
        ;
    }
}

/// A surface whose normal points away from a point light receives nothing
/// from it.
pub proof fn lemma_back_face_is_unlit(light: PointLight, normal: Point, pos: Point)
    requires
        normal@.dot(light.position@.minus(pos@)) < 0,
    ensures
        light.intensity_at(normal, pos) == 0,
{
}

/// What a source of the given intensity sends along the vector `(x, y, z)`
/// to a surface with the given normal.
fn attenuate(intensity: i32, normal: &Point, x: i64, y: i64, z: i64) -> (i: i64)
    requires
        -0x1_0000_0000 <= x <= 0x1_0000_0000,
        -0x1_0000_0000 <= y <= 0x1_0000_0000,
        -0x1_0000_0000 <= z <= 0x1_0000_0000,
    ensures
        i == falloff(intensity as int, normal@, Vec3 { x: x as int, y: y as int, z: z as int }),
{
    let ghost light_vec = Vec3 { x: x as int, y: y as int, z: z as int };
    let alignment: i128 = mul_wide(normal.x, x) + mul_wide(normal.y, y) + mul_wide(normal.z, z);
    if alignment < 0 {
        return 0;
    }
    let length_sq: i128 = square_wide(x) + square_wide(y) + square_wide(z);
    let length: u64 = isqrt(length_sq as u128);
    if length == 0 {
        return 0;
    }
    let ratio: i128 = alignment / (length as i128);
    proof {
        lemma_ratio_bound(normal@, light_vec, length as int);
        lemma_norm_sq_fits(*normal);
        assert(0 <= ratio < 0x4_0000_0000) by (nonlinear_arith)
            requires
                ratio * ratio <= 4 * normal@.norm_sq(),
                normal@.norm_sq() <= 0xC000_0000_0000_0000,
                ratio == (alignment as int) / (length as int),
                alignment >= 0,
                length > 0,
        ;
        assert(-0x2_0000_0000_0000_0000 <= intensity * ratio <= 0x2_0000_0000_0000_0000)
            by (nonlinear_arith)
            requires
                0 <= ratio < 0x4_0000_0000,
                -0x8000_0000 <= intensity <= 0x8000_0000,
        ;
    }
    let product: i128 = (intensity as i128) * ratio;
    let sent: i128 = floor_div(product, 1_000_000);
    sent as i64
}

/// The exact product of a coordinate and a difference of coordinates.
fn mul_wide(a: i32, b: i64) -> (p: i128)
    requires
        -0x1_0000_0000 <= b <= 0x1_0000_0000,
    ensures
        p == a * b,
        -0x8000_0000_0000_0000 <= p <= 0x8000_0000_0000_0000,
{
    assert(-0x8000_0000_0000_0000 <= a * b <= 0x8000_0000_0000_0000) by (nonlinear_arith)
        requires
            -0x8000_0000 <= a <= 0x8000_0000,
            -0x1_0000_0000 <= b <= 0x1_0000_0000,
    ;
    (a as i128) * (b as i128)
}

/// The exact square of a difference of coordinates.
fn square_wide(b: i64) -> (p: i128)
    requires
        -0x1_0000_0000 <= b <= 0x1_0000_0000,
    ensures
        p == b * b,
        0 <= p <= 0x1_0000_0000_0000_0000,
{
    assert(0 <= b * b <= 0x1_0000_0000_0000_0000) by (nonlinear_arith)
        requires
            -0x1_0000_0000 <= b <= 0x1_0000_0000,
    ;
    (b as i128) * (b as i128)
}

/// The squared length of a point fits in 64 bits without a sign.
proof fn lemma_norm_sq_fits(p: Point)
    ensures
        0 <= p@.norm_sq() <= 0xC000_0000_0000_0000,
{
    assert(0 <= p.x * p.x <= 0x4000_0000_0000_0000) by (nonlinear_arith)
        requires
            -0x8000_0000 <= p.x <= 0x8000_0000,
    ;
    assert(0 <= p.y * p.y <= 0x4000_0000_0000_0000) by (nonlinear_arith)
        requires
            -0x8000_0000 <= p.y <= 0x8000_0000,
    ;
    assert(0 <= p.z * p.z <= 0x4000_0000_0000_0000) by (nonlinear_arith)
        requires
            -0x8000_0000 <= p.z <= 0x8000_0000,
    ;
}

/// The quotient of alignment by length, rounded down, is at most twice as
/// long as the normal.
proof fn lemma_ratio_bound(normal: Vec3, light_vec: Vec3, length: int)
    requires
        normal.dot(light_vec) >= 0,
        length > 0,
        length == floor_sqrt(light_vec.norm_sq()),
        light_vec.norm_sq() >= 0,
    ensures
        (normal.dot(light_vec) / length) * (normal.dot(light_vec) / length) <= 4
            * normal.norm_sq(),
{
    let al = normal.dot(light_vec);
    let n2 = normal.norm_sq();
    let l2 = light_vec.norm_sq();
    let q = al / length;
    lemma_cauchy_schwarz(normal, light_vec);
    lemma_floor_sqrt_exists(l2);
    assert(l2 < 4 * (length * length)) by (nonlinear_arith)
        requires
            length >= 1,
            l2 < (length + 1) * (length + 1),
    ;
    assert(n2 >= 0) by (nonlinear_arith)
        requires
            n2 == normal.x * normal.x + normal.y * normal.y + normal.z * normal.z,
    ;
    assert(0 <= q * length <= al) by (nonlinear_arith)
        requires
            q == al / length,
            al >= 0,
            length > 0,
    ;
    assert((q * length) * (q * length) <= al * al) by (nonlinear_arith)
        requires
            0 <= q * length <= al,
    ;
    assert(n2 * l2 <= n2 * (4 * (length * length))) by (nonlinear_arith)
        requires
            n2 >= 0,
            l2 < 4 * (length * length),
    ;
    assert(q * q <= 4 * n2) by (nonlinear_arith)
        requires
            (q * length) * (q * length) <= al * al,
            al * al <= n2 * l2,
            n2 * l2 <= n2 * (4 * (length * length)),
            length > 0,
    ;
}

} // verus!
