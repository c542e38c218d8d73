//! Scenes, and the picture that one gives.
//!
//! Whatever a scene is made of can be named from here: points, rays,
//! spheres and lights.

use crate::canvas::{
    canvas_data, canvas_height, canvas_width, new_buffer, pixel_offset, set_pixel, Canvas,
};
use crate::fixed::{floor_div, SCALE};
pub use crate::light::{AmbientLight, DirectionalLight, Light, PointLight};
use crate::nearest::{candidates, lemma_no_hit_no_candidates, nearest, nearest_hit, Hit};
pub use crate::ray::Ray;
use crate::shade::{background, shade, shaded};
pub use crate::sphere::Sphere;
pub use crate::vector::{pt, Point};
use vstd::prelude::*;
use vstd::seq_lib::{commutative_foldl, lemma_fold_left_permutation};

verus! {

/// The width of a picture, in pixels.
pub const WIDTH: u32 = 1920;

/// The height of a picture, in pixels.
pub const HEIGHT: u32 = 1080;

/// The width of the viewport in the world: 1.98 units.
pub const VIEWPORT_WIDTH: i32 = 1_980_000;

/// The height of the viewport in the world: 1.08 units.
pub const VIEWPORT_HEIGHT: i32 = 1_080_000;

/// Spheres and lights. The viewer stands at the centre of the world and
/// looks along the z axis through a viewport one unit away; `viewport` and
/// `camera` record these two places and do not move them.
pub struct Scene {
    pub objects: Vec<Sphere>,
    pub lights: Vec<Light>,
    pub viewport: Point,
    pub camera: Point,
}

/// The centre of the world, where every ray of a picture starts.
pub open spec fn eye() -> Point {
    Point { x: 0, y: 0, z: 0 }
}

/// The place on the viewport that pixel `(x, y)` shows. Pixel `(0, 0)` shows
/// the viewport's upper left corner; x grows to the right and y downwards.
pub open spec fn viewport_point(x: int, y: int) -> Point {
    Point {
        x: (-(VIEWPORT_WIDTH / 2) + (VIEWPORT_WIDTH * x) / (WIDTH as int)) as i32,
        y: (VIEWPORT_HEIGHT / 2 - (VIEWPORT_HEIGHT * y) / (HEIGHT as int)) as i32,
        z: SCALE,
    }
}

/// The ray through pixel `(x, y)`: from the eye, along the vector from the
/// eye to the pixel's place on the viewport.
pub open spec fn primary_ray(x: int, y: int) -> Ray {
    Ray { origin: eye(), direction: viewport_point(x, y) }
}

/// The sum of what all the lights send to the surface point `pos` with the
/// given normal.
pub open spec fn total_light(lights: Seq<Light>, normal: Point, pos: Point) -> int
    decreases lights.len(),
{
    if lights.len() == 0 {
        0
    } else {
        total_light(lights.drop_last(), normal, pos) + lights.last().intensity_at(normal, pos)
    }
}

/// The ray through pixel `(x, y)`.
pub fn ray_through(x: u32, y: u32) -> (ray: Ray)
    requires
        x < WIDTH,
        y < HEIGHT,
    ensures
        ray == primary_ray(x as int, y as int),
        ray.wf(),
{
    let right: i128 = floor_div(1_980_000 * (x as i128), 1920);
    let down: i128 = floor_div(1_080_000 * (y as i128), 1080);
    assert(VIEWPORT_WIDTH * x == 1_980_000 * x && VIEWPORT_HEIGHT * y == 1_080_000 * y)
        by (nonlinear_arith)
        requires
            VIEWPORT_WIDTH == 1_980_000,
            VIEWPORT_HEIGHT == 1_080_000,
    ;
    Ray::new(pt(0, 0, 0), pt((-990_000 + right) as i32, (540_000 - down) as i32, 1_000_000))
}

impl Scene {
    /// Every sphere is well formed. Lights are in order wherever they are.
    pub open spec fn wf(self) -> bool {
        forall|i: int| 0 <= i < self.objects.len() ==> (#[trigger] self.objects[i]).wf()
    }

    /// The hit that pixel `(x, y)` shows, if it shows one.
    pub open spec fn seen(self, x: int, y: int) -> Option<Hit> {
        nearest(candidates(self.objects@, primary_ray(x, y)), eye())
    }

    /// The four bytes of pixel `(x, y)`: the colour of the sphere that is
    /// seen there under all the light that reaches the place, or the
    /// background where nothing is seen.
    pub open spec fn pixel_color(self, x: int, y: int) -> Seq<u8> {
        match self.seen(x, y) {
            Some(hit) => shaded(hit.color, total_light(self.lights@, hit.normal, hit.point)),
            None => background(),
        }
    }

    /// The bytes of the picture: row after row from the top, each row from
    /// the left, four bytes to a pixel.
    pub open spec fn picture(self) -> Seq<u8> {
        Seq::new(
            (4 * WIDTH * HEIGHT) as nat,
            |i: int| self.pixel_color((i / 4) % (WIDTH as int), (i / 4) / (WIDTH as int))[i % 4],
        )
    }

    /// Tells whether the scene is well formed.
    pub fn check_wf(&self) -> (b: bool)
        ensures
            b == self.wf(),
    {
        let mut i: usize = 0;
        while i < self.objects.len()
            invariant
                i <= self.objects.len(),
                forall|k: int| 0 <= k < i ==> (#[trigger] self.objects[k]).wf(),
            decreases self.objects.len() - i,
        {
            if !self.objects[i].check_wf() {
                return false;
            }
            i += 1;
        }
        true
    }

    /// The sum of what all the lights send to the surface point `pos` with
    /// the given normal.
    pub fn light_at(&self, normal: Point, pos: Point) -> (sum: i128)
        ensures
            sum == total_light(self.lights@, normal, pos),
    {
        let mut sum: i128 = 0;
        let mut i: usize = 0;
        while i < self.lights.len()
            invariant
                i <= self.lights.len(),
                sum == total_light(self.lights@.take(i as int), normal, pos),
                -0x8000_0000_0000_0000 * i <= sum <= 0x8000_0000_0000_0000 * i,
            decreases self.lights.len() - i,
        {
            let sent: i64 = self.lights[i].intensity(normal, pos);
            proof {
                assert(self.lights@.take(i as int + 1).drop_last() =~= self.lights@.take(i as int));
                assert(self.lights@.take(i as int + 1).last() == self.lights@[i as int]);
            }
            sum = sum + sent as i128;
            i += 1;
        }
        proof {
            assert(self.lights@.take(self.lights.len() as int) =~= self.lights@);
        }
        sum
    }

    /// The four bytes of pixel `(x, y)`.
    pub fn pixel(&self, x: u32, y: u32) -> (px: [u8; 4])
        requires
            self.wf(),
            x < WIDTH,
            y < HEIGHT,
        ensures
            px@ == self.pixel_color(x as int, y as int),
    {
        let ray: Ray = ray_through(x, y);
        match nearest_hit(&self.objects, &ray) {
            Some(hit) => {
                let light: i128 = self.light_at(hit.normal, hit.point);
                shade(&hit.color, light)
            },
            None => {
                let px: [u8; 4] = [0, 0, 0, 255];
                assert(px@ =~= background());
                px
            },
        }
    }

    /// The picture of the scene, 1920 pixels wide and 1080 high.
    pub fn render(&self) -> (canvas: Canvas)
        requires
            self.wf(),
        ensures
            canvas_width(canvas) == WIDTH,
            canvas_height(canvas) == HEIGHT,
            canvas_data(canvas) == self.picture(),
    {
        let mut canvas: Canvas = new_buffer(1920, 1080);
        let mut y: u32 = 0;
        while y < 1080
            invariant
                y <= 1080,
                self.wf(),
                canvas_width(canvas) == 1920,
                canvas_height(canvas) == 1080,
                canvas_data(canvas).len() == 4 * 1920 * 1080,
                forall|i: int|
                    0 <= i < pixel_offset(1920, 0, y as int) ==> canvas_data(canvas)[i]
                        == self.picture()[i],
            decreases 1080 - y,
        {
            let mut x: u32 = 0;
            while x < 1920
                invariant
                    x <= 1920,
                    y < 1080,
                    self.wf(),
                    canvas_width(canvas) == 1920,
                    canvas_height(canvas) == 1080,
                    canvas_data(canvas).len() == 4 * 1920 * 1080,
                    forall|i: int|
                        0 <= i < pixel_offset(1920, x as int, y as int) ==> canvas_data(canvas)[i]
                            == self.picture()[i],
                decreases 1920 - x,
            {
                let px: [u8; 4] = self.pixel(x, y);
                let ghost before = canvas_data(canvas);
                set_pixel(&mut canvas, x, y, px);
                assert forall|i: int|
                    0 <= i < pixel_offset(1920, x as int + 1, y as int) implies canvas_data(
                    canvas,
                )[i] == self.picture()[i] by {
                    let first = pixel_offset(1920, x as int, y as int);
                    if i >= first {
                        assert((i / 4) == y * 1920 + x);
                        assert((i / 4) % 1920 == x && (i / 4) / 1920 == y) by (nonlinear_arith)
                            requires
                                (i / 4) == y * 1920 + x,
                                0 <= x < 1920,
                                0 <= y,
                        ;
                        assert(i % 4 == i - first);
                    } else {
                        assert(canvas_data(canvas)[i] == before[i]);
                    }
                }
                x += 1;
            }
            y += 1;
        }
        assert(canvas_data(canvas) =~= self.picture());
        canvas
    }
}

/// A pixel whose ray meets none of the spheres is opaque black, whatever
/// the lights are.
pub proof fn lemma_no_hit_is_black(scene: Scene, x: int, y: int)
    requires
        forall|i: int|
            0 <= i < scene.objects.len() ==> (#[trigger] scene.objects[i]).hit_points(
                primary_ray(x, y),
            ).len() == 0,
    ensures
        scene.pixel_color(x, y) == seq![0u8, 0u8, 0u8, 255u8],
{
    lemma_no_hit_no_candidates(scene.objects@, primary_ray(x, y));
}

/// Under one ambient light and no other, every pixel that shows a sphere
/// has that sphere's colour times the light's intensity.
pub proof fn lemma_ambient_only(scene: Scene, ambient: AmbientLight, x: int, y: int)
    requires
        scene.lights@ == seq![Light::Ambient(ambient)],
    ensures
        scene.pixel_color(x, y) == match scene.seen(x, y) {
            Some(hit) => shaded(hit.color, ambient.intensity as int),
            None => background(),
        },
{
    match scene.seen(x, y) {
        Some(hit) => {
            let lights = scene.lights@;
            assert(lights.drop_last() =~= Seq::<Light>::empty());
            assert(lights.last() == Light::Ambient(ambient));
            assert(total_light(lights.drop_last(), hit.normal, hit.point) == 0);
            assert(total_light(lights, hit.normal, hit.point) == ambient.intensity);
        },
        None => {},
    }
}

/// The order of the lights is irrelevant to their sum.
pub proof fn lemma_light_order_is_irrelevant(
    lights: Seq<Light>,
    shuffled: Seq<Light>,
    normal: Point,
    pos: Point,
)
    requires
        lights.to_multiset() == shuffled.to_multiset(),
    ensures
        total_light(lights, normal, pos) == total_light(shuffled, normal, pos),
{
    let f = |sum: int, light: Light| sum + light.intensity_at(normal, pos);
    lemma_total_light_is_a_fold(lights, normal, pos);
    lemma_total_light_is_a_fold(shuffled, normal, pos);
    assert(commutative_foldl(f));
    lemma_fold_left_permutation(lights, shuffled, f, 0);
}

/// The sum of the lights adds them one by one, from zero on.
proof fn lemma_total_light_is_a_fold(lights: Seq<Light>, normal: Point, pos: Point)
    ensures
        total_light(lights, normal, pos) == lights.fold_left(
            0,
            |sum: int, light: Light| sum + light.intensity_at(normal, pos),
        ),
    decreases lights.len(),
{
    if lights.len() > 0 {
        lemma_total_light_is_a_fold(lights.drop_last(), normal, pos);
    }
}

/// The picture depends on the spheres, in their order, and on the lights,
/// in any order, and on nothing else: scenes that agree in both have the
/// same picture, byte for byte.
pub proof fn lemma_same_scene_same_picture(a: Scene, b: Scene)
    requires
        a.objects@ == b.objects@,
        a.lights@.to_multiset() == b.lights@.to_multiset(),
    ensures
        a.picture() == b.picture(),
{
    assert forall|x: int, y: int| a.pixel_color(x, y) == b.pixel_color(x, y) by {
        match a.seen(x, y) {
            Some(hit) => {
                lemma_light_order_is_irrelevant(a.lights@, b.lights@, hit.normal, hit.point);
            },
            None => {},
        }
    }
    assert(a.picture() =~= b.picture());
}

} // verus!
