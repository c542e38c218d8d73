use raycaster::fixed::{SCALE, WORLD_LIMIT};
use raycaster::light::{AmbientLight, DirectionalLight, Light, PointLight};
use raycaster::nearest::nearest_hit;
use raycaster::ray::Ray;
use raycaster::scene::{ray_through, Scene, HEIGHT, VIEWPORT_HEIGHT, VIEWPORT_WIDTH, WIDTH};
use raycaster::sphere::Sphere;
use raycaster::vector::pt;

const RED: [i32; 4] = [SCALE, 0, 0, SCALE];
const GREEN: [i32; 4] = [0, SCALE, 0, SCALE];
const BLUE: [i32; 4] = [0, 0, SCALE, 0];
const AMBER: [i32; 4] = [SCALE, SCALE / 2, SCALE / 5, 0];

fn along_z() -> Ray {
    Ray::new(pt(0, 0, 0), pt(0, 0, SCALE))
}

fn scene(objects: Vec<Sphere>, lights: Vec<Light>) -> Scene {
    Scene { objects, lights, viewport: pt(0, 0, SCALE), camera: pt(0, 0, 0) }
}

fn ball() -> Sphere {
    Sphere::new(pt(0, 0, 3 * SCALE), SCALE / 2, AMBER)
}

fn ambient(intensity: i32) -> Light {
    Light::Ambient(AmbientLight { intensity })
}

fn two_balls() -> Scene {
    scene(
        vec![
            Sphere::new(pt(0, 0, 3 * SCALE), SCALE / 2, [SCALE, SCALE / 2, SCALE / 5, SCALE]),
            Sphere::new(pt(400_000, 100_000, 2_500_000), 250_000, [100_000, 900_000, 500_000, SCALE]),
        ],
        vec![
            ambient(200_000),
            Light::Point(PointLight { intensity: 5 * SCALE, position: pt(2 * SCALE, 2 * SCALE, 0) }),
            Light::Directional(DirectionalLight {
                intensity: 300_000,
                direction: pt(0, SCALE, 0),
                position: pt(0, 0, 0),
            }),
        ],
    )
}

#[test]
fn the_picture_has_its_fixed_size() {
    assert_eq!(WIDTH, 1920);
    assert_eq!(HEIGHT, 1080);
    assert_eq!(VIEWPORT_WIDTH, 1_980_000);
    assert_eq!(VIEWPORT_HEIGHT, 1_080_000);
}

#[test]
fn rays_start_at_the_centre_and_pass_through_the_viewport() {
    assert_eq!(ray_through(0, 0), Ray::new(pt(0, 0, 0), pt(-990_000, 540_000, SCALE)));
    assert_eq!(ray_through(960, 540), Ray::new(pt(0, 0, 0), pt(0, 0, SCALE)));
    assert_eq!(ray_through(1919, 1079), Ray::new(pt(0, 0, 0), pt(988_968, -539_000, SCALE)));
    assert_eq!(ray_through(1, 1), Ray::new(pt(0, 0, 0), pt(-988_969, 539_000, SCALE)));
    assert_eq!(ray_through(3, 7), Ray::new(pt(0, 0, 0), pt(-986_907, 533_000, SCALE)));
}

#[test]
fn the_nearer_of_two_spheres_is_seen() {
    // The far sphere is met at 7 and 3 units, the near one at 6 and 2.
    let far = Sphere::new(pt(0, 0, 5 * SCALE), SCALE, RED);
    let near = Sphere::new(pt(0, 0, 4 * SCALE), SCALE, BLUE);
    let hit = nearest_hit(&vec![far, near], &along_z()).unwrap();
    assert_eq!(hit.point, pt(0, 0, 2 * SCALE));
    assert_eq!(hit.normal, pt(0, 0, -2 * SCALE));
    assert_eq!(hit.color, BLUE);
    let hit = nearest_hit(&vec![near, far], &along_z()).unwrap();
    assert_eq!(hit.point, pt(0, 0, 2 * SCALE));
    assert_eq!(hit.normal, pt(0, 0, -2 * SCALE));
    assert_eq!(hit.color, BLUE);
}

#[test]
fn of_equally_near_spheres_the_first_is_seen() {
    let red = Sphere::new(pt(0, 0, 5 * SCALE), SCALE, RED);
    let green = Sphere::new(pt(0, 0, 5 * SCALE), SCALE, GREEN);
    let hit = nearest_hit(&vec![red, green], &along_z()).unwrap();
    assert_eq!(hit.point, pt(0, 0, 3 * SCALE));
    assert_eq!(hit.color, RED);
    let hit = nearest_hit(&vec![green, red], &along_z()).unwrap();
    assert_eq!(hit.point, pt(0, 0, 3 * SCALE));
    assert_eq!(hit.color, GREEN);
}

#[test]
fn distance_is_measured_from_the_origin_of_the_ray() {
    // From height 10 looking back: the sphere at 6 is met at heights 4 and
    // 8, the sphere at 2 at heights 0 and 4. Height 8 is nearest to the
    // ray's origin, height 0 to the centre of the world.
    let back = Ray::new(pt(0, 0, 10 * SCALE), pt(0, 0, -SCALE));
    let high = Sphere::new(pt(0, 0, 6 * SCALE), SCALE, RED);
    let low = Sphere::new(pt(0, 0, 2 * SCALE), SCALE, GREEN);
    let hit = nearest_hit(&vec![low, high], &back).unwrap();
    assert_eq!(hit.point, pt(0, 0, 8 * SCALE));
    assert_eq!(hit.normal, pt(0, 0, 2 * SCALE));
    assert_eq!(hit.color, RED);
}

#[test]
fn a_hit_is_seen_however_far_it_is() {
    let diagonal = Ray::new(pt(0, 0, 0), pt(SCALE, SCALE, SCALE));
    let far = pt(999 * SCALE, 999 * SCALE, 999 * SCALE);
    let hit = nearest_hit(&vec![Sphere::new(far, 0, GREEN)], &diagonal).unwrap();
    assert_eq!(hit.point, far);
    assert_eq!(hit.normal, pt(0, 0, 0));
    assert_eq!(hit.color, GREEN);
    let edge = pt(0, 0, WORLD_LIMIT);
    let hit = nearest_hit(&vec![Sphere::new(edge, 0, RED)], &along_z()).unwrap();
    assert_eq!(hit.point, edge);
    assert_eq!(hit.color, RED);
}

#[test]
fn a_ray_that_meets_nothing_sees_nothing() {
    assert!(nearest_hit(&vec![], &along_z()).is_none());
    let aside = Sphere::new(pt(2 * SCALE, 0, 5 * SCALE), SCALE, RED);
    let behind = Sphere::new(pt(0, 0, -5 * SCALE), SCALE, GREEN);
    assert!(nearest_hit(&vec![aside, behind], &along_z()).is_none());
}

#[test]
fn all_lights_are_summed() {
    let s = two_balls();
    let normal = pt(105_161, -101_975, -450_640);
    let pos = pt(105_161, -101_975, 2_549_360);
    assert_eq!(s.light_at(normal, pos), 200_000 + 1_488_285 + 30_592);
    assert_eq!(scene(vec![], vec![]).light_at(normal, pos), 0);
    let cancel = scene(vec![], vec![ambient(i32::MAX), ambient(i32::MIN), ambient(1)]);
    assert_eq!(cancel.light_at(normal, pos), 0);
}

#[test]
fn a_pixel_that_shows_nothing_is_opaque_black() {
    let empty = scene(vec![], vec![ambient(5 * SCALE)]);
    assert_eq!(empty.pixel(960, 540), [0, 0, 0, 255]);
    assert_eq!(empty.pixel(0, 0), [0, 0, 0, 255]);
    let lit = scene(vec![ball()], vec![ambient(5 * SCALE)]);
    assert_eq!(lit.pixel(0, 0), [0, 0, 0, 255]);
    assert_eq!(lit.pixel(1919, 1079), [0, 0, 0, 255]);
    assert_eq!(two_balls().pixel(1300, 440), [0, 0, 0, 255]);
}

#[test]
fn under_ambient_light_alone_a_sphere_has_one_shade() {
    // 1.0, 0.5 and 0.2 times 0.2 times 255: 51, 25.5 and 10.2.
    let s = scene(vec![ball()], vec![ambient(200_000)]);
    assert_eq!(s.pixel(960, 540), [51, 25, 10, 255]);
    assert_eq!(s.pixel(900, 540), [51, 25, 10, 255]);
    assert_eq!(s.pixel(1000, 580), [51, 25, 10, 255]);
    assert_eq!(s.pixel(1100, 540), [51, 25, 10, 255]);
}

#[test]
fn a_point_light_at_the_eye_shades_the_sphere() {
    let eye = Light::Point(PointLight { intensity: SCALE, position: pt(0, 0, 0) });
    let s = scene(vec![ball()], vec![ambient(200_000), eye]);
    assert_eq!(s.pixel(960, 540), [178, 89, 35, 255]);
    assert_eq!(s.pixel(900, 540), [161, 80, 32, 255]);
    assert_eq!(s.pixel(1000, 580), [163, 81, 32, 255]);
    assert_eq!(s.pixel(1100, 540), [85, 42, 17, 255]);
}

#[test]
fn a_point_light_behind_the_sphere_adds_nothing() {
    let behind = Light::Point(PointLight { intensity: 5 * SCALE, position: pt(0, 0, 4 * SCALE) });
    let s = scene(vec![ball()], vec![ambient(200_000), behind]);
    assert_eq!(s.pixel(960, 540), [51, 25, 10, 255]);
    assert_eq!(s.pixel(1100, 540), [51, 25, 10, 255]);
}

#[test]
fn a_directional_light_shades_the_sphere() {
    let sun = Light::Directional(DirectionalLight {
        intensity: 2 * SCALE,
        direction: pt(0, 0, SCALE),
        position: pt(7, 7, 7),
    });
    let s = scene(vec![ball()], vec![ambient(200_000), sun]);
    assert_eq!(s.pixel(960, 540), [255, 153, 61, 255]);
    assert_eq!(s.pixel(900, 540), [255, 138, 55, 255]);
    assert_eq!(s.pixel(1100, 540), [149, 74, 29, 255]);
}

#[test]
fn without_light_a_sphere_is_black() {
    let dark = scene(vec![ball()], vec![]);
    assert_eq!(dark.pixel(960, 540), [0, 0, 0, 255]);
    let negative = scene(vec![ball()], vec![ambient(-SCALE)]);
    assert_eq!(negative.pixel(960, 540), [0, 0, 0, 255]);
}

#[test]
fn too_much_light_is_white_where_the_colour_allows() {
    let bright = scene(vec![ball()], vec![ambient(5 * SCALE)]);
    assert_eq!(bright.pixel(960, 540), [255, 255, 255, 255]);
    let brighter = scene(vec![ball()], vec![ambient(i32::MAX); 1000]);
    assert_eq!(brighter.pixel(960, 540), [255, 255, 255, 255]);
}

#[test]
fn camera_and_viewport_do_not_move_the_view() {
    let mut s = scene(vec![ball()], vec![ambient(200_000)]);
    s.camera = pt(5 * SCALE, 0, 0);
    s.viewport = pt(0, 0, -SCALE);
    assert_eq!(s.pixel(960, 540), [51, 25, 10, 255]);
    assert_eq!(s.pixel(0, 0), [0, 0, 0, 255]);
}

#[test]
fn two_spheres_under_three_lights() {
    let s = two_balls();
    assert_eq!(s.pixel(960, 540), [255, 236, 94, 255]);
    assert_eq!(s.pixel(900, 540), [255, 154, 61, 255]);
    assert_eq!(s.pixel(1000, 580), [255, 219, 87, 255]);
    assert_eq!(s.pixel(1100, 540), [5, 52, 29, 255]);
    assert_eq!(s.pixel(1120, 500), [15, 138, 77, 255]);
    assert_eq!(s.pixel(1130, 510), [15, 138, 76, 255]);
    assert_eq!(s.pixel(1125, 505), [15, 138, 77, 255]);
}

#[test]
fn a_scene_is_well_formed_when_its_spheres_are() {
    assert!(scene(vec![], vec![]).check_wf());
    assert!(two_balls().check_wf());
    let far_ball = Sphere::new(pt(0, 0, WORLD_LIMIT + 1), SCALE, RED);
    assert!(!scene(vec![ball(), far_ball], vec![]).check_wf());
    let big_ball = Sphere::new(pt(0, 0, 0), i32::MIN, RED);
    assert!(!scene(vec![big_ball, ball()], vec![ambient(1)]).check_wf());
    let far_light = Light::Point(PointLight { intensity: 1, position: pt(0, i32::MIN, 0) });
    assert!(scene(vec![ball()], vec![ambient(1), far_light]).check_wf());
    let mut moved = two_balls();
    moved.camera = pt(i32::MAX, i32::MIN, 0);
    moved.viewport = pt(i32::MIN, i32::MAX, 0);
    assert!(moved.check_wf());
}

#[test]
fn render_fills_every_pixel() {
    let s = two_balls();
    let canvas = s.render();
    assert_eq!(canvas.dimensions(), (1920, 1080));
    let bytes = canvas.into_bytes();
    assert_eq!(bytes.len(), 4 * 1920 * 1080);
    let at = |x: usize, y: usize| {
        let first = 4 * (y * 1920 + x);
        [bytes[first], bytes[first + 1], bytes[first + 2], bytes[first + 3]]
    };
    assert_eq!(at(960, 540), [255, 236, 94, 255]);
    assert_eq!(at(900, 540), [255, 154, 61, 255]);
    assert_eq!(at(1100, 540), [5, 52, 29, 255]);
    assert_eq!(at(1130, 510), [15, 138, 76, 255]);
    assert_eq!(at(0, 0), [0, 0, 0, 255]);
    assert_eq!(at(1919, 0), [0, 0, 0, 255]);
    assert_eq!(at(0, 1079), [0, 0, 0, 255]);
    assert_eq!(at(1919, 1079), [0, 0, 0, 255]);
    let mut lit: u64 = 0;
    let mut sum: u64 = 0;
    for i in 0..1920 * 1080 {
        let px = at(i % 1920, i / 1920);
        assert_eq!(px[3], 255);
        if px != [0, 0, 0, 255] {
            lit += 1;
        }
        let weight = (i % 1009 + 1) as u64;
        sum += (px[0] as u64 * 3 + px[1] as u64 * 5 + px[2] as u64 * 7) * weight;
    }
    assert_eq!(lit, 104_126);
    assert_eq!(sum, 78_476_110_771);
}

#[test]
fn render_agrees_with_pixel() {
    let s = scene(vec![ball()], vec![ambient(200_000)]);
    let bytes = s.render().into_bytes();
    for &(x, y) in &[(0u32, 0u32), (960, 540), (900, 540), (1100, 540), (1919, 1079), (7, 1000)] {
        let first = 4 * (y as usize * 1920 + x as usize);
        assert_eq!(bytes[first..first + 4], s.pixel(x, y));
    }
}

#[test]
fn rendering_twice_gives_the_same_bytes() {
    let s = two_balls();
    let first = s.render().into_bytes();
    let second = s.render().into_bytes();
    assert!(first == second);
    let again = two_balls().render().into_bytes();
    assert!(first == again);
}

#[test]
fn rendering_an_empty_scene_gives_opaque_black() {
    let bytes = scene(vec![], vec![ambient(SCALE)]).render().into_bytes();
    assert_eq!(bytes.len(), 8_294_400);
    for px in bytes.chunks(4) {
        assert_eq!(px, [0, 0, 0, 255]);
    }
}
