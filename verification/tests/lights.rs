use raycaster::fixed::{SCALE, WORLD_LIMIT};
use raycaster::light::{AmbientLight, DirectionalLight, Light, PointLight};
use raycaster::vector::pt;

#[test]
fn ambient_light_is_the_same_everywhere() {
    let light = AmbientLight { intensity: 200_000 };
    assert_eq!(light.intensity(pt(0, 0, SCALE), pt(0, 0, 0)), 200_000);
    assert_eq!(light.intensity(pt(0, 0, -SCALE), pt(5, 6, 7)), 200_000);
    assert_eq!(light.intensity(pt(0, 0, 0), pt(WORLD_LIMIT, 0, 0)), 200_000);
    assert_eq!(AmbientLight { intensity: -7 }.intensity(pt(1, 1, 1), pt(2, 2, 2)), -7);
    assert_eq!(
        AmbientLight { intensity: i32::MIN }.intensity(pt(1, 1, 1), pt(2, 2, 2)),
        -2_147_483_648
    );
}

#[test]
fn point_light_is_intensity_times_alignment_over_length() {
    // Normal (0, 0, -0.5), vector to the light (0, 0, -2.5): alignment 1.25,
    // length 2.5, so one half of the intensity arrives.
    let light = PointLight { intensity: SCALE, position: pt(0, 0, 0) };
    assert_eq!(light.intensity(pt(0, 0, -SCALE / 2), pt(0, 0, 2_500_000)), 500_000);
}

#[test]
fn point_light_rounds_down_step_by_step() {
    let light = PointLight { intensity: 5 * SCALE, position: pt(0, 0, 4 * SCALE) };
    let sent = light.intensity(pt(123_456, -654_321, 250_000), pt(700_000, -300_000, 2_100_000));
    assert_eq!(sent, 469_685);
}

#[test]
fn point_light_behind_the_surface_sends_nothing() {
    let light = PointLight { intensity: 5 * SCALE, position: pt(0, 0, 0) };
    assert_eq!(light.intensity(pt(0, 0, SCALE), pt(0, 0, 2 * SCALE)), 0);
    assert_eq!(light.intensity(pt(0, 0, 1), pt(0, 0, 1)), 0);
}

#[test]
fn point_light_across_the_surface_sends_nothing() {
    let light = PointLight { intensity: 5 * SCALE, position: pt(SCALE, 0, 0) };
    assert_eq!(light.intensity(pt(0, 0, SCALE), pt(0, 0, 0)), 0);
}

#[test]
fn point_light_at_the_surface_point_sends_nothing() {
    let light = PointLight { intensity: 5 * SCALE, position: pt(1, 2, 3) };
    assert_eq!(light.intensity(pt(0, 0, SCALE), pt(1, 2, 3)), 0);
}

#[test]
fn what_arrives_depends_on_the_angle_not_on_the_distance() {
    let normal = pt(0, 0, SCALE);
    let near = PointLight { intensity: SCALE, position: pt(0, 0, 2 * SCALE) };
    let far = PointLight { intensity: SCALE, position: pt(0, 0, 4 * SCALE) };
    let aside = PointLight { intensity: SCALE, position: pt(0, 3 * SCALE, 4 * SCALE) };
    assert_eq!(near.intensity(normal, pt(0, 0, 0)), 1_000_000);
    assert_eq!(far.intensity(normal, pt(0, 0, 0)), 1_000_000);
    assert_eq!(aside.intensity(normal, pt(0, 0, 0)), 800_000);
}

#[test]
fn a_length_below_one_step_more_is_rounded_down() {
    let light = PointLight { intensity: SCALE, position: pt(1, 1, 0) };
    assert_eq!(light.intensity(pt(5, 0, 0), pt(0, 0, 0)), 5);
    let other = PointLight { intensity: SCALE, position: pt(1, 1, 1) };
    assert_eq!(other.intensity(pt(5 * SCALE, 0, 0), pt(0, 0, 0)), 5_000_000);
}

#[test]
fn negative_intensity_is_rounded_towards_minus_infinity() {
    let light = PointLight { intensity: -3, position: pt(0, 0, SCALE) };
    assert_eq!(light.intensity(pt(0, 0, SCALE / 2), pt(0, 0, 0)), -2);
    let other = PointLight { intensity: -1_234_567, position: pt(0, 1, SCALE) };
    assert_eq!(other.intensity(pt(0, 333_333, SCALE / 2), pt(0, 0, 0)), -617_284);
}

#[test]
fn the_largest_vectors_are_computed_without_overflow() {
    let normal = pt(i32::MIN, i32::MIN, i32::MIN);
    let pos = pt(WORLD_LIMIT, WORLD_LIMIT, WORLD_LIMIT);
    let corner = pt(-WORLD_LIMIT, -WORLD_LIMIT, -WORLD_LIMIT);
    let bright = PointLight { intensity: i32::MAX, position: corner };
    assert_eq!(bright.intensity(normal, pos), 7_987_674_487_120);
    let dark = PointLight { intensity: i32::MIN, position: corner };
    assert_eq!(dark.intensity(normal, pos), -7_987_674_490_841);
}

#[test]
fn a_light_may_stand_anywhere() {
    let low = pt(i32::MIN, i32::MIN, i32::MIN);
    let high = pt(i32::MAX, i32::MAX, i32::MAX);
    let bright = PointLight { intensity: i32::MAX, position: low };
    assert_eq!(bright.intensity(low, high), 7_987_674_489_268);
    let dark = PointLight { intensity: i32::MIN, position: low };
    assert_eq!(dark.intensity(low, high), -7_987_674_492_989);
    let other = PointLight { intensity: i32::MAX, position: high };
    assert_eq!(other.intensity(high, low), 7_987_674_484_973);
    let above = PointLight { intensity: SCALE, position: pt(0, 0, i32::MAX) };
    assert_eq!(above.intensity(pt(0, 0, SCALE), pt(0, 0, i32::MIN)), 1_000_000);
}

#[test]
fn a_directional_light_may_have_any_direction() {
    let down = DirectionalLight {
        intensity: SCALE,
        direction: pt(0, 0, i32::MIN),
        position: pt(i32::MIN, i32::MAX, 0),
    };
    assert_eq!(down.intensity(pt(0, 0, SCALE), pt(0, 0, 0)), 1_000_000);
    let askew = DirectionalLight {
        intensity: 7 * SCALE,
        direction: pt(i32::MIN, i32::MIN, i32::MIN),
        position: pt(0, 0, 0),
    };
    assert_eq!(askew.intensity(pt(3, 4, i32::MIN), pt(0, 0, 0)), 0);
}

#[test]
fn directional_light_comes_against_its_direction() {
    let light = DirectionalLight {
        intensity: 2 * SCALE,
        direction: pt(0, -SCALE, 0),
        position: pt(0, 0, 4 * SCALE),
    };
    assert_eq!(light.intensity(pt(0, SCALE / 2, 0), pt(0, 0, 0)), 1_000_000);
    assert_eq!(light.intensity(pt(0, -SCALE / 2, 0), pt(0, 0, 0)), 0);
}

#[test]
fn directional_light_ignores_both_positions() {
    let normal = pt(100_000, SCALE / 2, -30_000);
    let here = DirectionalLight {
        intensity: 2 * SCALE,
        direction: pt(300_000, -SCALE, -200_000),
        position: pt(0, 0, 0),
    };
    let there = DirectionalLight {
        intensity: 2 * SCALE,
        direction: pt(300_000, -SCALE, -200_000),
        position: pt(i32::MAX, i32::MIN, 5),
    };
    assert_eq!(here.intensity(normal, pt(0, 0, 0)), 872_988);
    assert_eq!(here.intensity(normal, pt(9, 8, 7)), 872_988);
    assert_eq!(there.intensity(normal, pt(-5, 0, WORLD_LIMIT)), 872_988);
}

#[test]
fn directional_light_without_direction_sends_nothing() {
    let light =
        DirectionalLight { intensity: 2 * SCALE, direction: pt(0, 0, 0), position: pt(0, 0, 0) };
    assert_eq!(light.intensity(pt(0, SCALE, 0), pt(0, 0, 0)), 0);
}

#[test]
fn a_light_of_any_kind_sends_what_its_kind_sends() {
    let normal = pt(0, 0, -SCALE / 2);
    let pos = pt(0, 0, 2_500_000);
    let ambient = Light::Ambient(AmbientLight { intensity: 200_000 });
    let point = Light::Point(PointLight { intensity: SCALE, position: pt(0, 0, 0) });
    let directional = Light::Directional(DirectionalLight {
        intensity: 2 * SCALE,
        direction: pt(0, 0, SCALE),
        position: pt(7, 7, 7),
    });
    assert_eq!(ambient.intensity(normal, pos), 200_000);
    assert_eq!(point.intensity(normal, pos), 500_000);
    assert_eq!(directional.intensity(normal, pos), 1_000_000);
}
