use rt::bounds::{intersects_bounds, Slab};
use rt::scalar::Scalar;

fn scalar(value: f32) -> Scalar {
    Scalar::from_bits(value.to_bits())
}

fn slab(min: f32, max: f32, origin: f32, direction: f32) -> Slab {
    Slab::new(scalar((min - origin) / direction), scalar((max - origin) / direction))
}

fn box_hit(mins: [f32; 3], maxs: [f32; 3], origin: [f32; 3], direction: [f32; 3]) -> bool {
    intersects_bounds(
        slab(mins[0], maxs[0], origin[0], direction[0]),
        slab(mins[1], maxs[1], origin[1], direction[1]),
        slab(mins[2], maxs[2], origin[2], direction[2]),
    )
}

#[test]
fn box_ahead_on_the_axis_is_hit() {
    assert!(box_hit([-1.0, -1.0, 1.0], [1.0, 1.0, 3.0], [0.0, 0.0, 0.0], [0.0, 0.0, 1.0]));
}

#[test]
fn box_beside_the_ray_is_missed() {
    assert!(!box_hit([-1.0, -1.0, 1.0], [1.0, 1.0, 3.0], [10.0, 10.0, -1.0], [0.0, 0.0, 1.0]));
}

#[test]
fn box_behind_the_origin_leaves_an_interval_of_negative_parameters() {
    // The three intervals are [-inf, inf], [-inf, inf] and [-3, -1]: they
    // share [-3, -1], and the test asks for no more than a shared interval.
    assert!(box_hit([-1.0, -1.0, 1.0], [1.0, 1.0, 3.0], [0.0, 0.0, 0.0], [0.0, 0.0, -1.0]));
    assert!(box_hit([-1.0, -1.0, 1.0], [1.0, 1.0, 3.0], [0.0, 0.0, 0.0], [-0.0, -0.0, -1.0]));
}

#[test]
fn ray_parallel_to_an_axis_outside_the_slab_is_missed() {
    // x is fixed at 5, outside [-1, 1]: both crossings are +inf.
    assert!(!box_hit([-1.0, -1.0, 1.0], [1.0, 1.0, 3.0], [5.0, 0.0, 0.0], [0.0, 0.0, 1.0]));
    // y is fixed at -5: both crossings are -inf after the division by -0.
    assert!(!box_hit([-1.0, -1.0, 1.0], [1.0, 1.0, 3.0], [0.0, -5.0, 0.0], [0.0, -0.0, 1.0]));
}

#[test]
fn diagonal_ray_through_the_box_is_hit() {
    assert!(box_hit([1.0, 1.0, 1.0], [2.0, 2.0, 2.0], [0.0, 0.0, 0.0], [1.0, 1.0, 1.0]));
    assert!(!box_hit([1.0, 1.0, 1.0], [2.0, 2.0, 2.0], [0.0, 0.0, 0.0], [1.0, 1.0, -1.0]));
    assert!(!box_hit([1.0, 1.0, 1.0], [2.0, 2.0, 2.0], [0.0, 0.0, 0.0], [1.0, 3.0, 1.0]));
}

#[test]
fn touching_intervals_count_as_a_hit() {
    // x gives [1, 2], y gives [2, 4], z gives [2, 2].
    let x = Slab::new(scalar(1.0), scalar(2.0));
    let y = Slab::new(scalar(4.0), scalar(2.0));
    let z = Slab::new(scalar(2.0), scalar(2.0));
    assert!(intersects_bounds(x, y, z));
    let late = Slab::new(scalar(2.5), scalar(3.0));
    assert!(!intersects_bounds(x, y, late));
}

#[test]
fn origin_on_a_plane_with_zero_direction_gives_a_nan_that_rejects_nothing() {
    // x: (−1 − (−1)) / 0 is a NaN, (1 − (−1)) / 0 is +inf.
    let x = slab(-1.0, 1.0, -1.0, 0.0);
    assert!(f32::from_bits(x.at_min.to_bits()).is_nan());
    let y = slab(-1.0, 1.0, 0.0, 0.0);
    let z = slab(1.0, 3.0, 0.0, 1.0);
    assert!(intersects_bounds(x, y, z));
}

#[test]
fn ordered_exchanges_the_crossings_of_a_ray_that_runs_down() {
    let (near, far) = Slab::new(scalar(-1.0), scalar(-3.0)).ordered();
    assert_eq!(near.to_bits(), (-3.0f32).to_bits());
    assert_eq!(far.to_bits(), (-1.0f32).to_bits());
    let (near, far) = Slab::new(scalar(1.0), scalar(3.0)).ordered();
    assert_eq!(near.to_bits(), 1.0f32.to_bits());
    assert_eq!(far.to_bits(), 3.0f32.to_bits());
}

#[test]
fn slab_test_gives_the_same_answer_twice() {
    let x = slab(-1.0, 1.0, 0.25, 0.5);
    let y = slab(-1.0, 1.0, 0.0, 0.125);
    let z = slab(1.0, 3.0, 0.0, 1.0);
    assert_eq!(intersects_bounds(x, y, z), intersects_bounds(x, y, z));
}
