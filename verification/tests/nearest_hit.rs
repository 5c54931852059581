use rt::intersection::{any_intersection, choose_closer, nearest_intersection, Intersection};
use rt::scalar::Scalar;

fn hit(shape: usize, distance: f32) -> Option<Intersection> {
    Some(Intersection::new(shape, Scalar::from_bits(distance.to_bits())))
}

fn chosen(hits: &Vec<Option<Intersection>>) -> Option<(usize, f32)> {
    nearest_intersection(hits).map(|h| (h.shape, f32::from_bits(h.distance.to_bits())))
}

#[test]
fn no_candidates_no_hit() {
    let hits: Vec<Option<Intersection>> = Vec::new();
    assert_eq!(chosen(&hits), None);
    assert!(!any_intersection(&hits));
}

#[test]
fn only_misses_no_hit() {
    let hits: Vec<Option<Intersection>> = vec![None, None, None];
    assert_eq!(chosen(&hits), None);
    assert!(!any_intersection(&hits));
}

#[test]
fn nearest_is_the_least_distance() {
    let hits = vec![hit(0, 5.0), None, hit(2, 2.0), hit(3, 9.0), None];
    assert_eq!(chosen(&hits), Some((2, 2.0)));
    assert!(any_intersection(&hits));
}

#[test]
fn negative_distance_is_nearer_than_positive() {
    let hits = vec![hit(0, 1.0), hit(1, -0.5), hit(2, 0.0)];
    assert_eq!(chosen(&hits), Some((1, -0.5)));
}

#[test]
fn exact_tie_goes_to_the_first_found() {
    let hits = vec![hit(0, 7.0), hit(1, 2.0), hit(2, 2.0), hit(3, 2.0)];
    assert_eq!(chosen(&hits), Some((1, 2.0)));
    let zeros = vec![hit(4, 0.0), hit(5, -0.0)];
    assert_eq!(nearest_intersection(&zeros).map(|h| h.shape), Some(4));
}

#[test]
fn nan_distance_never_takes_the_place_of_a_number() {
    let hits = vec![hit(0, 4.0), hit(1, f32::NAN), hit(2, 3.0)];
    assert_eq!(chosen(&hits), Some((2, 3.0)));
}

#[test]
fn nan_distance_found_first_stays() {
    let hits = vec![hit(0, f32::NAN), hit(1, 3.0)];
    let best = nearest_intersection(&hits).unwrap();
    assert_eq!(best.shape, 0);
    assert!(f32::from_bits(best.distance.to_bits()).is_nan());
}

#[test]
fn any_agrees_with_nearest() {
    let rows: Vec<Vec<Option<Intersection>>> = vec![
        vec![],
        vec![None],
        vec![None, hit(1, 1.0)],
        vec![hit(0, f32::INFINITY)],
        vec![hit(0, f32::NAN), None],
        vec![None, None, None, hit(3, -1.0)],
    ];
    for hits in rows.iter() {
        assert_eq!(any_intersection(hits), nearest_intersection(hits).is_some());
    }
}

#[test]
fn choose_closer_keeps_the_best_unless_the_candidate_is_strictly_nearer() {
    let best = hit(0, 2.0);
    assert_eq!(choose_closer(best, hit(1, 1.0)).map(|h| h.shape), Some(1));
    assert_eq!(choose_closer(best, hit(1, 2.0)).map(|h| h.shape), Some(0));
    assert_eq!(choose_closer(best, hit(1, 3.0)).map(|h| h.shape), Some(0));
    assert_eq!(choose_closer(best, None).map(|h| h.shape), Some(0));
    assert_eq!(choose_closer(None, hit(1, 3.0)).map(|h| h.shape), Some(1));
    assert!(choose_closer(None, None).is_none());
}

#[test]
fn is_nearer_than_is_strict() {
    let a = Intersection::new(0, Scalar::from_bits(1.0f32.to_bits()));
    let b = Intersection::new(1, Scalar::from_bits(2.0f32.to_bits()));
    assert!(a.is_nearer_than(&b));
    assert!(!b.is_nearer_than(&a));
    assert!(!a.is_nearer_than(&a));
}

#[test]
fn nearest_of_the_groups_is_the_nearest_of_all() {
    let first = vec![hit(0, 5.0), None, hit(2, 2.0)];
    let second = vec![hit(3, 2.0), hit(4, 1.0), None];
    let third = vec![None, hit(7, 2.0)];
    for (a, b) in [(&first, &second), (&second, &first), (&first, &third), (&third, &first)] {
        let mut all = a.clone();
        all.extend(b.iter().cloned());
        let flat = nearest_intersection(&all).map(|h| (h.shape, h.distance.to_bits()));
        let grouped = choose_closer(nearest_intersection(a), nearest_intersection(b))
            .map(|h| (h.shape, h.distance.to_bits()));
        assert_eq!(flat, grouped);
    }
}
