use rt::scalar::Scalar;
use rt::tracer::{light_terms, Action, Event, LightTerms, Tracer, MAX_DEPTH};

fn scalar(value: f32) -> Scalar {
    Scalar::from_bits(value.to_bits())
}

#[test]
fn occluded_light_adds_nothing() {
    for illumination in [-1.0f32, 0.0, 0.5, 1.0, f32::NAN] {
        for highlight in [-1.0f32, 0.0, 0.5, 1.0] {
            let terms = light_terms(true, scalar(illumination), scalar(highlight));
            assert_eq!(terms, LightTerms { diffuse: false, specular: false });
        }
    }
}

#[test]
fn occluded_light_leaves_the_colour_at_zero() {
    // A point at the origin with its normal towards a light at (0, 0, 10),
    // and a sphere between the two: the shadow probe reports a hit.
    let in_shadow = true;
    let terms = light_terms(in_shadow, scalar(1.0), scalar(1.0));
    let light = [0.5f32, 0.4, 0.3];
    let mut colour = [0.0f32; 3];
    for channel in 0..3 {
        if terms.diffuse {
            colour[channel] += light[channel] * 1.0 * 0.5;
        }
        if terms.specular {
            colour[channel] += light[channel] * 1.0f32.powi(50);
        }
    }
    assert_eq!(colour, [0.0, 0.0, 0.0]);
}

#[test]
fn lit_point_takes_the_terms_that_are_positive() {
    assert_eq!(
        light_terms(false, scalar(0.5), scalar(0.25)),
        LightTerms { diffuse: true, specular: true }
    );
    assert_eq!(
        light_terms(false, scalar(0.5), scalar(-0.25)),
        LightTerms { diffuse: true, specular: false }
    );
    assert_eq!(
        light_terms(false, scalar(0.0), scalar(0.25)),
        LightTerms { diffuse: false, specular: true }
    );
    assert_eq!(
        light_terms(false, scalar(-0.0), scalar(f32::NAN)),
        LightTerms { diffuse: false, specular: false }
    );
}

#[test]
fn greatest_depth_is_three() {
    assert_eq!(MAX_DEPTH, 3);
}

#[test]
fn miss_ends_the_trace_at_once() {
    let mut tracer = Tracer::new(0);
    assert_eq!(tracer.step(Event::Miss), Action::Finish);
    assert!(tracer.is_finished());
    assert_eq!(tracer.depth(), 0);
}

#[test]
fn four_hits_are_shaded_and_three_rays_follow() {
    let mut tracer = Tracer::new(0);
    assert_eq!(tracer.step(Event::Hit), Action::Bounce);
    assert_eq!(tracer.depth(), 1);
    assert_eq!(tracer.step(Event::Hit), Action::Bounce);
    assert_eq!(tracer.depth(), 2);
    assert_eq!(tracer.step(Event::Hit), Action::Bounce);
    assert_eq!(tracer.depth(), 3);
    assert!(!tracer.is_finished());
    assert_eq!(tracer.step(Event::Hit), Action::Finish);
    assert_eq!(tracer.depth(), 3);
    assert!(tracer.is_finished());
}

#[test]
fn miss_after_a_bounce_ends_the_trace() {
    let mut tracer = Tracer::new(0);
    assert_eq!(tracer.step(Event::Hit), Action::Bounce);
    assert_eq!(tracer.step(Event::Miss), Action::Finish);
    assert!(tracer.is_finished());
    assert_eq!(tracer.depth(), 1);
}

#[test]
fn finished_trace_stays_finished() {
    let mut tracer = Tracer::new(0);
    assert_eq!(tracer.step(Event::Miss), Action::Finish);
    assert_eq!(tracer.step(Event::Hit), Action::Finish);
    assert_eq!(tracer.depth(), 0);
    assert!(tracer.is_finished());
}

#[test]
fn trace_that_starts_at_the_greatest_depth_shades_one_hit() {
    let mut tracer = Tracer::new(3);
    assert_eq!(tracer.step(Event::Hit), Action::Finish);
    assert!(tracer.is_finished());
    let mut deeper = Tracer::new(7);
    assert_eq!(deeper.step(Event::Hit), Action::Finish);
    assert_eq!(deeper.depth(), 7);
}

#[test]
fn every_trace_ends_within_four_rays() {
    let mut tracer = Tracer::new(0);
    let mut rays: u32 = 0;
    loop {
        rays += 1;
        if tracer.step(Event::Hit) == Action::Finish {
            break;
        }
        assert!(rays < 10);
    }
    assert_eq!(rays, 4);
}
