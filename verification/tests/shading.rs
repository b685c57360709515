use ray_tracer::pattern::shows_first;
use ray_tracer::shading::{bounce, shading_plan, Blend, Shading, Surface};

fn surfaces() -> Vec<Surface> {
    let mut all = vec![];
    for reflects in [false, true] {
        for refracts in [false, true] {
            for blends in [false, true] {
                all.push(Surface { reflects, refracts, blends });
            }
        }
    }
    all
}

#[test]
fn a_hit_without_budget_is_black() {
    for surface in surfaces() {
        assert_eq!(shading_plan(0, surface), Shading::Black);
    }
}

#[test]
fn a_hit_with_budget_is_lit() {
    for depth in [1usize, 2, 5, usize::MAX] {
        for surface in surfaces() {
            let expected = Shading::Lit {
                reflect: if surface.reflects { Some(depth - 1) } else { None },
                refract: if surface.refracts { Some(depth - 1) } else { None },
                blend: if surface.blends { Blend::Fresnel } else { Blend::Sum },
            };
            assert_eq!(shading_plan(depth, surface), expected);
        }
    }
}

#[test]
fn an_opaque_dull_surface_sends_no_rays() {
    let dull = Surface { reflects: false, refracts: false, blends: false };
    assert_eq!(
        shading_plan(5, dull),
        Shading::Lit { reflect: None, refract: None, blend: Blend::Sum }
    );
}

#[test]
fn every_bounce_costs_one() {
    assert_eq!(bounce(0), None);
    assert_eq!(bounce(1), Some(0));
    assert_eq!(bounce(5), Some(4));
    assert_eq!(bounce(usize::MAX), Some(usize::MAX - 1));
}

#[test]
fn cells_alternate() {
    // the cells of the points 0, 0.9, 1 and -0.1 along a stripe pattern
    assert!(shows_first(0));
    assert!(shows_first((0.9f64).floor() as i64));
    assert!(!shows_first((1.0f64).floor() as i64));
    assert!(!shows_first((-0.1f64).floor() as i64));
    assert!(shows_first(-2));
    assert!(!shows_first(-3));
    assert!(shows_first(i64::MIN));
    assert!(!shows_first(i64::MAX));
}
