use ray_tracer::intersect::{hit, hit_index, is_shadowed, merge_intersections, sort_intersections, Intersection};
use ray_tracer::refraction::{refraction_media, Media};
use ray_tracer::scene::{ShapeKind, World};

/// The code of a distance: an integer that is ordered as the distances are,
/// with 0 for the distance 0.
fn code(t: f64) -> i64 {
    assert!(!t.is_nan());
    // the two zeros are one distance
    let t = if t == 0.0 { 0.0 } else { t };
    let bits = t.to_bits() as i64;
    if bits < 0 {
        bits ^ i64::MAX
    } else {
        bits
    }
}

/// The distance that a code stands for.
fn distance(code: i64) -> f64 {
    let bits = if code < 0 { code ^ i64::MAX } else { code };
    f64::from_bits(bits as u64)
}

fn sphere(world: &mut World) -> usize {
    world.add_shape(ShapeKind::Sphere)
}

#[test]
fn codes_are_ordered_as_distances() {
    let values = [
        f64::NEG_INFINITY,
        -7.5,
        -1.0,
        -0.0,
        0.0,
        1e-9,
        0.5,
        1.0,
        4.0,
        4.5,
        1e12,
        f64::INFINITY,
    ];
    for i in 0..values.len() {
        assert_eq!(distance(code(values[i])), values[i]);
        assert_eq!(code(values[i]) > 0, values[i] > 0.0);
        for j in 0..values.len() {
            assert_eq!(code(values[i]) < code(values[j]), values[i] < values[j]);
            assert_eq!(code(values[i]) == code(values[j]), values[i] == values[j]);
        }
    }
}

#[test]
fn hit_with_positive_t() {
    let mut w = World::new();
    let s = sphere(&mut w);
    let i1 = Intersection::new(s, code(1.0));
    let i2 = Intersection::new(s, code(2.0));
    let v = vec![i1, i2];
    let i = hit(&v).unwrap();
    assert_eq!(distance(i.t), 1.0);
}

#[test]
fn hit_with_negative_t() {
    let mut w = World::new();
    let s = sphere(&mut w);
    let i1 = Intersection::new(s, code(-1.0));
    let i2 = Intersection::new(s, code(1.0));
    let v = vec![i1, i2];
    let i = hit(&v).unwrap();
    assert_eq!(distance(i.t), 1.0);
}

#[test]
fn no_hit_with_all_negatives() {
    let mut w = World::new();
    let s = sphere(&mut w);
    let i1 = Intersection::new(s, code(-1.0));
    let i2 = Intersection::new(s, code(-2.0));
    let v = vec![i1, i2];
    let i = hit(&v);
    assert!(i.is_none());
}

#[test]
fn hit_with_positive_and_negative_t() {
    let mut w = World::new();
    let s = sphere(&mut w);
    let i1 = Intersection::new(s, code(-1.0));
    let i2 = Intersection::new(s, code(5.0));
    let i3 = Intersection::new(s, code(7.0));
    let i4 = Intersection::new(s, code(-2.0));
    let v = vec![i1, i2, i3, i4];
    let i = hit(&v).unwrap();
    assert_eq!(distance(i.t), 5.0);
}

#[test]
fn hit_of_nothing_is_none() {
    let v: Vec<Intersection> = vec![];
    assert!(hit(&v).is_none());
    assert_eq!(hit_index(&v), None);
}

#[test]
fn hit_at_the_origin_does_not_count() {
    let v = vec![Intersection::new(0, code(0.0)), Intersection::new(1, code(-0.0))];
    assert!(hit(&v).is_none());
    let v = vec![Intersection::new(0, 0), Intersection::new(1, 1)];
    assert_eq!(hit_index(&v), Some(1));
}

#[test]
fn hit_takes_the_first_of_equal_distances() {
    let v = vec![
        Intersection::new(3, code(9.0)),
        Intersection::new(1, code(2.0)),
        Intersection::new(2, code(2.0)),
        Intersection::new(4, code(-2.0)),
    ];
    assert_eq!(hit_index(&v), Some(1));
    assert_eq!(hit(&v).unwrap().shape, 1);
}

#[test]
fn hit_keeps_the_barycentric_codes() {
    let v = vec![Intersection::new(0, 8), Intersection::new_uv(5, 3, 11, 12)];
    let h = hit(&v).unwrap();
    assert_eq!(h, Intersection { shape: 5, t: 3, u: Some(11), v: Some(12) });
    assert_eq!(Intersection::new(7, 9), Intersection { shape: 7, t: 9, u: None, v: None });
}

#[test]
fn objects_id_is_unique() {
    let mut w = World::new();
    let s1 = sphere(&mut w);
    let s2 = sphere(&mut w);
    assert_ne!(s1, s2);
    assert_eq!(s1, s1);
}

#[test]
fn finding_n1_and_n2_of_intersections() {
    let mut w = World::new();
    // a glass sphere of radius 2 and two unit glass spheres inside it, moved
    // along the ray by -0.25 and 0.25; the ray starts at z = -4
    let a = sphere(&mut w);
    let b = sphere(&mut w);
    let c = sphere(&mut w);
    let refractive_index = |shape: Option<usize>| -> f64 {
        match shape {
            None => 1.0,
            Some(s) if s == a => 1.5,
            Some(s) if s == b => 2.0,
            Some(s) if s == c => 2.5,
            Some(_) => panic!("no such shape"),
        }
    };
    let parts = vec![
        vec![Intersection::new(a, code(2.0)), Intersection::new(a, code(6.0))],
        vec![Intersection::new(b, code(2.75)), Intersection::new(b, code(4.75))],
        vec![Intersection::new(c, code(3.25)), Intersection::new(c, code(5.25))],
    ];
    let xs = merge_intersections(&parts);

    let expected_results = [
        (1.0, 1.5),
        (1.5, 2.0),
        (2.0, 2.5),
        (2.5, 2.5),
        (2.5, 1.5),
        (1.5, 1.0),
    ];
    assert_eq!(xs.len(), 6);
    for i in 0..xs.len() {
        let media = refraction_media(&xs, i);
        assert_eq!(refractive_index(media.leaving), expected_results[i].0);
        assert_eq!(refractive_index(media.entering), expected_results[i].1);
    }
}

#[test]
fn media_of_a_single_sphere() {
    let xs = vec![Intersection::new(4, 10), Intersection::new(4, 20)];
    assert_eq!(refraction_media(&xs, 0), Media { leaving: None, entering: Some(4) });
    assert_eq!(refraction_media(&xs, 1), Media { leaving: Some(4), entering: None });
}

#[test]
fn media_past_the_end_are_empty_space() {
    let xs = vec![Intersection::new(4, 10), Intersection::new(4, 20)];
    assert_eq!(refraction_media(&xs, 2), Media { leaving: None, entering: None });
    assert_eq!(refraction_media(&xs, usize::MAX), Media { leaving: None, entering: None });
    let none: Vec<Intersection> = vec![];
    assert_eq!(refraction_media(&none, 0), Media { leaving: None, entering: None });
}

#[test]
fn media_of_overlapping_spheres() {
    // enter 1, enter 2, leave 1, leave 2
    let xs = vec![
        Intersection::new(1, 10),
        Intersection::new(2, 20),
        Intersection::new(1, 30),
        Intersection::new(2, 40),
    ];
    assert_eq!(refraction_media(&xs, 1), Media { leaving: Some(1), entering: Some(2) });
    assert_eq!(refraction_media(&xs, 2), Media { leaving: Some(2), entering: Some(2) });
    assert_eq!(refraction_media(&xs, 3), Media { leaving: Some(2), entering: None });
}

#[test]
fn default_world_intersection() {
    // a unit sphere and one of half the size at the origin, seen from z = -5
    let mut w = World::new();
    let s1 = sphere(&mut w);
    let s2 = sphere(&mut w);
    let parts = vec![
        vec![Intersection::new(s1, code(4.0)), Intersection::new(s1, code(6.0))],
        vec![Intersection::new(s2, code(4.5)), Intersection::new(s2, code(5.5))],
    ];
    let intersections = merge_intersections(&parts);
    assert_eq!(intersections.len(), 4);
    assert_eq!(distance(intersections[0].t), 4.0);
    assert_eq!(distance(intersections[1].t), 4.5);
    assert_eq!(distance(intersections[2].t), 5.5);
    assert_eq!(distance(intersections[3].t), 6.0);
}

#[test]
fn intersecting_ray_with_empty_group() {
    let parts: Vec<Vec<Intersection>> = vec![];
    let xs = merge_intersections(&parts);
    assert!(xs.is_empty());
}

#[test]
fn intersecting_ray_with_non_empty_group() {
    let mut w = World::new();
    let g = w.add_shape(ShapeKind::Group);
    let s1 = sphere(&mut w);
    let s2 = sphere(&mut w);
    let s3 = sphere(&mut w);
    assert_eq!(w.add_object(g, s1), Ok(()));
    assert_eq!(w.add_object(g, s2), Ok(()));
    assert_eq!(w.add_object(g, s3), Ok(()));

    // a unit sphere at the origin, one moved to z = -3, one moved out of the
    // way of a ray that starts at z = -5
    let found = |shape: usize| -> Vec<Intersection> {
        if shape == s1 {
            vec![Intersection::new(s1, code(4.0)), Intersection::new(s1, code(6.0))]
        } else if shape == s2 {
            vec![Intersection::new(s2, code(1.0)), Intersection::new(s2, code(3.0))]
        } else {
            vec![]
        }
    };
    let mut parts = vec![];
    for shape in w.members(g) {
        parts.push(found(*shape));
    }
    let xs = merge_intersections(&parts);
    assert_eq!(xs.len(), 4);
    assert_eq!(xs[0].shape, s2);
    assert_eq!(xs[1].shape, s2);
    assert_eq!(xs[2].shape, s1);
    assert_eq!(xs[3].shape, s1);
}

#[test]
fn sorting_keeps_the_order_of_equal_distances() {
    let mut xs = vec![
        Intersection::new(1, 5),
        Intersection::new(2, -3),
        Intersection::new(3, 5),
        Intersection::new(4, 0),
        Intersection::new(5, 5),
        Intersection::new(6, -3),
    ];
    sort_intersections(&mut xs);
    let shapes: Vec<usize> = xs.iter().map(|i| i.shape).collect();
    let codes: Vec<i64> = xs.iter().map(|i| i.t).collect();
    assert_eq!(codes, vec![-3, -3, 0, 5, 5, 5]);
    assert_eq!(shapes, vec![2, 6, 4, 1, 3, 5]);
}

#[test]
fn sorting_nothing_and_one() {
    let mut xs: Vec<Intersection> = vec![];
    sort_intersections(&mut xs);
    assert!(xs.is_empty());
    let mut xs = vec![Intersection::new(1, 5)];
    sort_intersections(&mut xs);
    assert_eq!(xs, vec![Intersection::new(1, 5)]);
}

#[test]
fn shadow_needs_something_before_the_light() {
    let xs = vec![Intersection::new(1, code(-2.0)), Intersection::new(1, code(3.0))];
    assert!(is_shadowed(&xs, code(10.0)));
    assert!(!is_shadowed(&xs, code(3.0)));
    assert!(!is_shadowed(&xs, code(2.5)));
    let behind = vec![Intersection::new(1, code(-2.0)), Intersection::new(1, code(-1.0))];
    assert!(!is_shadowed(&behind, code(10.0)));
    let none: Vec<Intersection> = vec![];
    assert!(!is_shadowed(&none, code(10.0)));
}

#[test]
fn groups_do_not_change_what_is_seen() {
    // what two groups hand on, each in order, against the same primitives
    // without groups
    let a = vec![Intersection::new(1, 7), Intersection::new(1, 9), Intersection::new(2, 7)];
    let b = vec![Intersection::new(3, 8), Intersection::new(4, 7), Intersection::new(3, -1)];
    let c = vec![Intersection::new(5, 7)];
    let flat = merge_intersections(&vec![a.clone(), b.clone(), c.clone()]);
    let inner = vec![
        merge_intersections(&vec![a.clone()]),
        merge_intersections(&vec![b.clone(), c.clone()]),
    ];
    let nested = merge_intersections(&inner);
    assert_eq!(nested, flat);
    let shapes: Vec<usize> = flat.iter().map(|i| i.shape).collect();
    assert_eq!(shapes, vec![3, 1, 2, 4, 5, 3, 1]);
}
