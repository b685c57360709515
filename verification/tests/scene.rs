use ray_tracer::scene::{SceneError, ShapeKind, Visit, World};

#[test]
fn shape_added_successfully() {
    let mut w = World::new();
    let g = w.add_shape(ShapeKind::Group);
    let s = w.add_shape(ShapeKind::Sphere);
    assert_eq!(w.add_object(g, s), Ok(()));
    assert!(!w.members(g).is_empty());
    assert_eq!(w.get_object(g, 0), Some(s));
    assert_eq!(w.get_parent_id(s).unwrap(), g);
}

#[test]
fn a_new_world_is_empty() {
    let w = World::new();
    assert_eq!(w.len(), 0);
    assert!(w.objects().is_empty());
    assert_eq!(w.get_kind(0), None);
    assert_eq!(w.get_parent_id(0), None);
    assert_eq!(w.get_object(0, 0), None);
    assert_eq!(w.get_object_by_id(0), None);
    assert!(!w.encloses(0, 0));
}

#[test]
fn ids_count_up_from_zero() {
    let mut w = World::new();
    let kinds = [
        ShapeKind::Sphere,
        ShapeKind::Plane,
        ShapeKind::Cube,
        ShapeKind::Cylinder,
        ShapeKind::Cone,
        ShapeKind::Triangle,
        ShapeKind::SmoothTriangle,
        ShapeKind::Group,
    ];
    for (n, kind) in kinds.iter().enumerate() {
        assert_eq!(w.add_shape(*kind), n);
        assert_eq!(w.len(), n + 1);
    }
    for (n, kind) in kinds.iter().enumerate() {
        assert_eq!(w.get_kind(n), Some(*kind));
        assert_eq!(w.get_parent_id(n), None);
        assert_eq!(w.ancestors(n), vec![n]);
    }
    assert_eq!(w.get_kind(kinds.len()), None);
}

#[test]
fn chain_of_a_nested_sphere() {
    // a sphere in a group in another group
    let mut w = World::new();
    let g1 = w.add_shape(ShapeKind::Group);
    let g2 = w.add_shape(ShapeKind::Group);
    let s = w.add_shape(ShapeKind::Sphere);
    assert_eq!(w.add_object(g2, s), Ok(()));
    assert_eq!(w.add_object(g1, g2), Ok(()));
    assert_eq!(w.push_object(g1), Ok(()));

    assert_eq!(w.ancestors(s), vec![s, g2, g1]);
    assert_eq!(w.ancestors(g2), vec![g2, g1]);
    assert_eq!(w.ancestors(g1), vec![g1]);
    assert_eq!(w.get_parent_id(s), Some(g2));
    assert_eq!(w.get_parent_id(g2), Some(g1));
    assert_eq!(w.get_parent_id(g1), None);
    assert!(w.encloses(g1, s));
    assert!(w.encloses(g2, s));
    assert!(w.encloses(g1, g2));
    assert!(!w.encloses(s, s));
    assert!(!w.encloses(g2, g1));
    assert!(!w.encloses(s, g1));
    assert_eq!(w.get_object_by_id(s), Some(s));
    assert_eq!(w.get_object_by_id(g2), Some(g2));
    assert_eq!(w.get_object_by_id(g1), Some(g1));
    assert_eq!(w.objects(), &vec![g1]);
}

#[test]
fn the_outer_group_may_be_filled_first() {
    let mut w = World::new();
    let s = w.add_shape(ShapeKind::Sphere);
    let g2 = w.add_shape(ShapeKind::Group);
    let g1 = w.add_shape(ShapeKind::Group);
    assert_eq!(w.add_object(g1, g2), Ok(()));
    assert_eq!(w.add_object(g2, s), Ok(()));
    assert_eq!(w.ancestors(s), vec![s, g2, g1]);
}

#[test]
fn members_keep_their_order() {
    let mut w = World::new();
    let a = w.add_shape(ShapeKind::Cube);
    let g = w.add_shape(ShapeKind::Group);
    let b = w.add_shape(ShapeKind::Cone);
    let c = w.add_shape(ShapeKind::Plane);
    assert_eq!(w.add_object(g, c), Ok(()));
    assert_eq!(w.add_object(g, a), Ok(()));
    assert_eq!(w.add_object(g, b), Ok(()));
    assert_eq!(w.members(g), &vec![c, a, b]);
    assert_eq!(w.get_object(g, 0), Some(c));
    assert_eq!(w.get_object(g, 1), Some(a));
    assert_eq!(w.get_object(g, 2), Some(b));
    assert_eq!(w.get_object(g, 3), None);
    assert_eq!(w.get_object(a, 0), None);
    assert_eq!(w.get_object(99, 0), None);
}

#[test]
fn a_shape_outside_the_scene_is_not_found() {
    let mut w = World::new();
    let g = w.add_shape(ShapeKind::Group);
    let s = w.add_shape(ShapeKind::Sphere);
    let lone = w.add_shape(ShapeKind::Sphere);
    assert_eq!(w.add_object(g, s), Ok(()));
    assert_eq!(w.get_object_by_id(s), None);
    assert_eq!(w.push_object(g), Ok(()));
    assert_eq!(w.get_object_by_id(s), Some(s));
    assert_eq!(w.get_object_by_id(lone), None);
    assert_eq!(w.get_object_by_id(17), None);
}

#[test]
fn unknown_shapes_are_refused() {
    let mut w = World::new();
    let g = w.add_shape(ShapeKind::Group);
    assert_eq!(w.add_object(g, 5), Err(SceneError::UnknownShape));
    assert_eq!(w.add_object(5, g), Err(SceneError::UnknownShape));
    assert_eq!(w.push_object(5), Err(SceneError::UnknownShape));
    assert!(w.members(g).is_empty());
    assert!(w.objects().is_empty());
}

#[test]
fn only_groups_take_members() {
    let mut w = World::new();
    let s = w.add_shape(ShapeKind::Sphere);
    let t = w.add_shape(ShapeKind::Triangle);
    assert_eq!(w.add_object(s, t), Err(SceneError::NotAGroup));
    assert_eq!(w.add_object(s, s), Err(SceneError::NotAGroup));
    assert_eq!(w.get_parent_id(t), None);
}

#[test]
fn a_placed_shape_stays_where_it_is() {
    let mut w = World::new();
    let g = w.add_shape(ShapeKind::Group);
    let h = w.add_shape(ShapeKind::Group);
    let s = w.add_shape(ShapeKind::Sphere);
    let top = w.add_shape(ShapeKind::Sphere);
    assert_eq!(w.add_object(g, s), Ok(()));
    assert_eq!(w.push_object(top), Ok(()));
    assert_eq!(w.add_object(h, s), Err(SceneError::AlreadyPlaced));
    assert_eq!(w.add_object(g, s), Err(SceneError::AlreadyPlaced));
    assert_eq!(w.add_object(h, top), Err(SceneError::AlreadyPlaced));
    assert_eq!(w.push_object(s), Err(SceneError::AlreadyPlaced));
    assert_eq!(w.push_object(top), Err(SceneError::AlreadyPlaced));
    assert_eq!(w.members(g), &vec![s]);
    assert!(w.members(h).is_empty());
    assert_eq!(w.objects(), &vec![top]);
}

#[test]
fn nothing_goes_inside_itself() {
    let mut w = World::new();
    let g1 = w.add_shape(ShapeKind::Group);
    let g2 = w.add_shape(ShapeKind::Group);
    let g3 = w.add_shape(ShapeKind::Group);
    assert_eq!(w.add_object(g1, g1), Err(SceneError::Cycle));
    assert_eq!(w.add_object(g1, g2), Ok(()));
    assert_eq!(w.add_object(g2, g3), Ok(()));
    assert_eq!(w.add_object(g3, g1), Err(SceneError::Cycle));
    assert_eq!(w.add_object(g2, g1), Err(SceneError::Cycle));
    assert_eq!(w.ancestors(g3), vec![g3, g2, g1]);
    assert_eq!(w.get_parent_id(g1), None);
}

#[test]
fn top_level_objects_keep_their_order() {
    let mut w = World::new();
    let a = w.add_shape(ShapeKind::Sphere);
    let b = w.add_shape(ShapeKind::Plane);
    let c = w.add_shape(ShapeKind::Group);
    assert_eq!(w.push_object(c), Ok(()));
    assert_eq!(w.push_object(a), Ok(()));
    assert_eq!(w.push_object(b), Ok(()));
    assert_eq!(w.objects(), &vec![c, a, b]);
}

#[test]
fn the_walk_through_a_shape_is_the_shape() {
    let mut w = World::new();
    let s = w.add_shape(ShapeKind::Cone);
    assert_eq!(w.visits(s), vec![Visit::Leaf(s)]);
    let g = w.add_shape(ShapeKind::Group);
    assert_eq!(w.visits(g), vec![Visit::Enter(g), Visit::Leave(g)]);
    assert!(w.traversal().is_empty());
}

#[test]
fn the_walk_goes_through_groups_in_order() {
    let mut w = World::new();
    let g1 = w.add_shape(ShapeKind::Group);
    let g2 = w.add_shape(ShapeKind::Group);
    let a = w.add_shape(ShapeKind::Sphere);
    let b = w.add_shape(ShapeKind::Cube);
    let c = w.add_shape(ShapeKind::Plane);
    let d = w.add_shape(ShapeKind::Triangle);
    let lone = w.add_shape(ShapeKind::Sphere);
    assert_eq!(w.add_object(g1, a), Ok(()));
    assert_eq!(w.add_object(g2, b), Ok(()));
    assert_eq!(w.add_object(g2, c), Ok(()));
    assert_eq!(w.add_object(g1, g2), Ok(()));
    assert_eq!(w.add_object(g1, d), Ok(()));
    assert_eq!(w.push_object(lone), Ok(()));
    assert_eq!(w.push_object(g1), Ok(()));

    let through_g2 = vec![Visit::Enter(g2), Visit::Leaf(b), Visit::Leaf(c), Visit::Leave(g2)];
    assert_eq!(w.visits(g2), through_g2);
    let through_g1 = vec![
        Visit::Enter(g1),
        Visit::Leaf(a),
        Visit::Enter(g2),
        Visit::Leaf(b),
        Visit::Leaf(c),
        Visit::Leave(g2),
        Visit::Leaf(d),
        Visit::Leave(g1),
    ];
    assert_eq!(w.visits(g1), through_g1);
    let mut all = vec![Visit::Leaf(lone)];
    all.extend(through_g1);
    assert_eq!(w.traversal(), all);
}

#[test]
fn the_walk_meets_what_is_inside_and_nothing_else() {
    let mut w = World::new();
    let mut groups = vec![];
    for _ in 0..4 {
        groups.push(w.add_shape(ShapeKind::Group));
    }
    let mut shapes = vec![];
    for n in 0..12 {
        let s = w.add_shape(ShapeKind::Sphere);
        assert_eq!(w.add_object(groups[n % 4], s), Ok(()));
        shapes.push(s);
    }
    assert_eq!(w.add_object(groups[0], groups[1]), Ok(()));
    assert_eq!(w.add_object(groups[1], groups[2]), Ok(()));
    for root in 0..w.len() {
        let walk = w.visits(root);
        for id in 0..w.len() {
            let inside = id == root || w.encloses(root, id);
            let met = walk.contains(&Visit::Leaf(id)) || walk.contains(&Visit::Enter(id));
            assert_eq!(met, inside);
            let times = walk
                .iter()
                .filter(|v| **v == Visit::Leaf(id) || **v == Visit::Enter(id))
                .count();
            assert!(times <= 1);
        }
    }
}

#[test]
fn the_walk_is_in_the_groups_around_what_it_meets() {
    // a sphere in a group in a group, beside other members, and a lone plane
    let mut w = World::new();
    let outer = w.add_shape(ShapeKind::Group);
    let inner = w.add_shape(ShapeKind::Group);
    let cube = w.add_shape(ShapeKind::Cube);
    let sphere = w.add_shape(ShapeKind::Sphere);
    let cone = w.add_shape(ShapeKind::Cone);
    let plane = w.add_shape(ShapeKind::Plane);
    assert_eq!(w.add_object(inner, sphere), Ok(()));
    assert_eq!(w.add_object(outer, cube), Ok(()));
    assert_eq!(w.add_object(outer, inner), Ok(()));
    assert_eq!(w.add_object(outer, cone), Ok(()));
    assert_eq!(w.push_object(plane), Ok(()));
    assert_eq!(w.push_object(outer), Ok(()));

    let mut open: Vec<usize> = vec![];
    let mut met = vec![];
    for visit in w.traversal() {
        match visit {
            Visit::Enter(group) => {
                let mut around = w.ancestors(group);
                around.remove(0);
                around.reverse();
                assert_eq!(open, around);
                open.push(group);
            }
            Visit::Leaf(id) => {
                let mut around = w.ancestors(id);
                around.remove(0);
                around.reverse();
                assert_eq!(open, around);
                met.push((id, open.clone()));
            }
            Visit::Leave(group) => {
                assert_eq!(open.pop(), Some(group));
            }
        }
    }
    assert!(open.is_empty());
    assert_eq!(
        met,
        vec![
            (plane, vec![]),
            (cube, vec![outer]),
            (sphere, vec![outer, inner]),
            (cone, vec![outer]),
        ]
    );
}
