use my_library::{
    check_collisions, collisions, AxisAlignedBoundingBox, Collider, OnCollision, Rect2D,
    StaticQuadTree, Vec2,
};

fn collider(entity: u64, x: i64, y: i64, width: i64, height: i64) -> Collider {
    Collider::new(entity, Vec2::new(x, y), AxisAlignedBoundingBox::new(width, height))
}

fn tree() -> StaticQuadTree {
    StaticQuadTree::new(Vec2::new(1024, 768), 3)
}

fn event(entity_a: u64, entity_b: u64) -> OnCollision {
    OnCollision { entity_a, entity_b }
}

#[test]
fn bounding_box_halves_its_size() {
    let bbox = AxisAlignedBoundingBox::new(16, 10);
    assert_eq!(bbox.half_size, Vec2::new(8, 5));
    let odd = AxisAlignedBoundingBox::new(7, -7);
    assert_eq!(odd.half_size, Vec2::new(3, -3));
}

#[test]
fn bounding_box_as_rect_is_centered() {
    let bbox = AxisAlignedBoundingBox::new(16, 10);
    assert_eq!(
        bbox.as_rect(Vec2::new(100, -20)),
        Rect2D::new(Vec2::new(92, -25), Vec2::new(108, -15))
    );
}

#[test]
fn bounding_box_as_rect_stops_at_the_limits() {
    let bbox = AxisAlignedBoundingBox::new(16, 16);
    assert_eq!(
        bbox.as_rect(Vec2::new(i64::MAX, i64::MIN)),
        Rect2D::new(Vec2::new(i64::MAX - 8, i64::MIN), Vec2::new(i64::MAX, i64::MIN + 8))
    );
}

#[test]
fn overlapping_entities_of_two_groups_collide() {
    let a = vec![collider(1, 0, 0, 16, 16)];
    let b = vec![collider(2, 5, 0, 16, 16)];
    assert_eq!(check_collisions(&tree(), &a, &b), vec![event(1, 2)]);
}

#[test]
fn separate_entities_of_two_groups_do_not_collide() {
    let a = vec![collider(1, 0, 0, 16, 16)];
    let b = vec![collider(2, 20, 0, 16, 16)];
    assert_eq!(check_collisions(&tree(), &a, &b), vec![]);
}

#[test]
fn touching_entities_of_two_groups_collide() {
    let a = vec![collider(1, 0, 0, 16, 16)];
    let b = vec![collider(2, 16, 0, 16, 16)];
    assert_eq!(check_collisions(&tree(), &a, &b), vec![event(1, 2)]);
    let beyond = vec![collider(2, 17, 0, 16, 16)];
    assert_eq!(check_collisions(&tree(), &a, &beyond), vec![]);
}

#[test]
fn an_entity_does_not_collide_with_itself() {
    let a = vec![collider(7, 10, 10, 16, 16)];
    let b = vec![collider(7, 10, 10, 16, 16), collider(8, 12, 10, 16, 16)];
    assert_eq!(check_collisions(&tree(), &a, &b), vec![event(7, 8)]);
}

#[test]
fn every_intersecting_pair_is_reported_once() {
    let a = vec![collider(1, 0, 0, 40, 40), collider(2, 300, 200, 16, 16)];
    let b = vec![
        collider(10, 10, 10, 16, 16),
        collider(11, -10, -10, 16, 16),
        collider(12, 305, 205, 16, 16),
        collider(13, -400, 300, 16, 16),
        collider(14, 100, 100, 400, 400),
    ];
    let mut events = check_collisions(&tree(), &a, &b);
    let first_of_second = events.iter().position(|e| e.entity_a == 2).unwrap();
    assert!(events[..first_of_second].iter().all(|e| e.entity_a == 1));
    assert!(events[first_of_second..].iter().all(|e| e.entity_a == 2));
    events.sort_by_key(|e| (e.entity_a, e.entity_b));
    assert_eq!(events, vec![event(1, 10), event(1, 11), event(1, 14), event(2, 12), event(2, 14)]);
}

#[test]
fn two_group_query_agrees_with_testing_all_pairs_inside_the_play_area() {
    let tree = tree();
    let mut a = Vec::new();
    let mut b = Vec::new();
    let mut seed: i64 = 12345;
    let mut next = |modulus: i64| {
        seed = (seed * 1103515245 + 12345) % 2147483648;
        (seed / 65536) % modulus
    };
    for id in 0..40u64 {
        a.push(collider(id, next(900) - 450, next(700) - 350, 10 + next(60), 10 + next(60)));
        b.push(collider(100 + id, next(900) - 450, next(700) - 350, 10 + next(60), 10 + next(60)));
    }
    let mut expected = Vec::new();
    for ca in &a {
        for cb in &b {
            if ca.as_rect().intersect(&cb.as_rect()) {
                expected.push(event(ca.entity, cb.entity));
            }
        }
    }
    let mut events = check_collisions(&tree, &a, &b);
    events.sort_by_key(|e| (e.entity_a, e.entity_b));
    expected.sort_by_key(|e| (e.entity_a, e.entity_b));
    assert!(!expected.is_empty());
    assert_eq!(events, expected);
}

#[test]
fn collision_outside_the_play_area_is_not_seen() {
    let a = vec![collider(1, 5000, 5000, 16, 16)];
    let b = vec![collider(2, 5004, 5000, 16, 16)];
    assert_eq!(check_collisions(&tree(), &a, &b), vec![]);
}

#[test]
fn empty_groups_give_no_events() {
    let none: Vec<Collider> = Vec::new();
    let some = vec![collider(1, 0, 0, 16, 16)];
    assert_eq!(check_collisions(&tree(), &none, &some), vec![]);
    assert_eq!(check_collisions(&tree(), &some, &none), vec![]);
    assert_eq!(collisions(&tree(), &none), vec![]);
    assert_eq!(collisions(&tree(), &some), vec![]);
}

#[test]
fn one_group_query_reports_each_entity_once() {
    let group = vec![
        collider(1, 100, 100, 16, 16),
        collider(2, 104, 100, 16, 16),
        collider(3, 108, 100, 16, 16),
        collider(4, -300, -200, 16, 16),
    ];
    assert_eq!(collisions(&tree(), &group), vec![event(1, 2), event(2, 1), event(3, 1)]);
}

#[test]
fn one_group_query_takes_the_first_partner_in_order() {
    let group = vec![
        collider(5, 204, 100, 16, 16),
        collider(6, 300, 300, 16, 16),
        collider(7, 200, 100, 16, 16),
        collider(8, 208, 100, 16, 16),
    ];
    assert_eq!(collisions(&tree(), &group), vec![event(5, 7), event(7, 5), event(8, 5)]);
}

#[test]
fn one_group_query_finds_partners_across_a_boundary() {
    let group = vec![collider(1, -6, 100, 16, 16), collider(2, 6, 100, 16, 16)];
    assert_eq!(collisions(&tree(), &group), vec![event(1, 2), event(2, 1)]);
}

#[test]
fn one_group_query_without_collisions() {
    let group = vec![
        collider(1, -300, -200, 16, 16),
        collider(2, 300, 200, 16, 16),
        collider(3, 0, 0, 16, 16),
    ];
    assert_eq!(collisions(&tree(), &group), vec![]);
}
