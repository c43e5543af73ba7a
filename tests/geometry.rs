use collide::geometry::{
    closest_bounds_point_to_point, penetration_vector, sweep_aabb, Rect2, Rect3, Vec2, Vec3,
};

fn rect(min: (i64, i64, i64), max: (i64, i64, i64)) -> Rect3 {
    Rect3::new(Vec3::new(min.0, min.1, min.2), Vec3::new(max.0, max.1, max.2))
}

#[test]
fn test_sweep_aabb() {
    let aabb = rect((0, 0, 0), (1000, 1000, 1000));
    let pos1 = Vec3::new(-3000, 0, 0);
    let disp1 = Vec3::new(6000, 0, 0);
    let pos2 = Vec3::new(3000, 0, 0);
    let disp2 = Vec3::new(-6000, 0, 0);

    let hit = sweep_aabb(aabb, pos1, disp1, aabb, pos2, disp2).expect("No hit");

    // (t_first + t_last) / 2 == 1/2, computed exactly.
    let sum_num = hit.first.num * hit.last.den + hit.last.num * hit.first.den;
    let sum_den = hit.first.den * hit.last.den;
    assert_eq!(sum_num, sum_den);
}

#[test]
fn sweep_times_and_normal() {
    let aabb = rect((0, 0, 0), (1000, 1000, 1000));
    let hit = sweep_aabb(
        aabb,
        Vec3::new(-3000, 0, 0),
        Vec3::new(6000, 0, 0),
        aabb,
        Vec3::new(3000, 0, 0),
        Vec3::new(-6000, 0, 0),
    )
    .unwrap();
    assert_eq!((hit.first.num, hit.first.den), (5000, 12000));
    assert_eq!((hit.last.num, hit.last.den), (7000, 12000));
    assert_eq!(hit.normal, Some(0));
}

#[test]
fn sweep_misses_when_moving_apart() {
    let aabb = rect((0, 0, 0), (1000, 1000, 1000));
    let r = sweep_aabb(
        aabb,
        Vec3::new(-3000, 0, 0),
        Vec3::new(-1000, 0, 0),
        aabb,
        Vec3::new(3000, 0, 0),
        Vec3::new(1000, 0, 0),
    );
    assert!(r.is_none());
}

#[test]
fn sweep_misses_when_too_slow() {
    let aabb = rect((0, 0, 0), (1000, 1000, 1000));
    // The gap of 4000 closes at 2000 per step: contact only after the step.
    let r = sweep_aabb(
        aabb,
        Vec3::new(-3000, 0, 0),
        Vec3::new(1000, 0, 0),
        aabb,
        Vec3::new(2000, 0, 0),
        Vec3::new(-1000, 0, 0),
    );
    assert!(r.is_none());
}

#[test]
fn sweep_overlapping_from_start() {
    let aabb = rect((0, 0, 0), (1000, 1000, 1000));
    let hit = sweep_aabb(
        aabb,
        Vec3::new(0, 0, 0),
        Vec3::new(100, 0, 0),
        aabb,
        Vec3::new(500, 0, 0),
        Vec3::new(0, 0, 0),
    )
    .unwrap();
    assert_eq!(hit.first.num, 0);
    assert_eq!(hit.normal, None);
}

#[test]
fn penetration_of_offset_unit_boxes() {
    let a = rect((0, 0, 0), (1000, 1000, 1000));
    let b = rect((500, 0, 0), (1500, 1000, 1000));
    let pen = penetration_vector(a, b);
    assert_eq!(pen, Vec3::new(-500, 0, 0));
    let moved = a.translate(&pen);
    assert!(a.is_intersecting(b));
    assert!(!moved.is_intersecting(b));
}

#[test]
fn penetration_is_zero_when_apart() {
    let a = rect((0, 0, 0), (1000, 1000, 1000));
    let b = rect((1000, 0, 0), (2000, 1000, 1000));
    assert_eq!(penetration_vector(a, b), Vec3::zero());
}

#[test]
fn closest_point_prefers_later_face_on_ties() {
    let r = rect((-100, -100, -100), (100, 100, 100));
    let p = closest_bounds_point_to_point(r, Vec3::zero());
    assert_eq!(p, Vec3::new(0, 0, -100));
    let q = closest_bounds_point_to_point(rect((-30, -100, -100), (100, 100, 100)), Vec3::zero());
    assert_eq!(q, Vec3::new(-30, 0, 0));
}

#[test]
fn minowski_difference_corners() {
    let a = rect((0, 0, 0), (10, 20, 30));
    let b = rect((5, 5, 5), (7, 8, 9));
    let d = a.minowski_difference(b);
    assert_eq!(d, rect((-7, -8, -9), (5, 15, 25)));
    let a2 = Rect2::new(Vec2 { x: 0, y: 0 }, Vec2 { x: 10, y: 20 });
    let b2 = Rect2::new(Vec2 { x: 5, y: 5 }, Vec2 { x: 7, y: 8 });
    let d2 = a2.minowski_difference(b2);
    assert_eq!(d2, Rect2::new(Vec2 { x: -7, y: -8 }, Vec2 { x: 5, y: 15 }));
}

#[test]
fn rect_conversions() {
    let r2 = Rect2::new(Vec2 { x: 1, y: 2 }, Vec2 { x: 3, y: 4 });
    let r3 = r2.extend(5, 6);
    assert_eq!(r3, rect((1, 2, 5), (3, 4, 6)));
    assert_eq!(r3.truncate(), r2);
    assert!(r2.is_intersecting(Rect2::new(Vec2 { x: 2, y: 3 }, Vec2 { x: 9, y: 9 })));
    assert!(!r2.is_intersecting(Rect2::new(Vec2 { x: 3, y: 3 }, Vec2 { x: 9, y: 9 })));
}

#[test]
fn sweep_touching_and_separating_ends_at_once() {
    let aabb = rect((0, 0, 0), (1000, 1000, 1000));
    // The second box starts touching the first on x and moves away.
    let hit = sweep_aabb(
        aabb,
        Vec3::new(0, 0, 0),
        Vec3::new(0, 0, 0),
        aabb,
        Vec3::new(1000, 0, 0),
        Vec3::new(500, 0, 0),
    )
    .unwrap();
    assert_eq!(hit.first.num, 0);
    assert_eq!(hit.last.num, 0);
}

#[test]
fn sweep_touching_separating_while_approaching_misses() {
    let aabb = rect((0, 0, 0), (1000, 1000, 1000));
    // Touching on x and moving apart on x, approaching on y: no overlap
    // during the step.
    let r = sweep_aabb(
        aabb,
        Vec3::new(0, 0, 0),
        Vec3::new(0, 0, 0),
        aabb,
        Vec3::new(1000, 2000, 0),
        Vec3::new(500, -4000, 0),
    );
    assert!(r.is_none());
}

#[test]
fn sweep_convoy_apart_is_no_hit() {
    let aabb = rect((0, 0, 0), (1000, 1000, 1000));
    // Both move +500 in x and lie 4000 apart in y: they never touch.
    let r = sweep_aabb(
        aabb,
        Vec3::new(0, 0, 0),
        Vec3::new(500, 0, 0),
        aabb,
        Vec3::new(0, 5000, 0),
        Vec3::new(500, 0, 0),
    );
    assert!(r.is_none());
    // Side by side and touching on y, moving together: in contact all along.
    let hit = sweep_aabb(
        aabb,
        Vec3::new(0, 0, 0),
        Vec3::new(500, 0, 0),
        aabb,
        Vec3::new(0, 1000, 0),
        Vec3::new(500, 0, 0),
    )
    .unwrap();
    assert_eq!((hit.first.num, hit.last.num, hit.last.den), (0, 1, 1));
}
