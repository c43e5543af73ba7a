use collide::collider::{Bound, Collider, Shape};
use collide::geometry::{Rect3, Vec2, Vec3};

#[test]
fn get_bound() {
    let circle = Shape::Circle {
        offset: Vec2 { x: 2000, y: 2000 },
        radius: 2000,
        depth_min: 0,
        depth_max: 1000,
    };
    let aabb = Shape::AABB(Rect3::new(Vec3::new(0, 0, 0), Vec3::new(2000, 2000, 1000)));
    let pos = Vec3::new(4000, 4000, 0);

    assert_eq!(
        circle.bound(pos),
        Bound { rect: Rect3::new(Vec3::new(6000, 6000, 0), Vec3::new(10000, 10000, 1000)) }
    );
    assert_eq!(
        aabb.bound(pos),
        Bound { rect: Rect3::new(Vec3::new(4000, 4000, 0), Vec3::new(6000, 6000, 1000)) }
    );
}

#[test]
fn union_of_bounds() {
    let a = Bound { rect: Rect3::new(Vec3::new(0, 5, 0), Vec3::new(10, 10, 1)) };
    let b = Bound { rect: Rect3::new(Vec3::new(-5, 0, 0), Vec3::new(3, 20, 2)) };
    assert_eq!(a.union(&b), Bound { rect: Rect3::new(Vec3::new(-5, 0, 0), Vec3::new(10, 20, 2)) });
}

#[test]
fn new_collider_has_no_handle() {
    let shape = Shape::AABB(Rect3::new(Vec3::new(0, 0, 0), Vec3::new(1, 1, 1)));
    let c = Collider::new(shape, true);
    assert_eq!(c.index, None);
    assert!(c.sweep);
    assert_eq!(c.shape, shape);
}
