use collide::collider::{Collider, Shape};
use collide::geometry::{Fraction, Rect3, SweepHit, Vec2, Vec3};
use collide::narrow_phase::{
    apply_discrete, apply_sweep, classify, split_correction, swept_bound, winners, Collision,
    PairOutcome, Transform,
};
use collide::system::{test_pairs, CollisionError, CollisionSystem};
use collide::motion::{TransformSystem, Velocity, VelocitySystem};
use collide::input::{Input, InputList, InputState};

fn unit_box() -> Shape {
    Shape::AABB(Rect3::new(Vec3::new(0, 0, 0), Vec3::new(1000, 1000, 1000)))
}

fn moved(from: (i64, i64, i64), to: (i64, i64, i64)) -> Transform {
    Transform { pos: Vec3::new(to.0, to.1, to.2), last_pos: Vec3::new(from.0, from.1, from.2) }
}

#[test]
fn swept_bound_covers_both_positions() {
    let t = moved((0, 0, 0), (3000, -500, 0));
    let c = Collider::new(unit_box(), true);
    let b = swept_bound(&c, &t);
    assert_eq!(b.rect, Rect3::new(Vec3::new(0, -500, 0), Vec3::new(4000, 1000, 1000)));
    let d = Collider::new(unit_box(), false);
    let b2 = swept_bound(&d, &t);
    assert_eq!(b2.rect, Rect3::new(Vec3::new(3000, -500, 0), Vec3::new(4000, 500, 1000)));
}

#[test]
fn split_follows_displacements() {
    let pen = Vec3::new(-500, 0, 300);
    // The first moved 300 along x, the second 100: shares 3/4 and 1/4.
    let (a, b) = split_correction(pen, Vec3::new(300, 0, 0), Vec3::new(-100, 0, 0));
    assert_eq!(a, Vec3::new(-375, 0, 0));
    assert_eq!(b, Vec3::new(125, 0, 0));
    // Neither moved: nobody is corrected.
    let (a, b) = split_correction(pen, Vec3::zero(), Vec3::zero());
    assert_eq!((a, b), (Vec3::zero(), Vec3::zero()));
}

#[test]
fn classify_discrete_pair() {
    let c = Collider::new(unit_box(), false);
    let t1 = moved((-200, 0, 0), (0, 0, 0));
    let t2 = Transform::new(Vec3::new(500, 0, 0));
    match classify(&c, &t1, &c, &t2) {
        PairOutcome::Discrete(a, b) => {
            assert_eq!(a, Vec3::new(-500, 0, 0));
            assert_eq!(b, Vec3::zero());
        },
        other => panic!("unexpected outcome {:?}", other),
    }
}

#[test]
fn classify_sweep_and_unhandled() {
    let s = Collider::new(unit_box(), true);
    let t1 = moved((-3000, 0, 0), (3000, 0, 0));
    let t2 = moved((3000, 0, 0), (-3000, 0, 0));
    match classify(&s, &t1, &s, &t2) {
        PairOutcome::Sweep(h) => assert_eq!((h.first.num, h.first.den), (5000, 12000)),
        other => panic!("unexpected outcome {:?}", other),
    }
    let circle = Collider::new(
        Shape::Circle { offset: Vec2 { x: 0, y: 0 }, radius: 500, depth_min: 0, depth_max: 1000 },
        false,
    );
    assert_eq!(classify(&circle, &t1, &s, &t2), PairOutcome::Unhandled);
    let apart = Transform::new(Vec3::new(5000, 0, 0));
    let d = Collider::new(unit_box(), false);
    assert_eq!(classify(&d, &Transform::new(Vec3::zero()), &d, &apart), PairOutcome::Apart);
}

#[test]
fn winners_keep_earliest_sweeps_and_deepest_discrete() {
    let f = |n: i64, d: i64| Fraction { num: n, den: d };
    let cs = vec![
        Collision::Sweep(0, 1, f(1, 2), Some(0)),
        Collision::Sweep(0, 2, f(1, 4), Some(1)),
        Collision::Sweep(0, 3, f(2, 8), Some(0)),
        Collision::Discrete(1, 0, Vec3::new(3, 0, 0)),
        Collision::Discrete(1, 2, Vec3::new(0, -4, 0)),
        Collision::Discrete(1, 3, Vec3::new(4, 0, 0)),
        Collision::Discrete(2, 1, Vec3::new(1, 0, 0)),
    ];
    assert_eq!(winners(&cs), vec![false, true, true, false, true, false, true]);
}

#[test]
fn sweep_stops_and_slides() {
    // Moving +6000 along x and +1000 along y, stopped at a quarter with the
    // normal along x: x stops one unit short of 1500, y keeps the rest of its
    // motion (249 nudged, then 750 of slide).
    let t = moved((0, 0, 0), (6000, 1000, 0));
    let p = apply_sweep(&t, Fraction { num: 1, den: 4 }, Some(0));
    assert_eq!(p, Vec3::new(1499, 999, 0));
    let q = apply_sweep(&t, Fraction { num: 1, den: 4 }, None);
    assert_eq!(q, Vec3::new(1499, 249, 0));
}

#[test]
fn discrete_correction_is_added_and_clamped() {
    assert_eq!(apply_discrete(Vec3::new(10, 20, 30), Vec3::new(-5, 0, 5)), Vec3::new(5, 20, 35));
    let far = apply_discrete(Vec3::new(268435456, 0, 0), Vec3::new(100, 0, 0));
    assert_eq!(far.x, 268435456);
}

#[test]
fn test_pairs_reports_missing_components() {
    let ts = vec![Some(Transform::new(Vec3::zero())), None];
    let cs = vec![Some(Collider::new(unit_box(), false)), Some(Collider::new(unit_box(), false))];
    match test_pairs(&vec![(0, 1)], &ts, &cs) {
        Err(e) => assert_eq!(e, CollisionError::MissingComponent(1)),
        Ok(_) => panic!("expected an error"),
    }
}

#[test]
fn tick_resolves_a_discrete_overlap() {
    let mut sys = CollisionSystem::new();
    let mut ts = vec![
        Some(Transform::new(Vec3::new(0, 0, 0))),
        Some(Transform::new(Vec3::new(5000, 0, 0))),
    ];
    let mut cs = vec![Some(Collider::new(unit_box(), false)), Some(Collider::new(unit_box(), false))];
    let report = sys.run(&mut ts, &mut cs, &vec![0, 1], &vec![]).unwrap();
    assert!(report.contacts.is_empty());
    assert!(cs[0].unwrap().index.is_some());

    // The second moves 4500 to the left, into the first, which stands still.
    ts[1] = Some(Transform { pos: Vec3::new(500, 0, 0), last_pos: Vec3::new(5000, 0, 0) });
    let report = sys.run(&mut ts, &mut cs, &vec![], &vec![1]).unwrap();
    assert_eq!(report.contacts, vec![(0, 1), (1, 0)]);
    assert_eq!(ts[0].unwrap().pos, Vec3::new(0, 0, 0));
    assert_eq!(ts[1].unwrap().pos, Vec3::new(1000, 0, 0));
    assert!(report.unhandled.is_empty());
}

#[test]
fn tick_stops_a_sweeping_box() {
    let mut sys = CollisionSystem::new();
    let mut ts = vec![
        Some(Transform::new(Vec3::new(0, 0, 0))),
        Some(Transform::new(Vec3::new(3000, 0, 0))),
    ];
    let mut cs = vec![Some(Collider::new(unit_box(), true)), Some(Collider::new(unit_box(), false))];
    sys.run(&mut ts, &mut cs, &vec![0, 1], &vec![]).unwrap();
    ts[0] = Some(Transform { pos: Vec3::new(6000, 0, 0), last_pos: Vec3::new(0, 0, 0) });
    let report = sys.run(&mut ts, &mut cs, &vec![], &vec![0]).unwrap();
    // Contact at 2000 / 6000 of the step: the box stops one unit short.
    assert_eq!(ts[0].unwrap().pos, Vec3::new(1999, 0, 0));
    assert_eq!(ts[1].unwrap().pos, Vec3::new(3000, 0, 0));
    assert_eq!(report.contacts.len(), 2);
}

#[test]
fn sweep_hit_fields() {
    let h = SweepHit { first: Fraction { num: 0, den: 1 }, last: Fraction { num: 1, den: 1 }, normal: None };
    assert_eq!(h.first.num, 0);
}

#[test]
fn velocity_moves_and_transform_system_settles() {
    let mut ts = vec![Some(Transform::new(Vec3::new(0, 0, 0))), None, Some(Transform::new(Vec3::new(5, 5, 5)))];
    let vs = vec![Some(Velocity { pos: Vec3::new(10, -3, 0) }), Some(Velocity { pos: Vec3::new(1, 1, 1) }), Some(Velocity { pos: Vec3::zero() })];
    let moved = VelocitySystem.run(&mut ts, &vs);
    assert_eq!(moved, vec![0]);
    assert_eq!(ts[0].unwrap(), Transform { pos: Vec3::new(10, -3, 0), last_pos: Vec3::new(0, 0, 0) });
    assert_eq!(ts[2].unwrap().pos, Vec3::new(5, 5, 5));
    TransformSystem.run(&mut ts);
    assert_eq!(ts[0].unwrap(), Transform::new(Vec3::new(10, -3, 0)));
    assert!(ts[1].is_none());
}

#[test]
fn input_list_records_states() {
    let mut list = InputList::new();
    assert_eq!(list.input_state(Input::Left), None);
    list.set_input(Input::Left, InputState::Pressed);
    list.set_input(Input::Up, InputState::Released);
    assert_eq!(list.input_state(Input::Left), Some(InputState::Pressed));
    assert_eq!(list.input_state(Input::Up), Some(InputState::Released));
    assert_eq!(list.input_state(Input::Right), None);
}

#[test]
fn follow_with_stale_handle_fails() {
    let mut sys = CollisionSystem::new();
    let t = Transform::new(Vec3::zero());
    let mut c = Collider::new(unit_box(), false);
    c.index = Some(4);
    assert_eq!(sys.follow(&t, &c), Err(CollisionError::InvalidHandle));
    let fresh = Collider::new(unit_box(), false);
    assert_eq!(sys.follow(&t, &fresh), Ok(()));
}

#[test]
fn tick_reports_circle_pairs_as_unhandled() {
    let mut sys = CollisionSystem::new();
    let circle = Shape::Circle { offset: Vec2 { x: 0, y: 0 }, radius: 500, depth_min: 0, depth_max: 1000 };
    let mut ts = vec![Some(Transform::new(Vec3::zero())), Some(Transform::new(Vec3::new(200, 0, 0)))];
    let mut cs = vec![Some(Collider::new(circle, false)), Some(Collider::new(unit_box(), false))];
    let report = sys.run(&mut ts, &mut cs, &vec![0, 1], &vec![]).unwrap();
    assert_eq!(report.unhandled, vec![(0, 1)]);
    assert!(report.contacts.is_empty());
    assert_eq!(ts[0].unwrap().pos, Vec3::zero());
}

#[test]
fn tick_fails_on_missing_component() {
    let mut sys = CollisionSystem::new();
    let mut ts = vec![Some(Transform::new(Vec3::zero())), Some(Transform::new(Vec3::new(200, 0, 0)))];
    let mut cs = vec![Some(Collider::new(unit_box(), false)), Some(Collider::new(unit_box(), false))];
    sys.prepare(&ts, &mut cs, &vec![0, 1], &vec![]).unwrap();
    ts[1] = None;
    match sys.resolve(&mut ts, &cs) {
        Err(e) => assert_eq!(e, CollisionError::MissingComponent(1)),
        Ok(_) => panic!("expected an error"),
    }
    assert_eq!(ts[0].unwrap().pos, Vec3::zero());
}

#[test]
fn deepest_discrete_correction_wins() {
    // Box 0 moves right into box 1 (overlap 300 along x) and box 2 (a corner
    // overlap whose nearest face is along y, where nobody moved): its
    // correction against box 1 is the larger one and is the one applied.
    let mut sys = CollisionSystem::new();
    let mut ts = vec![
        Some(Transform::new(Vec3::new(0, 0, 0))),
        Some(Transform::new(Vec3::new(1300, 0, 0))),
        Some(Transform::new(Vec3::new(-200, 900, 0))),
    ];
    let mut cs = vec![
        Some(Collider::new(unit_box(), false)),
        Some(Collider::new(unit_box(), false)),
        Some(Collider::new(unit_box(), false)),
    ];
    sys.run(&mut ts, &mut cs, &vec![0, 1, 2], &vec![]).unwrap();
    ts[0] = Some(Transform { pos: Vec3::new(600, 0, 0), last_pos: Vec3::new(0, 0, 0) });
    let report = sys.run(&mut ts, &mut cs, &vec![], &vec![0]).unwrap();
    assert_eq!(ts[0].unwrap().pos, Vec3::new(300, 0, 0));
    assert_eq!(ts[1].unwrap().pos, Vec3::new(1300, 0, 0));
    assert_eq!(ts[2].unwrap().pos, Vec3::new(-200, 900, 0));
    assert_eq!(report.contacts.len(), 3);
    assert!(report.contacts.contains(&(0, 1)));
    assert!(report.contacts.contains(&(1, 0)));
    assert!(report.contacts.contains(&(2, 0)), "{:?}", report.contacts);
    assert!(!report.contacts.contains(&(0, 2)));
}

#[test]
fn sweep_slides_along_z_too() {
    // Normal along y: the rest of the motion along x and z is kept.
    let t = moved((0, 0, 0), (400, 4000, 800));
    let p = apply_sweep(&t, Fraction { num: 1, den: 2 }, Some(1));
    assert_eq!(p, Vec3::new(399, 1999, 799));
    // Normal along z: x and y slide, z stops.
    let q = apply_sweep(&t, Fraction { num: 1, den: 2 }, Some(2));
    assert_eq!(q, Vec3::new(399, 3999, 399));
}

#[test]
fn prepare_tracks_and_follows() {
    let mut sys = CollisionSystem::new();
    let ts = vec![Some(Transform::new(Vec3::new(0, 0, 0))), None, Some(Transform::new(Vec3::new(5000, 0, 0)))];
    let mut cs = vec![
        Some(Collider::new(unit_box(), false)),
        Some(Collider::new(unit_box(), false)),
        Some(Collider::new(unit_box(), true)),
    ];
    sys.prepare(&ts, &mut cs, &vec![0, 1, 2], &vec![]).unwrap();
    assert_eq!(cs[0].unwrap().index, Some(0));
    assert_eq!(cs[1].unwrap().index, None);
    assert_eq!(cs[2].unwrap().index, Some(1));
    assert!(cs[2].unwrap().sweep);
}

#[test]
fn convoy_of_sweeping_boxes_is_left_alone() {
    let mut sys = CollisionSystem::new();
    let mut ts = vec![Some(Transform::new(Vec3::new(0, 0, 0))), Some(Transform::new(Vec3::new(0, 1200, 0)))];
    let mut cs = vec![Some(Collider::new(unit_box(), true)), Some(Collider::new(unit_box(), true))];
    sys.run(&mut ts, &mut cs, &vec![0, 1], &vec![]).unwrap();
    ts[0] = Some(Transform { pos: Vec3::new(3000, 0, 0), last_pos: Vec3::new(0, 0, 0) });
    ts[1] = Some(Transform { pos: Vec3::new(3000, 1200, 0), last_pos: Vec3::new(0, 1200, 0) });
    let report = sys.run(&mut ts, &mut cs, &vec![], &vec![0, 1]).unwrap();
    assert!(report.contacts.is_empty());
    assert_eq!(ts[0].unwrap().pos, Vec3::new(3000, 0, 0));
    assert_eq!(ts[1].unwrap().pos, Vec3::new(3000, 1200, 0));
}
