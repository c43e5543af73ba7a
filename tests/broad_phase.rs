use collide::broad_phase::{BroadPhase, Cell, GridError, Object};
use collide::collider::Bound;
use collide::geometry::{Rect3, Vec3};

fn bound(min: (i64, i64, i64), max: (i64, i64, i64)) -> Bound {
    Bound { rect: Rect3::new(Vec3::new(min.0, min.1, min.2), Vec3::new(max.0, max.1, max.2)) }
}

fn obj(b: Bound, entity: u32) -> Object<u32> {
    Object { bound: b, entity }
}

#[test]
fn collision_pairs() {
    let mut bp: BroadPhase<u32> = BroadPhase::new();
    let obj1 = obj(bound((0, 0, 0), (750, 750, 1000)), 1);
    let obj2 = obj(bound((740, 0, 0), (1000, 1000, 1000)), 1);
    let obj3 = obj(bound((0, 740, 0), (1000, 1000, 1000)), 1);

    let idx1 = bp.insert(obj1);
    let idx2 = bp.insert(obj2);
    let idx3 = bp.insert(obj3);

    assert_eq!(bp.for_each().len(), 3);

    bp.remove(idx1).unwrap();
    bp.update(idx2, obj2.bound).unwrap();
    bp.update(idx3, obj3.bound).unwrap();
    assert_eq!(bp.for_each().len(), 1);
}

#[test]
fn single_object_yields_no_pairs() {
    let mut bp: BroadPhase<u32> = BroadPhase::new();
    bp.insert(obj(bound((0, 0, 0), (1000, 1000, 1000)), 7));
    assert!(bp.for_each().is_empty());
}

#[test]
fn overlapping_pair_reported_once_in_either_order() {
    // The overlap spans many cells; the pair still comes once.
    let a = obj(bound((0, 0, 0), (1000, 1000, 1000)), 10);
    let b = obj(bound((500, 500, 0), (1500, 1500, 1000)), 20);

    let mut bp: BroadPhase<u32> = BroadPhase::new();
    bp.insert(a);
    bp.insert(b);
    assert_eq!(bp.pairs(), vec![(0, 1)]);

    let mut bp: BroadPhase<u32> = BroadPhase::new();
    bp.insert(b);
    bp.insert(a);
    let found = bp.for_each();
    assert_eq!(found.len(), 1);
    assert_eq!(found[0], (20, 10));
}

#[test]
fn touching_objects_are_no_pair() {
    let mut bp: BroadPhase<u32> = BroadPhase::new();
    bp.insert(obj(bound((0, 0, 0), (1000, 1000, 1000)), 1));
    bp.insert(obj(bound((1000, 0, 0), (2000, 1000, 1000)), 2));
    assert!(bp.for_each().is_empty());
}

#[test]
fn removing_one_of_two_colliding_leaves_no_pairs() {
    let mut bp: BroadPhase<u32> = BroadPhase::new();
    let i = bp.insert(obj(bound((0, 0, 0), (1000, 1000, 1000)), 1));
    let j = bp.insert(obj(bound((500, 0, 0), (1500, 1000, 1000)), 2));
    bp.remove(i).unwrap();
    assert!(bp.for_each().is_empty());
    bp.update(j, bound((400, 0, 0), (1400, 1000, 1000))).unwrap();
    assert!(bp.for_each().is_empty());
}

#[test]
fn query_twice_returns_nothing_the_second_time() {
    let mut bp: BroadPhase<u32> = BroadPhase::new();
    bp.insert(obj(bound((0, 0, 0), (1000, 1000, 1000)), 1));
    bp.insert(obj(bound((500, 0, 0), (1500, 1000, 1000)), 2));
    assert_eq!(bp.for_each().len(), 1);
    assert!(bp.for_each().is_empty());
}

#[test]
fn update_moves_cells() {
    let mut bp: BroadPhase<u32> = BroadPhase::new();
    let i = bp.insert(obj(bound((0, 0, 0), (150, 150, 1000)), 1));
    // Cells (0..2) x (0..2).
    assert_eq!(bp.cell_objects(0, 0), Some(vec![i]));
    assert_eq!(bp.cell_objects(1, 1), Some(vec![i]));
    assert_eq!(bp.cell_objects(2, 0), None);

    bp.update(i, bound((1000, 1000, 0), (1050, 1050, 1000))).unwrap();
    assert_eq!(bp.cell_objects(0, 0), None);
    assert_eq!(bp.cell_objects(1, 1), None);
    assert_eq!(bp.cell_objects(10, 10), Some(vec![i]));
    assert_eq!(bp.cell_objects(11, 10), None);
}

#[test]
fn update_keeps_cells_with_other_members() {
    let mut bp: BroadPhase<u32> = BroadPhase::new();
    let i = bp.insert(obj(bound((0, 0, 0), (50, 50, 1000)), 1));
    let j = bp.insert(obj(bound((10, 10, 0), (60, 60, 1000)), 2));
    bp.update(i, bound((500, 500, 0), (550, 550, 1000))).unwrap();
    assert_eq!(bp.cell_objects(0, 0), Some(vec![j]));
    assert_eq!(bp.cell_objects(5, 5), Some(vec![i]));
}

#[test]
fn negative_coordinates_use_floor_and_ceil() {
    let mut bp: BroadPhase<u32> = BroadPhase::new();
    let i = bp.insert(obj(bound((-150, -50, 0), (-10, 50, 1000)), 1));
    // x cells -2..0, y cells -1..1.
    assert_eq!(bp.cell_objects(-2, -1), Some(vec![i]));
    assert_eq!(bp.cell_objects(-1, 0), Some(vec![i]));
    assert_eq!(bp.cell_objects(0, 0), None);
    assert_eq!(bp.cell_objects(-3, 0), None);
}

#[test]
fn slots_are_reused_oldest_first() {
    let mut bp: BroadPhase<u32> = BroadPhase::new();
    let b = bound((0, 0, 0), (10, 10, 10));
    let a0 = bp.insert(obj(b, 0));
    let a1 = bp.insert(obj(b, 1));
    let a2 = bp.insert(obj(b, 2));
    assert_eq!((a0, a1, a2), (0, 1, 2));
    bp.remove(a2).unwrap();
    bp.remove(a0).unwrap();
    assert_eq!(bp.insert(obj(b, 3)), 2);
    assert_eq!(bp.insert(obj(b, 4)), 0);
    assert_eq!(bp.insert(obj(b, 5)), 3);
    assert_eq!(bp.len(), 4);
    assert_eq!(bp.get(0).map(|o| o.entity), Some(4));
}

#[test]
fn invalid_handles_are_refused() {
    let mut bp: BroadPhase<u32> = BroadPhase::new();
    let b = bound((0, 0, 0), (10, 10, 10));
    assert_eq!(bp.update(0, b), Err(GridError::InvalidHandle));
    assert_eq!(bp.remove(3), Err(GridError::InvalidHandle));
    let i = bp.insert(obj(b, 0));
    bp.remove(i).unwrap();
    assert_eq!(bp.remove(i), Err(GridError::InvalidHandle));
    assert_eq!(bp.update(i, b), Err(GridError::InvalidHandle));
    assert!(bp.get(i).is_none());
}

#[test]
fn new_cell_is_empty() {
    assert!(Cell::new().objects.is_empty());
}
