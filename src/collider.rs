use vstd::prelude::*;
use crate::geometry::{COORD_LIMIT, Rect3, Vec2, Vec3};

verus! {

/// The shape of a collider, relative to its entity's position. Shapes are
/// planar; the depth axis places them for ordering and overlap.
#[derive(Clone, Copy, Debug, PartialEq, Eq, Structural)]
pub enum Shape {
    AABB(Rect3),
    Circle {
        /// Offset of the circle's bounding square from the position.
        offset: Vec2,
        radius: i64,
        depth_min: i64,
        depth_max: i64,
    },
}

/// A box in world space that encloses a collider.
#[derive(Clone, Copy, Debug, PartialEq, Eq, Structural)]
pub struct Bound {
    pub rect: Rect3,
}

/// The box has positive extent in the plane.
pub open spec fn has_area(b: Bound) -> bool {
    b.rect.min.x < b.rect.max.x && b.rect.min.y < b.rect.max.y
}

impl Shape {
    /// Every coordinate of the shape lies within `COORD_LIMIT`, its extent
    /// in the plane is positive (no zero-area shapes), and its depth range
    /// is not negative.
    pub open spec fn wf(self) -> bool {
        match self {
            Shape::AABB(r) => {
                &&& r.min.within(COORD_LIMIT as int)
                &&& r.max.within(COORD_LIMIT as int)
                &&& r.min.x < r.max.x
                &&& r.min.y < r.max.y
                &&& r.min.z <= r.max.z
            },
            Shape::Circle { offset, radius, depth_min, depth_max } => {
                &&& -COORD_LIMIT / 2 <= offset.x <= COORD_LIMIT / 2
                &&& -COORD_LIMIT / 2 <= offset.y <= COORD_LIMIT / 2
                &&& 0 < radius <= COORD_LIMIT / 4
                &&& -COORD_LIMIT <= depth_min <= depth_max <= COORD_LIMIT
            },
        }
    }

    /// The world-space box that encloses the shape placed at `pos`.
    pub open spec fn bound_at(self, pos: Vec3) -> Rect3 {
        match self {
            Shape::AABB(r) => r.shifted(pos),
            Shape::Circle { offset, radius, depth_min, depth_max } => Rect3 {
                min: Vec3 {
                    x: (pos.x + offset.x) as i64,
                    y: (pos.y + offset.y) as i64,
                    z: (pos.z + depth_min) as i64,
                },
                max: Vec3 {
                    x: (pos.x + offset.x + 2 * radius) as i64,
                    y: (pos.y + offset.y + 2 * radius) as i64,
                    z: (pos.z + depth_max) as i64,
                },
            },
        }
    }

    pub fn bound(&self, pos: Vec3) -> (r: Bound)
        requires
            self.wf(),
            pos.within(COORD_LIMIT as int),
        ensures
            r.rect == self.bound_at(pos),
            r.rect.wf(),
            has_area(r),
    {
        match self {
            Shape::AABB(local) => Bound { rect: local.translate(&pos) },
            Shape::Circle { offset, radius, depth_min, depth_max } => Bound {
                rect: Rect3 {
                    min: Vec3 { x: pos.x + offset.x, y: pos.y + offset.y, z: pos.z + *depth_min },
                    max: Vec3 {
                        x: pos.x + offset.x + 2 * *radius,
                        y: pos.y + offset.y + 2 * *radius,
                        z: pos.z + *depth_max,
                    },
                },
            },
        }
    }
}

impl Bound {
    /// The smallest box that holds both `self` and `o`.
    pub open spec fn hull(self, o: Bound) -> Bound {
        Bound {
            rect: Rect3 {
                min: Vec3 {
                    x: if self.rect.min.x <= o.rect.min.x { self.rect.min.x } else { o.rect.min.x },
                    y: if self.rect.min.y <= o.rect.min.y { self.rect.min.y } else { o.rect.min.y },
                    z: if self.rect.min.z <= o.rect.min.z { self.rect.min.z } else { o.rect.min.z },
                },
                max: Vec3 {
                    x: if self.rect.max.x >= o.rect.max.x { self.rect.max.x } else { o.rect.max.x },
                    y: if self.rect.max.y >= o.rect.max.y { self.rect.max.y } else { o.rect.max.y },
                    z: if self.rect.max.z >= o.rect.max.z { self.rect.max.z } else { o.rect.max.z },
                },
            },
        }
    }

    /// The axis-wise union of two bounds (min of mins, max of maxes).
    pub fn union(&self, o: &Bound) -> (r: Bound)
        ensures
            r == self.hull(*o),
            self.rect.wf() && o.rect.wf() ==> r.rect.wf(),
            has_area(*self) && has_area(*o) ==> has_area(r),
    {
        let a = &self.rect;
        let b = &o.rect;
        Bound {
            rect: Rect3 {
                min: Vec3 {
                    x: if a.min.x <= b.min.x { a.min.x } else { b.min.x },
                    y: if a.min.y <= b.min.y { a.min.y } else { b.min.y },
                    z: if a.min.z <= b.min.z { a.min.z } else { b.min.z },
                },
                max: Vec3 {
                    x: if a.max.x >= b.max.x { a.max.x } else { b.max.x },
                    y: if a.max.y >= b.max.y { a.max.y } else { b.max.y },
                    z: if a.max.z >= b.max.z { a.max.z } else { b.max.z },
                },
            },
        }
    }
}

/// A collider: its shape, whether it moves in sweep mode, and its handle in
/// the broad phase once it has been inserted there.
#[derive(Clone, Copy, Debug, PartialEq, Eq, Structural)]
pub struct Collider {
    pub shape: Shape,
    pub sweep: bool,
    pub index: Option<usize>,
}

impl Collider {
    pub fn new(shape: Shape, sweep: bool) -> (r: Collider)
        ensures
            r == (Collider { shape, sweep, index: None }),
    {
        Collider { shape, sweep, index: None }
    }
}

} // verus!
