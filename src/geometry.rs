use vstd::prelude::*;

verus! {

/// The largest magnitude of a coordinate, a position or a displacement that
/// the geometry functions accept (2^28 world units).
pub const COORD_LIMIT: i64 = 268435456;

/// A point or a displacement in world units. Positions and displacements
/// handed to this library lie within `COORD_LIMIT` on every axis; boxes in
/// world space within twice that.
#[derive(Clone, Copy, Debug, PartialEq, Eq, Structural)]
pub struct Vec3 {
    pub x: i64,
    pub y: i64,
    pub z: i64,
}

/// A point in the plane, used for grid cell coordinates.
#[derive(Clone, Copy, Debug, PartialEq, Eq, Structural)]
pub struct Vec2 {
    pub x: i64,
    pub y: i64,
}

impl Vec3 {
    /// The component on axis `i` (0: x, 1: y, 2: z).
    pub open spec fn at(self, i: int) -> int {
        if i == 0 {
            self.x as int
        } else if i == 1 {
            self.y as int
        } else {
            self.z as int
        }
    }

    /// Every component lies in `[-lim, lim]`.
    pub open spec fn within(self, lim: int) -> bool {
        &&& -lim <= self.x <= lim
        &&& -lim <= self.y <= lim
        &&& -lim <= self.z <= lim
    }

    pub fn new(x: i64, y: i64, z: i64) -> (r: Vec3)
        ensures
            r == (Vec3 { x, y, z }),
    {
        Vec3 { x, y, z }
    }

    pub open spec fn zero_spec() -> Vec3 {
        Vec3 { x: 0, y: 0, z: 0 }
    }

    pub fn zero() -> (r: Vec3)
        ensures
            r == Vec3::zero_spec(),
    {
        Vec3 { x: 0, y: 0, z: 0 }
    }

    pub open spec fn plus(self, o: Vec3) -> Vec3 {
        Vec3 { x: (self.x + o.x) as i64, y: (self.y + o.y) as i64, z: (self.z + o.z) as i64 }
    }

    pub open spec fn minus(self, o: Vec3) -> Vec3 {
        Vec3 { x: (self.x - o.x) as i64, y: (self.y - o.y) as i64, z: (self.z - o.z) as i64 }
    }

    /// Component-wise sum.
    pub fn add(&self, o: &Vec3) -> (r: Vec3)
        requires
            self.within(2 * COORD_LIMIT),
            o.within(2 * COORD_LIMIT),
        ensures
            r == self.plus(*o),
            r.at(0) == self.at(0) + o.at(0),
            r.at(1) == self.at(1) + o.at(1),
            r.at(2) == self.at(2) + o.at(2),
    {
        Vec3 { x: self.x + o.x, y: self.y + o.y, z: self.z + o.z }
    }

    /// Component-wise difference.
    pub fn sub(&self, o: &Vec3) -> (r: Vec3)
        requires
            self.within(2 * COORD_LIMIT),
            o.within(2 * COORD_LIMIT),
        ensures
            r == self.minus(*o),
            r.at(0) == self.at(0) - o.at(0),
            r.at(1) == self.at(1) - o.at(1),
            r.at(2) == self.at(2) - o.at(2),
    {
        Vec3 { x: self.x - o.x, y: self.y - o.y, z: self.z - o.z }
    }

    /// The squared Euclidean length, as a mathematical integer.
    pub open spec fn magnitude2(self) -> int {
        self.x * self.x + self.y * self.y + self.z * self.z
    }
}


/// An axis-aligned rectangle in the plane, used for ranges of grid cells.
#[derive(Clone, Copy, Debug, PartialEq, Eq, Structural)]
pub struct Rect2 {
    pub min: Vec2,
    pub max: Vec2,
}

/// An axis-aligned box: planar x/y plus a depth z.
#[derive(Clone, Copy, Debug, PartialEq, Eq, Structural)]
pub struct Rect3 {
    pub min: Vec3,
    pub max: Vec3,
}

impl Rect2 {
    pub fn new(min: Vec2, max: Vec2) -> (r: Rect2)
        ensures
            r == (Rect2 { min, max }),
    {
        Rect2 { min, max }
    }

    /// Strict overlap on both axes: rectangles that only touch do not intersect.
    pub open spec fn intersects(self, o: Rect2) -> bool {
        &&& self.min.x < o.max.x && self.max.x > o.min.x
        &&& self.min.y < o.max.y && self.max.y > o.min.y
    }

    /// Adds a depth range, giving a box.
    pub fn extend(self, min_z: i64, max_z: i64) -> (r: Rect3)
        ensures
            r == (Rect3 {
                min: Vec3 { x: self.min.x, y: self.min.y, z: min_z },
                max: Vec3 { x: self.max.x, y: self.max.y, z: max_z },
            }),
    {
        Rect3 {
            min: Vec3 { x: self.min.x, y: self.min.y, z: min_z },
            max: Vec3 { x: self.max.x, y: self.max.y, z: max_z },
        }
    }

    pub fn is_intersecting(self, other: Rect2) -> (r: bool)
        ensures
            r == self.intersects(other),
    {
        (self.min.x < other.max.x && self.max.x > other.min.x) && (self.min.y < other.max.y
            && self.max.y > other.min.y)
    }

    /// The set of all `a - b` for `a` in `self` and `b` in `other`.
    pub fn minowski_difference(&self, other: Rect2) -> (r: Rect2)
        requires
            -2 * COORD_LIMIT <= self.min.x <= 2 * COORD_LIMIT,
            -2 * COORD_LIMIT <= self.min.y <= 2 * COORD_LIMIT,
            -2 * COORD_LIMIT <= self.max.x <= 2 * COORD_LIMIT,
            -2 * COORD_LIMIT <= self.max.y <= 2 * COORD_LIMIT,
            -2 * COORD_LIMIT <= other.min.x <= 2 * COORD_LIMIT,
            -2 * COORD_LIMIT <= other.min.y <= 2 * COORD_LIMIT,
            -2 * COORD_LIMIT <= other.max.x <= 2 * COORD_LIMIT,
            -2 * COORD_LIMIT <= other.max.y <= 2 * COORD_LIMIT,
        ensures
            r.min.x == self.min.x - other.max.x,
            r.min.y == self.min.y - other.max.y,
            r.max.x == self.max.x - other.min.x,
            r.max.y == self.max.y - other.min.y,
    {
        Rect2 {
            min: Vec2 { x: self.min.x - other.max.x, y: self.min.y - other.max.y },
            max: Vec2 { x: self.max.x - other.min.x, y: self.max.y - other.min.y },
        }
    }
}

impl Rect3 {
    /// Well-formed: `max >= min` on every axis, every corner within the limit.
    pub open spec fn wf(self) -> bool {
        &&& self.min.within(2 * COORD_LIMIT)
        &&& self.max.within(2 * COORD_LIMIT)
        &&& self.min.x <= self.max.x
        &&& self.min.y <= self.max.y
        &&& self.min.z <= self.max.z
    }

    pub fn new(min: Vec3, max: Vec3) -> (r: Rect3)
        ensures
            r == (Rect3 { min, max }),
    {
        Rect3 { min, max }
    }

    /// Strict overlap on all three axes: boxes that only touch do not intersect.
    pub open spec fn intersects(self, o: Rect3) -> bool {
        &&& self.min.x < o.max.x && self.max.x > o.min.x
        &&& self.min.y < o.max.y && self.max.y > o.min.y
        &&& self.min.z < o.max.z && self.max.z > o.min.z
    }

    /// The box moved by `d`.
    pub open spec fn shifted(self, d: Vec3) -> Rect3 {
        Rect3 { min: self.min.plus(d), max: self.max.plus(d) }
    }

    /// Drops the depth axis.
    pub fn truncate(self) -> (r: Rect2)
        ensures
            r == (Rect2 {
                min: Vec2 { x: self.min.x, y: self.min.y },
                max: Vec2 { x: self.max.x, y: self.max.y },
            }),
    {
        Rect2::new(Vec2 { x: self.min.x, y: self.min.y }, Vec2 { x: self.max.x, y: self.max.y })
    }

    pub fn is_intersecting(self, other: Rect3) -> (r: bool)
        ensures
            r == self.intersects(other),
    {
        (self.min.x < other.max.x && self.max.x > other.min.x) && (self.min.y < other.max.y
            && self.max.y > other.min.y) && (self.min.z < other.max.z && self.max.z > other.min.z)
    }

    /// The box moved by `d`.
    pub fn translate(&self, d: &Vec3) -> (r: Rect3)
        requires
            self.min.within(2 * COORD_LIMIT),
            self.max.within(2 * COORD_LIMIT),
            d.within(2 * COORD_LIMIT),
        ensures
            r == self.shifted(*d),
            r.min.at(0) == self.min.at(0) + d.at(0),
            r.min.at(1) == self.min.at(1) + d.at(1),
            r.min.at(2) == self.min.at(2) + d.at(2),
            r.max.at(0) == self.max.at(0) + d.at(0),
            r.max.at(1) == self.max.at(1) + d.at(1),
            r.max.at(2) == self.max.at(2) + d.at(2),
    {
        Rect3 { min: self.min.add(d), max: self.max.add(d) }
    }

    /// The set of all `a - b` for `a` in `self` and `b` in `other`: the
    /// translations of `other` that make it overlap `self`.
    pub open spec fn difference(self, other: Rect3) -> Rect3 {
        Rect3 { min: self.min.minus(other.max), max: self.max.minus(other.min) }
    }

    pub fn minowski_difference(&self, other: Rect3) -> (r: Rect3)
        requires
            self.wf(),
            other.wf(),
        ensures
            r == self.difference(other),
            r.min.within(4 * COORD_LIMIT),
            r.max.within(4 * COORD_LIMIT),
    {
        Rect3 { min: self.min.sub(&other.max), max: self.max.sub(&other.min) }
    }
}

// The faces of a box are numbered in the order in which they are compared:
// 0 min x, 1 max x, 2 max y, 3 min y, 4 max z, 5 min z.

/// The axis of face `k`.
pub open spec fn face_axis(k: int) -> int {
    k / 2
}

/// The coordinate of face `k` of `rect` on its axis.
pub open spec fn face_coord(rect: Rect3, k: int) -> int {
    if k == 0 {
        rect.min.x as int
    } else if k == 1 {
        rect.max.x as int
    } else if k == 2 {
        rect.max.y as int
    } else if k == 3 {
        rect.min.y as int
    } else if k == 4 {
        rect.max.z as int
    } else {
        rect.min.z as int
    }
}

/// The distance from `p` to the plane of face `k` of `rect`.
pub open spec fn face_dist(rect: Rect3, p: Vec3, k: int) -> int {
    let d = face_coord(rect, k) - p.at(face_axis(k));
    if d < 0 {
        -d
    } else {
        d
    }
}

/// `p` projected onto the plane of face `k` of `rect`.
pub open spec fn face_point(rect: Rect3, p: Vec3, k: int) -> Vec3 {
    let c = face_coord(rect, k) as i64;
    if face_axis(k) == 0 {
        Vec3 { x: c, y: p.y, z: p.z }
    } else if face_axis(k) == 1 {
        Vec3 { x: p.x, y: c, z: p.z }
    } else {
        Vec3 { x: p.x, y: p.y, z: c }
    }
}

/// Face `k` is nearest to `p`, and of the faces as near, it comes last in
/// the order of comparison.
pub open spec fn is_closest_face(rect: Rect3, p: Vec3, k: int) -> bool {
    &&& 0 <= k < 6
    &&& forall|j: int| 0 <= j < 6 ==> face_dist(rect, p, k) <= #[trigger] face_dist(rect, p, j)
    &&& forall|j: int| k < j < 6 ==> face_dist(rect, p, k) < #[trigger] face_dist(rect, p, j)
}

/// The face of `rect` nearest to `p` (the last one among equally near faces).
pub open spec fn closest_face(rect: Rect3, p: Vec3) -> int {
    choose|k: int| is_closest_face(rect, p, k)
}

/// At most one face is the closest one.
pub proof fn lemma_closest_face_unique(rect: Rect3, p: Vec3, k1: int, k2: int)
    requires
        is_closest_face(rect, p, k1),
        is_closest_face(rect, p, k2),
    ensures
        k1 == k2,
{
    if k1 < k2 {
        assert(face_dist(rect, p, k1) < face_dist(rect, p, k2));
        assert(face_dist(rect, p, k2) <= face_dist(rect, p, k1));
    } else if k2 < k1 {
        assert(face_dist(rect, p, k2) < face_dist(rect, p, k1));
        assert(face_dist(rect, p, k1) <= face_dist(rect, p, k2));
    }
}

fn abs_diff(a: i64, b: i64) -> (r: i64)
    requires
        -4 * COORD_LIMIT <= a <= 4 * COORD_LIMIT,
        -4 * COORD_LIMIT <= b <= 4 * COORD_LIMIT,
    ensures
        r == (if a - b < 0 { b - a } else { a - b }),
{
    if a < b {
        b - a
    } else {
        a - b
    }
}

/// The index of the face of `rect` nearest to `point`.
fn nearest_face(rect: &Rect3, point: &Vec3) -> (k: usize)
    requires
        rect.min.within(4 * COORD_LIMIT),
        rect.max.within(4 * COORD_LIMIT),
        point.within(4 * COORD_LIMIT),
    ensures
        is_closest_face(*rect, *point, k as int),
{
    let mut k: usize = 0;
    let mut min_dist = abs_diff(rect.min.x, point.x);
    let mut j: usize = 1;
    while j < 6
        invariant
            1 <= j <= 6,
            k < j,
            rect.min.within(4 * COORD_LIMIT),
            rect.max.within(4 * COORD_LIMIT),
            point.within(4 * COORD_LIMIT),
            min_dist == face_dist(*rect, *point, k as int),
            forall|i: int| 0 <= i < j ==> min_dist <= #[trigger] face_dist(*rect, *point, i),
            forall|i: int| k < i < j ==> min_dist < #[trigger] face_dist(*rect, *point, i),
        decreases 6 - j,
    {
        let (c, p) = if j == 1 {
            (rect.max.x, point.x)
        } else if j == 2 {
            (rect.max.y, point.y)
        } else if j == 3 {
            (rect.min.y, point.y)
        } else if j == 4 {
            (rect.max.z, point.z)
        } else {
            (rect.min.z, point.z)
        };
        let d = abs_diff(c, p);
        assert(d == face_dist(*rect, *point, j as int));
        if d <= min_dist {
            min_dist = d;
            k = j;
        }
        j = j + 1;
    }
    k
}

/// The point on the surface of `rect` nearest to `point`, found by comparing
/// the distance to each face's plane in turn (a later face wins a tie).
pub fn closest_bounds_point_to_point(rect: Rect3, point: Vec3) -> (r: Vec3)
    requires
        rect.min.within(4 * COORD_LIMIT),
        rect.max.within(4 * COORD_LIMIT),
        point.within(4 * COORD_LIMIT),
    ensures
        r == face_point(rect, point, closest_face(rect, point)),
{
    let k = nearest_face(&rect, &point);
    proof {
        lemma_closest_face_unique(rect, point, k as int, closest_face(rect, point));
    }
    if k == 0 {
        Vec3 { x: rect.min.x, y: point.y, z: point.z }
    } else if k == 1 {
        Vec3 { x: rect.max.x, y: point.y, z: point.z }
    } else if k == 2 {
        Vec3 { x: point.x, y: rect.max.y, z: point.z }
    } else if k == 3 {
        Vec3 { x: point.x, y: rect.min.y, z: point.z }
    } else if k == 4 {
        Vec3 { x: point.x, y: point.y, z: rect.max.z }
    } else {
        Vec3 { x: point.x, y: point.y, z: rect.min.z }
    }
}

pub open spec fn origin() -> Vec3 {
    Vec3 { x: 0, y: 0, z: 0 }
}

/// The minimum translation of `r1` that ends its overlap with `r2`: the point
/// nearest the origin on the surface of the Minkowski difference of `r2` and
/// `r1`; zero when the boxes do not overlap.
pub open spec fn penetration(r1: Rect3, r2: Rect3) -> Vec3 {
    if r1.intersects(r2) {
        let md = r2.difference(r1);
        face_point(md, origin(), closest_face(md, origin()))
    } else {
        origin()
    }
}

pub fn penetration_vector(r1: Rect3, r2: Rect3) -> (r: Vec3)
    requires
        r1.wf(),
        r2.wf(),
    ensures
        r == penetration(r1, r2),
        r.within(4 * COORD_LIMIT),
{
    if r1.is_intersecting(r2) {
        let md = r2.minowski_difference(r1);
        closest_bounds_point_to_point(md, Vec3::zero())
    } else {
        Vec3::zero()
    }
}

/// Moving the first box by its penetration vector leaves the two boxes
/// apart (at most touching).
pub proof fn lemma_penetration_separates(r1: Rect3, r2: Rect3)
    requires
        r1.wf(),
        r2.wf(),
    ensures
        !r1.shifted(penetration(r1, r2)).intersects(r2),
{
    if r1.intersects(r2) {
        let md = r2.difference(r1);
        let k = lemma_closest_face_exists(md, origin());
        lemma_closest_face_unique(md, origin(), k, closest_face(md, origin()));
    }
}

/// Some face is the closest one.
pub proof fn lemma_closest_face_exists(rect: Rect3, p: Vec3) -> (k: int)
    ensures
        is_closest_face(rect, p, k),
{
    let d0 = face_dist(rect, p, 0);
    let d1 = face_dist(rect, p, 1);
    let d2 = face_dist(rect, p, 2);
    let d3 = face_dist(rect, p, 3);
    let d4 = face_dist(rect, p, 4);
    let d5 = face_dist(rect, p, 5);
    let k = if d5 <= d0 && d5 <= d1 && d5 <= d2 && d5 <= d3 && d5 <= d4 {
        5
    } else if d4 <= d0 && d4 <= d1 && d4 <= d2 && d4 <= d3 && d4 < d5 {
        4
    } else if d3 <= d0 && d3 <= d1 && d3 <= d2 && d3 < d4 && d3 < d5 {
        3
    } else if d2 <= d0 && d2 <= d1 && d2 < d3 && d2 < d4 && d2 < d5 {
        2
    } else if d1 <= d0 && d1 < d2 && d1 < d3 && d1 < d4 && d1 < d5 {
        1
    } else {
        0
    };
    assert forall|j: int| 0 <= j < 6 implies face_dist(rect, p, k) <= #[trigger] face_dist(
        rect,
        p,
        j,
    ) by {
        assert(j == 0 || j == 1 || j == 2 || j == 3 || j == 4 || j == 5);
    }
    assert forall|j: int| k < j < 6 implies face_dist(rect, p, k) < #[trigger] face_dist(
        rect,
        p,
        j,
    ) by {
        assert(j == 1 || j == 2 || j == 3 || j == 4 || j == 5);
    }
    k
}


/// The bound on the numerators and denominators of times of impact
/// (8 * COORD_LIMIT).
pub const TIME_LIMIT: i64 = 2147483648;

/// An exact fraction `num / den`, with `den > 0`.
#[derive(Clone, Copy, Debug, PartialEq, Eq, Structural)]
pub struct Fraction {
    pub num: i64,
    pub den: i64,
}

proof fn lemma_mul_bounded(a: int, b: int)
    requires
        -TIME_LIMIT <= a <= TIME_LIMIT,
        0 <= b <= TIME_LIMIT,
    ensures
        -TIME_LIMIT * TIME_LIMIT <= a * b <= TIME_LIMIT * TIME_LIMIT,
{
    assert(-TIME_LIMIT * TIME_LIMIT <= a * b <= TIME_LIMIT * TIME_LIMIT) by (nonlinear_arith)
        requires
            -TIME_LIMIT <= a <= TIME_LIMIT,
            0 <= b <= TIME_LIMIT,
    ;
}

impl Fraction {
    pub open spec fn wf(self) -> bool {
        &&& 0 < self.den <= TIME_LIMIT
        &&& -TIME_LIMIT <= self.num <= TIME_LIMIT
    }

    /// `self < o` as rational numbers.
    pub open spec fn less(self, o: Fraction) -> bool {
        self.num * o.den < o.num * self.den
    }

    /// `self <= o` as rational numbers.
    pub open spec fn at_most(self, o: Fraction) -> bool {
        self.num * o.den <= o.num * self.den
    }

    pub open spec fn zero() -> Fraction {
        Fraction { num: 0, den: 1 }
    }

    pub open spec fn one() -> Fraction {
        Fraction { num: 1, den: 1 }
    }

    /// Lies in `[0, 1]`.
    pub open spec fn in_unit(self) -> bool {
        0 <= self.num <= self.den
    }

    pub fn lt(&self, o: &Fraction) -> (r: bool)
        requires
            self.wf(),
            o.wf(),
        ensures
            r == self.less(*o),
    {
        proof {
            lemma_mul_bounded(self.num as int, o.den as int);
            lemma_mul_bounded(o.num as int, self.den as int);
        }
        self.num * o.den < o.num * self.den
    }
}

/// `a <= b <= c` as fractions gives `a <= c`.
proof fn lemma_at_most_trans(a: Fraction, b: Fraction, c: Fraction)
    requires
        a.den > 0,
        b.den > 0,
        c.den > 0,
        a.at_most(b),
        b.at_most(c),
    ensures
        a.at_most(c),
{
    let (an, ad, bn, bd, cn, cd) = (
        a.num as int,
        a.den as int,
        b.num as int,
        b.den as int,
        c.num as int,
        c.den as int,
    );
    assert(an * cd <= cn * ad) by (nonlinear_arith)
        requires
            ad > 0,
            bd > 0,
            cd > 0,
            an * bd <= bn * ad,
            bn * cd <= cn * bd,
    {
        assert(an * bd * cd <= bn * ad * cd);
        assert(bn * cd * ad <= cn * bd * ad);
        assert(an * cd * bd <= cn * ad * bd);
    }
}

/// The outcome of a swept box test: the fractions of the step at which the
/// boxes first and last touch, and the axis whose constraint fixed the time of
/// first contact (`None` when they touch from the start).
#[derive(Clone, Copy, Debug, PartialEq, Eq, Structural)]
pub struct SweepHit {
    pub first: Fraction,
    pub last: Fraction,
    pub normal: Option<usize>,
}

impl SweepHit {
    pub open spec fn wf(self) -> bool {
        &&& self.first.wf()
        &&& self.last.wf()
        &&& 0 <= self.first.num
        &&& self.last.num <= self.last.den
    }
}

/// One axis of the slab test. The stationary box spans `[a_min, a_max]`, the
/// moving one `[b_min, b_max]`, and `v` is its displacement relative to the
/// stationary one. `None`: the boxes are apart on this axis and not moving
/// closer, or the window of contact has closed.
pub open spec fn sweep_axis_spec(
    h: SweepHit,
    a_min: int,
    a_max: int,
    b_min: int,
    b_max: int,
    v: int,
    axis: int,
) -> Option<SweepHit> {
    if v == 0 {
        // No relative motion on this axis: the boxes stay as they are.
        if b_max < a_min || b_min > a_max {
            None
        } else {
            Some(h)
        }
    } else if (v < 0 && b_max < a_min) || (v > 0 && b_min > a_max) {
        None
    } else {
        let speed = if v < 0 {
            -v
        } else {
            v
        };
        // Apart now, approaching: the gap closes at the time of entry.
        let gap = if v < 0 {
            b_min - a_max
        } else {
            a_min - b_max
        };
        // Overlapping, touching or approaching: the contact ends at the time
        // of exit (at once, for boxes that touch and move apart).
        let span = if v < 0 {
            b_max - a_min
        } else {
            a_max - b_min
        };
        let entry = Fraction { num: gap as i64, den: speed as i64 };
        let exit = Fraction { num: span as i64, den: speed as i64 };
        let h1 = if gap > 0 && h.first.less(entry) {
            SweepHit { first: entry, normal: Some(axis as usize), ..h }
        } else {
            h
        };
        let h2 = if span >= 0 && exit.less(h1.last) {
            SweepHit { last: exit, ..h1 }
        } else {
            h1
        };
        if h2.last.less(h2.first) {
            None
        } else {
            Some(h2)
        }
    }
}

/// The swept test of the moving box `b` against the moving box `a` over one
/// step, with `v` the displacement of `b` relative to `a`: the slab test on
/// the axes x, y and z in turn, from the window `[0, 1]`.
pub open spec fn sweep_spec(a: Rect3, b: Rect3, v: Vec3) -> Option<SweepHit> {
    let h0 = SweepHit { first: Fraction::zero(), last: Fraction::one(), normal: None };
    match sweep_axis_spec(h0, a.min.at(0), a.max.at(0), b.min.at(0), b.max.at(0), v.at(0), 0) {
        None => None,
        Some(h1) => match sweep_axis_spec(
            h1,
            a.min.at(1),
            a.max.at(1),
            b.min.at(1),
            b.max.at(1),
            v.at(1),
            1,
        ) {
            None => None,
            Some(h2) => sweep_axis_spec(
                h2,
                a.min.at(2),
                a.max.at(2),
                b.min.at(2),
                b.max.at(2),
                v.at(2),
                2,
            ),
        },
    }
}

fn sweep_axis(h: SweepHit, a_min: i64, a_max: i64, b_min: i64, b_max: i64, v: i64, axis: usize) -> (r:
    Option<SweepHit>)
    requires
        h.wf(),
        h.first.at_most(h.last),
        -4 * COORD_LIMIT <= a_min <= 4 * COORD_LIMIT,
        -4 * COORD_LIMIT <= a_max <= 4 * COORD_LIMIT,
        -4 * COORD_LIMIT <= b_min <= 4 * COORD_LIMIT,
        -4 * COORD_LIMIT <= b_max <= 4 * COORD_LIMIT,
        -4 * COORD_LIMIT <= v <= 4 * COORD_LIMIT,
    ensures
        r == sweep_axis_spec(h, a_min as int, a_max as int, b_min as int, b_max as int, v as int, axis as int),
        r matches Some(h2) ==> h2.wf() && h2.first.at_most(h2.last),
{
    if v == 0 {
        if b_max < a_min || b_min > a_max {
            return None;
        }
        return Some(h);
    }
    if (v < 0 && b_max < a_min) || (v > 0 && b_min > a_max) {
        return None;
    }
    let speed = if v < 0 { -v } else { v };
    let gap = if v < 0 { b_min - a_max } else { a_min - b_max };
    let span = if v < 0 { b_max - a_min } else { a_max - b_min };
    let entry = Fraction { num: gap, den: speed };
    let exit = Fraction { num: span, den: speed };
    let mut h1 = h;
    if gap > 0 && h.first.lt(&entry) {
        h1 = SweepHit { first: entry, normal: Some(axis), ..h };
    }
    let mut h2 = h1;
    if span >= 0 && exit.lt(&h1.last) {
        h2 = SweepHit { last: exit, ..h1 };
    }
    if h2.last.lt(&h2.first) {
        None
    } else {
        proof {
            lemma_mul_bounded(h2.first.num as int, h2.last.den as int);
            lemma_mul_bounded(h2.last.num as int, h2.first.den as int);
            assert(h1.last.at_most(Fraction::one()));
            if span >= 0 && exit.less(h1.last) {
                lemma_at_most_trans(exit, h1.last, Fraction::one());
            }
        }
        Some(h2)
    }
}

/// At time `t` of the step, the moving box `[b_min, b_max] + t * v` meets
/// `[a_min, a_max]` (touching counts), in exact arithmetic on `t = num / den`.
pub open spec fn axis_overlap(a_min: int, a_max: int, b_min: int, b_max: int, v: int, t: Fraction) -> bool {
    &&& a_min * t.den <= b_max * t.den + t.num * v
    &&& b_min * t.den + t.num * v <= a_max * t.den
}

/// At time `t` of the step, box `b` moved by `t * v` meets box `a` on every axis.
pub open spec fn overlaps_at(a: Rect3, b: Rect3, v: Vec3, t: Fraction) -> bool {
    &&& axis_overlap(a.min.at(0), a.max.at(0), b.min.at(0), b.max.at(0), v.at(0), t)
    &&& axis_overlap(a.min.at(1), a.max.at(1), b.min.at(1), b.max.at(1), v.at(1), t)
    &&& axis_overlap(a.min.at(2), a.max.at(2), b.min.at(2), b.max.at(2), v.at(2), t)
}

/// `t` lies in the window `[h.first, h.last]`.
pub open spec fn in_window(h: SweepHit, t: Fraction) -> bool {
    h.first.at_most(t) && t.at_most(h.last)
}

proof fn lemma_at_most_total(a: Fraction, b: Fraction)
    ensures
        !a.less(b) ==> b.at_most(a),
{
}

proof fn lemma_scaled_order(x: int, y: int, d: int)
    requires
        d > 0,
    ensures
        (x * d <= y * d) == (x <= y),
{
    if x <= y {
        assert(x * d <= y * d) by (nonlinear_arith)
            requires
                x <= y,
                d > 0,
        ;
    } else {
        assert(y * d < x * d) by (nonlinear_arith)
            requires
                y < x,
                d > 0,
        ;
    }
}

proof fn lemma_sweep_axis_window(
    h: SweepHit,
    a_min: int,
    a_max: int,
    b_min: int,
    b_max: int,
    v: int,
    axis: int,
    t: Fraction,
)
    requires
        h.first.den > 0,
        h.last.den > 0,
        t.den > 0,
        0 <= t.num,
        -4 * COORD_LIMIT <= a_min <= 4 * COORD_LIMIT,
        -4 * COORD_LIMIT <= a_max <= 4 * COORD_LIMIT,
        -4 * COORD_LIMIT <= b_min <= 4 * COORD_LIMIT,
        -4 * COORD_LIMIT <= b_max <= 4 * COORD_LIMIT,
        -4 * COORD_LIMIT <= v <= 4 * COORD_LIMIT,
    ensures
        match sweep_axis_spec(h, a_min, a_max, b_min, b_max, v, axis) {
            Some(h2) => {
                &&& h2.first.den > 0
                &&& h2.last.den > 0
                &&& (axis_overlap(a_min, a_max, b_min, b_max, v, t) && in_window(h, t)) == in_window(h2, t)
            },
            None => !(axis_overlap(a_min, a_max, b_min, b_max, v, t) && in_window(h, t)),
        },
{
    let (n, d) = (t.num as int, t.den as int);
    assert(a_min * d - b_max * d == (a_min - b_max) * d) by (nonlinear_arith);
    assert(b_min * d - a_max * d == (b_min - a_max) * d) by (nonlinear_arith);
    assert(a_max * d - b_min * d == (a_max - b_min) * d) by (nonlinear_arith);
    assert(b_max * d - a_min * d == (b_max - a_min) * d) by (nonlinear_arith);
    assert(n * v == -(n * (-v))) by (nonlinear_arith);
    assert(n * v >= 0 || v < 0) by (nonlinear_arith)
        requires
            n >= 0,
    ;
    assert(n * v <= 0 || v > 0) by (nonlinear_arith)
        requires
            n >= 0,
    ;
    if v == 0 {
        assert(n * v == 0) by (nonlinear_arith)
            requires
                v == 0,
        ;
        lemma_scaled_order(a_min, b_max, d);
        lemma_scaled_order(b_min, a_max, d);
    } else if (v < 0 && b_max < a_min) || (v > 0 && b_min > a_max) {
        let speed = if v < 0 { -v } else { v };
        assert(n * speed >= 0) by (nonlinear_arith)
            requires
                n >= 0,
                speed > 0,
        ;
        if v < 0 {
            assert((b_max - a_min) * d < 0) by (nonlinear_arith)
                requires
                    b_max - a_min < 0,
                    d > 0,
            ;
        } else {
            assert((a_max - b_min) * d < 0) by (nonlinear_arith)
                requires
                    a_max - b_min < 0,
                    d > 0,
            ;
        }
    } else {
        let speed = if v < 0 { -v } else { v };
        let gap = if v < 0 { b_min - a_max } else { a_min - b_max };
        let span = if v < 0 { b_max - a_min } else { a_max - b_min };
        let entry = Fraction { num: gap as i64, den: speed as i64 };
        let exit = Fraction { num: span as i64, den: speed as i64 };
        // On this axis the boxes meet exactly from the time of entry to the
        // time of exit.
        assert(axis_overlap(a_min, a_max, b_min, b_max, v, t) == (entry.at_most(t) && t.at_most(exit)));
        if gap <= 0 {
            assert(gap * d <= 0) by (nonlinear_arith)
                requires
                    gap <= 0,
                    d > 0,
            ;
            assert(n * speed >= 0) by (nonlinear_arith)
                requires
                    n >= 0,
                    speed > 0,
            ;
            assert(entry.at_most(t));
        }
        assert(span >= 0);
        let h1 = if gap > 0 && h.first.less(entry) {
            SweepHit { first: entry, normal: Some(axis as usize), ..h }
        } else {
            h
        };
        // first(h1) <= t  <==>  first(h) <= t && entry <= t
        if gap > 0 {
            if h.first.less(entry) {
                if entry.at_most(t) {
                    lemma_at_most_trans(h.first, entry, t);
                }
            } else {
                lemma_at_most_total(h.first, entry);
                if h.first.at_most(t) {
                    lemma_at_most_trans(entry, h.first, t);
                }
            }
        }
        let h2 = if span >= 0 && exit.less(h1.last) {
            SweepHit { last: exit, ..h1 }
        } else {
            h1
        };
        if exit.less(h1.last) {
            if t.at_most(exit) {
                lemma_at_most_trans(t, exit, h1.last);
            }
        } else {
            lemma_at_most_total(exit, h1.last);
            if t.at_most(h1.last) {
                lemma_at_most_trans(t, h1.last, exit);
            }
        }
        assert((axis_overlap(a_min, a_max, b_min, b_max, v, t) && in_window(h, t)) == in_window(h2, t));
        if h2.last.less(h2.first) {
            if in_window(h2, t) {
                lemma_at_most_trans(h2.first, t, h2.last);
            }
        }
    }
}

/// What the swept test finds: for every time `t` of the step (`0 <= t <= 1`),
/// the boxes meet at `t` exactly when `t` lies between the times of first and
/// last contact; and when it finds nothing, they meet at no time of the step.
pub proof fn lemma_sweep_window(a: Rect3, b: Rect3, v: Vec3, t: Fraction)
    requires
        a.min.within(4 * COORD_LIMIT),
        a.max.within(4 * COORD_LIMIT),
        b.min.within(4 * COORD_LIMIT),
        b.max.within(4 * COORD_LIMIT),
        v.within(4 * COORD_LIMIT),
        t.den > 0,
        0 <= t.num <= t.den,
    ensures
        match sweep_spec(a, b, v) {
            Some(h) => overlaps_at(a, b, v, t) == in_window(h, t),
            None => !overlaps_at(a, b, v, t),
        },
{
    let h0 = SweepHit { first: Fraction::zero(), last: Fraction::one(), normal: None };
    assert(in_window(h0, t));
    lemma_sweep_axis_window(h0, a.min.at(0), a.max.at(0), b.min.at(0), b.max.at(0), v.at(0), 0, t);
    match sweep_axis_spec(h0, a.min.at(0), a.max.at(0), b.min.at(0), b.max.at(0), v.at(0), 0) {
        None => {},
        Some(h1) => {
            lemma_sweep_axis_window(h1, a.min.at(1), a.max.at(1), b.min.at(1), b.max.at(1), v.at(1), 1, t);
            match sweep_axis_spec(h1, a.min.at(1), a.max.at(1), b.min.at(1), b.max.at(1), v.at(1), 1) {
                None => {},
                Some(h2) => {
                    lemma_sweep_axis_window(h2, a.min.at(2), a.max.at(2), b.min.at(2), b.max.at(2), v.at(2), 2, t);
                },
            }
        },
    }
}

/// Swept test of two boxes that move over one step: `aabb1` placed at `pos1`
/// moves by `disp1`, `aabb2` placed at `pos2` moves by `disp2`.
pub fn sweep_aabb(aabb1: Rect3, pos1: Vec3, disp1: Vec3, aabb2: Rect3, pos2: Vec3, disp2: Vec3) -> (r:
    Option<SweepHit>)
    requires
        aabb1.wf(),
        aabb2.wf(),
        pos1.within(COORD_LIMIT as int),
        pos2.within(COORD_LIMIT as int),
        disp1.within(2 * COORD_LIMIT),
        disp2.within(2 * COORD_LIMIT),
    ensures
        r == sweep_spec(aabb1.shifted(pos1), aabb2.shifted(pos2), disp2.minus(disp1)),
        r matches Some(h) ==> h.wf() && h.first.at_most(h.last) && h.first.in_unit()
            && h.last.in_unit(),
{
    let a = aabb1.translate(&pos1);
    let b = aabb2.translate(&pos2);
    let v = disp2.sub(&disp1);
    let h0 = SweepHit {
        first: Fraction { num: 0, den: 1 },
        last: Fraction { num: 1, den: 1 },
        normal: None,
    };
    let r = match sweep_axis(h0, a.min.x, a.max.x, b.min.x, b.max.x, v.x, 0) {
        None => None,
        Some(h1) => match sweep_axis(h1, a.min.y, a.max.y, b.min.y, b.max.y, v.y, 1) {
            None => None,
            Some(h2) => sweep_axis(h2, a.min.z, a.max.z, b.min.z, b.max.z, v.z, 2),
        },
    };
    proof {
        if let Some(h) = r {
            assert(h.last.at_most(Fraction::one()));
            lemma_at_most_trans(h.first, h.last, Fraction::one());
        }
    }
    r
}

} // verus!
