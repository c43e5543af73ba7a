use vstd::prelude::*;
use crate::collider::{Bound, Collider, Shape, has_area};
use crate::geometry::{
    COORD_LIMIT, Fraction, SweepHit, Vec3, origin, penetration, penetration_vector, sweep_aabb,
    sweep_spec,
};

verus! {

/// Where an entity is this tick and where it was the tick before.
#[derive(Clone, Copy, Debug, PartialEq, Eq, Structural)]
pub struct Transform {
    pub pos: Vec3,
    pub last_pos: Vec3,
}

impl Transform {
    /// An entity at rest at `pos`.
    pub fn new(pos: Vec3) -> (r: Transform)
        ensures
            r == (Transform { pos, last_pos: pos }),
    {
        Transform { pos, last_pos: pos }
    }

    /// Both positions lie within `COORD_LIMIT`.
    pub open spec fn wf(self) -> bool {
        self.pos.within(COORD_LIMIT as int) && self.last_pos.within(COORD_LIMIT as int)
    }

    /// How far the entity moved this tick.
    pub open spec fn disp(self) -> Vec3 {
        self.pos.minus(self.last_pos)
    }
}

/// The bound that the grid holds for a collider: at the current position, or,
/// in sweep mode, the union of the bounds at the previous and the current
/// position, so that the grid cannot miss a cell the object passed through.
pub open spec fn tracked_bound(c: Collider, t: Transform) -> Bound {
    if c.sweep {
        Bound { rect: c.shape.bound_at(t.last_pos) }.hull(Bound { rect: c.shape.bound_at(t.pos) })
    } else {
        Bound { rect: c.shape.bound_at(t.pos) }
    }
}

pub fn swept_bound(c: &Collider, t: &Transform) -> (r: Bound)
    requires
        c.shape.wf(),
        t.wf(),
    ensures
        r == tracked_bound(*c, *t),
        r.rect.wf(),
        has_area(r),
{
    if c.sweep {
        let old_bound = c.shape.bound(t.last_pos);
        let new_bound = c.shape.bound(t.pos);
        old_bound.union(&new_bound)
    } else {
        c.shape.bound(t.pos)
    }
}

/// `v * num / den`, rounded toward zero.
pub open spec fn scale(v: int, num: int, den: int) -> int {
    if v >= 0 {
        (v * num) / den
    } else {
        -(((-v) * num) / den)
    }
}

/// The part of the correction `p` that falls to an entity that moved `a`
/// while the other moved `b` (both magnitudes): `p * a / (a + b)` rounded
/// toward zero, and nothing when neither moved.
pub open spec fn share(p: int, a: int, b: int) -> int {
    if a + b == 0 {
        0
    } else {
        scale(p, a, a + b)
    }
}

pub open spec fn abs(v: int) -> int {
    if v < 0 {
        -v
    } else {
        v
    }
}

proof fn lemma_scale_bounded(v: int, num: int, den: int)
    requires
        -4 * COORD_LIMIT <= v <= 4 * COORD_LIMIT,
        0 <= num <= den,
        0 < den <= 8 * COORD_LIMIT,
    ensures
        0 <= abs(v) * num <= 4 * COORD_LIMIT * (8 * COORD_LIMIT),
        abs(scale(v, num, den)) <= abs(v),
{
    let m = abs(v);
    assert(0 <= m * num <= 4 * COORD_LIMIT * (8 * COORD_LIMIT)) by (nonlinear_arith)
        requires
            0 <= m <= 4 * COORD_LIMIT,
            0 <= num <= 8 * COORD_LIMIT,
    ;
    assert((m * num) / den <= m) by (nonlinear_arith)
        requires
            0 <= m,
            0 <= num <= den,
            0 < den,
    {
        assert(m * num <= m * den);
        vstd::arithmetic::div_mod::lemma_div_is_ordered(m * num, m * den, den);
        vstd::arithmetic::div_mod::lemma_div_multiples_vanish(m, den);
    }
    assert(0 <= (m * num) / den) by (nonlinear_arith)
        requires
            0 <= m * num,
            0 < den,
    ;
}

/// `v * num / den` rounded toward zero, for `0 <= num <= den`.
fn scale_exec(v: i64, num: i64, den: i64) -> (r: i64)
    requires
        -4 * COORD_LIMIT <= v <= 4 * COORD_LIMIT,
        0 <= num <= den,
        0 < den <= 8 * COORD_LIMIT,
    ensures
        r == scale(v as int, num as int, den as int),
        abs(r as int) <= abs(v as int),
{
    proof {
        lemma_scale_bounded(v as int, num as int, den as int);
    }
    if v >= 0 {
        (v * num) / den
    } else {
        let m: i64 = -v;
        -((m * num) / den)
    }
}

/// The corrections of a discrete collision with penetration vector `pen`,
/// split axis by axis between the first entity (which moved `d1`) and the
/// second (which moved `d2`): the first takes `share(pen, |d1|, |d2|)`, the
/// second the rest of `pen`, in the opposite direction.
pub open spec fn split_axis(p: int, a: int, b: int) -> (int, int) {
    let s = share(p, abs(a), abs(b));
    if abs(a) + abs(b) == 0 {
        (0, 0)
    } else {
        (s, -(p - s))
    }
}

pub open spec fn split_spec(pen: Vec3, d1: Vec3, d2: Vec3) -> (Vec3, Vec3) {
    let x = split_axis(pen.x as int, d1.x as int, d2.x as int);
    let y = split_axis(pen.y as int, d1.y as int, d2.y as int);
    let z = split_axis(pen.z as int, d1.z as int, d2.z as int);
    (
        Vec3 { x: x.0 as i64, y: y.0 as i64, z: z.0 as i64 },
        Vec3 { x: x.1 as i64, y: y.1 as i64, z: z.1 as i64 },
    )
}

fn split_one(p: i64, a: i64, b: i64) -> (r: (i64, i64))
    requires
        -4 * COORD_LIMIT <= p <= 4 * COORD_LIMIT,
        -2 * COORD_LIMIT <= a <= 2 * COORD_LIMIT,
        -2 * COORD_LIMIT <= b <= 2 * COORD_LIMIT,
    ensures
        r.0 == split_axis(p as int, a as int, b as int).0,
        r.1 == split_axis(p as int, a as int, b as int).1,
        -4 * COORD_LIMIT <= r.0 <= 4 * COORD_LIMIT,
        -8 * COORD_LIMIT <= r.1 <= 8 * COORD_LIMIT,
{
    let aa: i64 = if a < 0 { -a } else { a };
    let bb: i64 = if b < 0 { -b } else { b };
    if aa + bb == 0 {
        (0, 0)
    } else {
        let s = scale_exec(p, aa, aa + bb);
        (s, -(p - s))
    }
}

/// Splits the penetration vector `pen` of a discrete collision between the
/// two entities, in proportion to how far each moved this tick.
pub fn split_correction(pen: Vec3, d1: Vec3, d2: Vec3) -> (r: (Vec3, Vec3))
    requires
        pen.within(4 * COORD_LIMIT),
        d1.within(2 * COORD_LIMIT),
        d2.within(2 * COORD_LIMIT),
    ensures
        r == split_spec(pen, d1, d2),
        r.0.within(4 * COORD_LIMIT),
        r.1.within(8 * COORD_LIMIT),
{
    let x = split_one(pen.x, d1.x, d2.x);
    let y = split_one(pen.y, d1.y, d2.y);
    let z = split_one(pen.z, d1.z, d2.z);
    (Vec3 { x: x.0, y: y.0, z: z.0 }, Vec3 { x: x.1, y: y.1, z: z.1 })
}

/// The two corrections of a discrete collision together make up the
/// penetration vector on each axis along which either entity moved, and
/// neither entity is corrected along an axis along which neither moved.
pub proof fn lemma_split_adds_up(pen: Vec3, d1: Vec3, d2: Vec3)
    requires
        pen.within(4 * COORD_LIMIT),
        d1.within(2 * COORD_LIMIT),
        d2.within(2 * COORD_LIMIT),
    ensures
        ({
            let (c1, c2) = split_spec(pen, d1, d2);
            &&& abs(d1.x as int) + abs(d2.x as int) != 0 ==> c1.x - c2.x == pen.x
            &&& abs(d1.y as int) + abs(d2.y as int) != 0 ==> c1.y - c2.y == pen.y
            &&& abs(d1.z as int) + abs(d2.z as int) != 0 ==> c1.z - c2.z == pen.z
            &&& abs(d1.x as int) + abs(d2.x as int) == 0 ==> c1.x == 0 && c2.x == 0
            &&& abs(d1.y as int) + abs(d2.y as int) == 0 ==> c1.y == 0 && c2.y == 0
            &&& abs(d1.z as int) + abs(d2.z as int) == 0 ==> c1.z == 0 && c2.z == 0
        }),
{
    lemma_split_axis_bounded(pen.x as int, d1.x as int, d2.x as int);
    lemma_split_axis_bounded(pen.y as int, d1.y as int, d2.y as int);
    lemma_split_axis_bounded(pen.z as int, d1.z as int, d2.z as int);
}

proof fn lemma_split_axis_bounded(p: int, a: int, b: int)
    requires
        -4 * COORD_LIMIT <= p <= 4 * COORD_LIMIT,
        -2 * COORD_LIMIT <= a <= 2 * COORD_LIMIT,
        -2 * COORD_LIMIT <= b <= 2 * COORD_LIMIT,
    ensures
        -4 * COORD_LIMIT <= split_axis(p, a, b).0 <= 4 * COORD_LIMIT,
        -8 * COORD_LIMIT <= split_axis(p, a, b).1 <= 8 * COORD_LIMIT,
{
    if abs(a) + abs(b) != 0 {
        lemma_scale_bounded(p, abs(a), abs(a) + abs(b));
    }
}

/// What the exact test of one candidate pair found.
#[derive(Clone, Copy, Debug, PartialEq, Eq, Structural)]
pub enum PairOutcome {
    /// Tested: the two do not collide.
    Apart,
    /// Two boxes overlap; the corrections of the first and second entity.
    Discrete(Vec3, Vec3),
    /// Two boxes, one of them in sweep mode, meet during the step.
    Sweep(SweepHit),
    /// No exact test exists for this pairing of shapes (any circle).
    Unhandled,
}

/// The exact test of a pair: discrete penetration for two boxes that do not
/// sweep, the swept test (from the previous positions, over this tick's
/// displacements) when either sweeps, and nothing for any other shapes.
#[verifier::opaque]
pub open spec fn classify_spec(c1: Collider, t1: Transform, c2: Collider, t2: Transform) -> PairOutcome {
    match (c1.shape, c2.shape) {
        (Shape::AABB(r1), Shape::AABB(r2)) => {
            if !c1.sweep && !c2.sweep {
                let pen = penetration(r1.shifted(t1.pos), r2.shifted(t2.pos));
                if pen == origin() {
                    PairOutcome::Apart
                } else {
                    let (a, b) = split_spec(pen, t1.disp(), t2.disp());
                    PairOutcome::Discrete(a, b)
                }
            } else {
                match sweep_spec(r1.shifted(t1.last_pos), r2.shifted(t2.last_pos), t2.disp().minus(t1.disp())) {
                    Some(h) => PairOutcome::Sweep(h),
                    None => PairOutcome::Apart,
                }
            }
        },
        _ => PairOutcome::Unhandled,
    }
}

pub fn classify(c1: &Collider, t1: &Transform, c2: &Collider, t2: &Transform) -> (r: PairOutcome)
    requires
        c1.shape.wf(),
        c2.shape.wf(),
        t1.wf(),
        t2.wf(),
    ensures
        r == classify_spec(*c1, *t1, *c2, *t2),
        r matches PairOutcome::Discrete(a, b) ==> a.within(4 * COORD_LIMIT) && b.within(8 * COORD_LIMIT),
        r matches PairOutcome::Sweep(h) ==> h.wf() && h.first.in_unit(),
{
    reveal(classify_spec);
    match (&c1.shape, &c2.shape) {
        (Shape::AABB(r1), Shape::AABB(r2)) => {
            let disp1 = t1.pos.sub(&t1.last_pos);
            let disp2 = t2.pos.sub(&t2.last_pos);
            if !c1.sweep && !c2.sweep {
                let w1 = c1.shape.bound(t1.pos);
                let w2 = c2.shape.bound(t2.pos);
                let pen = penetration_vector(w1.rect, w2.rect);
                if pen.x == 0 && pen.y == 0 && pen.z == 0 {
                    PairOutcome::Apart
                } else {
                    let (a, b) = split_correction(pen, disp1, disp2);
                    PairOutcome::Discrete(a, b)
                }
            } else {
                match sweep_aabb(*r1, t1.last_pos, disp1, *r2, t2.last_pos, disp2) {
                    Some(h) => PairOutcome::Sweep(h),
                    None => PairOutcome::Apart,
                }
            }
        },
        _ => PairOutcome::Unhandled,
    }
}

/// A candidate correction for one entity, found this tick.
#[derive(Clone, Copy, Debug, PartialEq, Eq, Structural)]
pub enum Collision {
    /// `(entity, other, time of impact, normal axis)`.
    Sweep(usize, usize, Fraction, Option<usize>),
    /// `(entity, other, correction)`.
    Discrete(usize, usize, Vec3),
}

/// The values that a candidate's numbers stay within.
pub open spec fn candidate_ok(c: Collision) -> bool {
    match c {
        Collision::Sweep(_, _, t, _) => t.wf() && t.in_unit(),
        Collision::Discrete(_, _, d) => d.within(8 * COORD_LIMIT),
    }
}

/// Candidate `k` survives conflict resolution: a sweep whose time of impact
/// is the earliest among its entity's sweeps (ties all survive), or a
/// discrete correction that is the first of largest squared magnitude among
/// its entity's discrete corrections.
pub open spec fn wins(cs: Seq<Collision>, k: int) -> bool {
    match cs[k] {
        Collision::Sweep(e, _, t, _) => forall|m: int|
            0 <= m < cs.len() ==> match #[trigger] cs[m] {
                Collision::Sweep(e2, _, t2, _) => e2 == e ==> !t2.less(t),
                _ => true,
            },
        Collision::Discrete(e, _, d) => forall|m: int|
            0 <= m < cs.len() ==> match #[trigger] cs[m] {
                Collision::Discrete(e2, _, d2) => e2 == e ==> (if m < k {
                    d2.magnitude2() < d.magnitude2()
                } else {
                    d2.magnitude2() <= d.magnitude2()
                }),
                _ => true,
            },
    }
}

fn magnitude2(v: &Vec3) -> (r: i128)
    requires
        v.within(8 * COORD_LIMIT),
    ensures
        r == v.magnitude2(),
{
    let (x, y, z) = (v.x as i128, v.y as i128, v.z as i128);
    proof {
        assert(x * x <= 8 * COORD_LIMIT * (8 * COORD_LIMIT)) by (nonlinear_arith)
            requires
                -8 * COORD_LIMIT <= x <= 8 * COORD_LIMIT,
        ;
        assert(y * y <= 8 * COORD_LIMIT * (8 * COORD_LIMIT)) by (nonlinear_arith)
            requires
                -8 * COORD_LIMIT <= y <= 8 * COORD_LIMIT,
        ;
        assert(z * z <= 8 * COORD_LIMIT * (8 * COORD_LIMIT)) by (nonlinear_arith)
            requires
                -8 * COORD_LIMIT <= z <= 8 * COORD_LIMIT,
        ;
        assert(0 <= x * x && 0 <= y * y && 0 <= z * z) by (nonlinear_arith);
    }
    x * x + y * y + z * z
}

/// Whether candidate `m` takes precedence over candidate `k` (same entity,
/// same kind, and earlier or larger as `wins` demands).
fn beaten_by(k_c: &Collision, k: usize, m_c: &Collision, m: usize) -> (r: bool)
    requires
        candidate_ok(*k_c),
        candidate_ok(*m_c),
    ensures
        r == !(match *m_c {
            Collision::Sweep(e2, _, t2, _) => match *k_c {
                Collision::Sweep(e, _, t, _) => e2 == e ==> !t2.less(t),
                _ => true,
            },
            Collision::Discrete(e2, _, d2) => match *k_c {
                Collision::Discrete(e, _, d) => e2 == e ==> (if m < k {
                    d2.magnitude2() < d.magnitude2()
                } else {
                    d2.magnitude2() <= d.magnitude2()
                }),
                _ => true,
            },
        }),
{
    match (k_c, m_c) {
        (Collision::Sweep(e, _, t, _), Collision::Sweep(e2, _, t2, _)) => *e2 == *e && t2.lt(t),
        (Collision::Discrete(e, _, d), Collision::Discrete(e2, _, d2)) => {
            if *e2 != *e {
                false
            } else if m < k {
                magnitude2(d2) >= magnitude2(d)
            } else {
                magnitude2(d2) > magnitude2(d)
            }
        },
        _ => false,
    }
}

/// For each candidate, whether it survives conflict resolution.
pub fn winners(cs: &Vec<Collision>) -> (r: Vec<bool>)
    requires
        forall|k: int| 0 <= k < cs@.len() ==> candidate_ok(#[trigger] cs@[k]),
    ensures
        r@.len() == cs@.len(),
        forall|k: int| 0 <= k < cs@.len() ==> #[trigger] r@[k] == wins(cs@, k),
{
    let mut r: Vec<bool> = Vec::new();
    let mut k: usize = 0;
    while k < cs.len()
        invariant
            forall|t: int| 0 <= t < cs@.len() ==> candidate_ok(#[trigger] cs@[t]),
            k <= cs@.len(),
            r@.len() == k,
            forall|t: int| 0 <= t < k ==> #[trigger] r@[t] == wins(cs@, t),
        decreases cs@.len() - k,
    {
        let mut ok = true;
        let mut m: usize = 0;
        while m < cs.len()
            invariant
                forall|t: int| 0 <= t < cs@.len() ==> candidate_ok(#[trigger] cs@[t]),
                k < cs@.len(),
                m <= cs@.len(),
                ok == forall|t: int| 0 <= t < m ==> match #[trigger] cs@[t] {
                    Collision::Sweep(e2, _, t2, _) => match cs@[k as int] {
                        Collision::Sweep(e, _, tk, _) => e2 == e ==> !t2.less(tk),
                        _ => true,
                    },
                    Collision::Discrete(e2, _, d2) => match cs@[k as int] {
                        Collision::Discrete(e, _, d) => e2 == e ==> (if t < k {
                            d2.magnitude2() < d.magnitude2()
                        } else {
                            d2.magnitude2() <= d.magnitude2()
                        }),
                        _ => true,
                    },
                },
            decreases cs@.len() - m,
        {
            if beaten_by(&cs[k], k, &cs[m], m) {
                ok = false;
            }
            m = m + 1;
        }
        r.push(ok);
        proof {
            assert(r@[k as int] == wins(cs@, k as int));
        }
        k = k + 1;
    }
    r
}

/// `v` limited to `[-COORD_LIMIT, COORD_LIMIT]`.
pub open spec fn clamp(v: int) -> int {
    if v < -COORD_LIMIT {
        -COORD_LIMIT as int
    } else if v > COORD_LIMIT {
        COORD_LIMIT as int
    } else {
        v
    }
}

fn clamp_exec(v: i64) -> (r: i64)
    ensures
        r == clamp(v as int),
{
    if v < -COORD_LIMIT {
        -COORD_LIMIT
    } else if v > COORD_LIMIT {
        COORD_LIMIT
    } else {
        v
    }
}

/// `m` moved one world unit toward zero: it keeps the entity from ending
/// exactly on the surface it hit.
pub open spec fn nudge(m: int) -> int {
    if m > 0 {
        m - 1
    } else if m < 0 {
        m + 1
    } else {
        0
    }
}

/// Where a swept entity ends up on one axis: its previous position, plus its
/// displacement `d` scaled by the time of impact and nudged back, plus, on
/// the axis along which it slides, the rest of its displacement.
pub open spec fn swept_axis(last: int, d: int, toi: Fraction, slides: bool) -> int {
    let moved = nudge(scale(d, toi.num as int, toi.den as int));
    let slide = if slides {
        scale(d, toi.den - toi.num, toi.den as int)
    } else {
        0
    };
    clamp(last + moved + slide)
}

/// The entity slides along axis `i`: the axis lies in the plane tangent to
/// the collision normal.
pub open spec fn slides_along(normal: Option<usize>, i: usize) -> bool {
    normal matches Some(n) && n != i
}

/// The position of a swept entity after it stops at the time of impact and
/// slides on along the surface: the rest of its motion, projected onto the
/// plane tangent to the normal (every axis but the normal's), is kept.
pub open spec fn apply_sweep_spec(t: Transform, toi: Fraction, normal: Option<usize>) -> Vec3 {
    let d = t.disp();
    Vec3 {
        x: swept_axis(t.last_pos.x as int, d.x as int, toi, slides_along(normal, 0)) as i64,
        y: swept_axis(t.last_pos.y as int, d.y as int, toi, slides_along(normal, 1)) as i64,
        z: swept_axis(t.last_pos.z as int, d.z as int, toi, slides_along(normal, 2)) as i64,
    }
}

fn swept_axis_exec(last: i64, d: i64, toi: Fraction, slides: bool) -> (r: i64)
    requires
        -COORD_LIMIT <= last <= COORD_LIMIT,
        -2 * COORD_LIMIT <= d <= 2 * COORD_LIMIT,
        toi.wf(),
        toi.in_unit(),
    ensures
        r == swept_axis(last as int, d as int, toi, slides),
        -COORD_LIMIT <= r <= COORD_LIMIT,
{
    let m = scale_exec(d, toi.num, toi.den);
    let moved = if m > 0 {
        m - 1
    } else if m < 0 {
        m + 1
    } else {
        0
    };
    let slide = if slides {
        scale_exec(d, toi.den - toi.num, toi.den)
    } else {
        0
    };
    clamp_exec(last + moved + slide)
}

/// Moves a swept entity to where it meets the obstacle, and lets it slide.
pub fn apply_sweep(t: &Transform, toi: Fraction, normal: Option<usize>) -> (r: Vec3)
    requires
        t.wf(),
        toi.wf(),
        toi.in_unit(),
    ensures
        r == apply_sweep_spec(*t, toi, normal),
        r.within(COORD_LIMIT as int),
{
    let d = t.pos.sub(&t.last_pos);
    let (sx, sy, sz) = match normal {
        Some(n) => (n != 0, n != 1, n != 2),
        None => (false, false, false),
    };
    Vec3 {
        x: swept_axis_exec(t.last_pos.x, d.x, toi, sx),
        y: swept_axis_exec(t.last_pos.y, d.y, toi, sy),
        z: swept_axis_exec(t.last_pos.z, d.z, toi, sz),
    }
}

/// The position after a discrete correction `d`, kept within the limit.
pub open spec fn apply_discrete_spec(pos: Vec3, d: Vec3) -> Vec3 {
    Vec3 {
        x: clamp(pos.x + d.x) as i64,
        y: clamp(pos.y + d.y) as i64,
        z: clamp(pos.z + d.z) as i64,
    }
}

pub fn apply_discrete(pos: Vec3, d: Vec3) -> (r: Vec3)
    requires
        pos.within(COORD_LIMIT as int),
        d.within(8 * COORD_LIMIT),
    ensures
        r == apply_discrete_spec(pos, d),
        r.within(COORD_LIMIT as int),
{
    Vec3 {
        x: clamp_exec(pos.x + d.x),
        y: clamp_exec(pos.y + d.y),
        z: clamp_exec(pos.z + d.z),
    }
}

} // verus!
