use vstd::prelude::*;
use crate::geometry::{COORD_LIMIT, Vec3};
use crate::narrow_phase::{Transform, apply_discrete, apply_discrete_spec};

verus! {

/// How far an entity moves each tick, in world units.
#[derive(Clone, Copy, Debug, PartialEq, Eq, Structural)]
pub struct Velocity {
    pub pos: Vec3,
}

impl Velocity {
    pub open spec fn wf(self) -> bool {
        self.pos.within(COORD_LIMIT as int)
    }
}

/// Entity `e` has a transform and a velocity other than zero.
pub open spec fn moves(ts: Seq<Option<Transform>>, vs: Seq<Option<Velocity>>, e: int) -> bool {
    &&& 0 <= e < ts.len()
    &&& e < vs.len()
    &&& ts[e] is Some
    &&& vs[e] is Some
    &&& vs[e]->Some_0.pos != Vec3::zero_spec()
}

/// Moves every entity that has a velocity.
pub struct VelocitySystem;

impl VelocitySystem {
    /// Adds each entity's velocity to its position (kept within the limit),
    /// and returns the entities whose transform it changed, in order.
    pub fn run(&mut self, ts: &mut Vec<Option<Transform>>, vs: &Vec<Option<Velocity>>) -> (moved: Vec<usize>)
        requires
            forall|e: int| 0 <= e < old(ts)@.len() && old(ts)@[e] is Some ==> (#[trigger] old(ts)@[e])->Some_0.wf(),
            forall|e: int| 0 <= e < vs@.len() && vs@[e] is Some ==> (#[trigger] vs@[e])->Some_0.wf(),
        ensures
            final(ts)@.len() == old(ts)@.len(),
            forall|e: int|
                0 <= e < final(ts)@.len() ==> #[trigger] final(ts)@[e] == (match (old(ts)@[e], if e < vs@.len() {
                    vs@[e]
                } else {
                    None
                }) {
                    (Some(t), Some(v)) => if v.pos == Vec3::zero_spec() {
                        Some(t)
                    } else {
                        Some(Transform { pos: apply_discrete_spec(t.pos, v.pos), last_pos: t.last_pos })
                    },
                    (t, _) => t,
                }),
            forall|e: int| 0 <= e < final(ts)@.len() && final(ts)@[e] is Some ==> (#[trigger] final(ts)@[e])->Some_0.wf(),
            forall|e: usize| #[trigger] moved@.contains(e) <==> moves(old(ts)@, vs@, e as int),
    {
        let ghost ts0 = ts@;
        let mut moved: Vec<usize> = Vec::new();
        let mut e: usize = 0;
        while e < ts.len()
            invariant
                ts@.len() == ts0.len(),
                e <= ts@.len(),
                forall|k: int| 0 <= k < vs@.len() && vs@[k] is Some ==> (#[trigger] vs@[k])->Some_0.wf(),
                forall|k: int| e <= k < ts@.len() ==> #[trigger] ts@[k] == ts0[k],
                forall|k: int| 0 <= k < ts0.len() && ts0[k] is Some ==> (#[trigger] ts0[k])->Some_0.wf(),
                forall|k: int|
                    0 <= k < e ==> #[trigger] ts@[k] == (match (ts0[k], if k < vs@.len() {
                        vs@[k]
                    } else {
                        None
                    }) {
                        (Some(t), Some(v)) => if v.pos == Vec3::zero_spec() {
                            Some(t)
                        } else {
                            Some(Transform { pos: apply_discrete_spec(t.pos, v.pos), last_pos: t.last_pos })
                        },
                        (t, _) => t,
                    }),
                forall|k: int| 0 <= k < e && ts@[k] is Some ==> (#[trigger] ts@[k])->Some_0.wf(),
                forall|x: usize| #[trigger] moved@.contains(x) <==> (x < e && moves(ts0, vs@, x as int)),
            decreases ts0.len() - e,
        {
            if e < vs.len() {
                if let (Some(t), Some(v)) = (ts[e], vs[e]) {
                    if !(v.pos.x == 0 && v.pos.y == 0 && v.pos.z == 0) {
                        proof {
                            assert(ts0[e as int]->Some_0.wf());
                            assert(vs@[e as int]->Some_0.wf());
                        }
                        let pos = apply_discrete(t.pos, v.pos);
                        ts.set(e, Some(Transform { pos, last_pos: t.last_pos }));
                        let ghost m0 = moved@;
                        moved.push(e);
                        proof {
                            assert forall|x: usize| #[trigger] moved@.contains(x) <==> m0.contains(x) || x == e by {
                                if moved@.contains(x) {
                                    let k = choose|k: int| 0 <= k < moved@.len() && moved@[k] == x;
                                    if k < m0.len() {
                                        assert(m0[k] == x);
                                    }
                                }
                                if m0.contains(x) {
                                    let k = choose|k: int| 0 <= k < m0.len() && m0[k] == x;
                                    assert(moved@[k] == x);
                                }
                                if x == e {
                                    assert(moved@[m0.len() as int] == x);
                                }
                            }
                        }
                    }
                }
            }
            e = e + 1;
        }
        moved
    }
}

/// Ends a tick: what an entity's position is now becomes where it was.
pub struct TransformSystem;

impl TransformSystem {
    /// Sets each transform's previous position to its current one.
    pub fn run(&mut self, ts: &mut Vec<Option<Transform>>)
        ensures
            final(ts)@.len() == old(ts)@.len(),
            forall|e: int|
                0 <= e < final(ts)@.len() ==> #[trigger] final(ts)@[e] == (match old(ts)@[e] {
                    Some(t) => Some(Transform { pos: t.pos, last_pos: t.pos }),
                    None => None,
                }),
    {
        let ghost ts0 = ts@;
        let mut e: usize = 0;
        while e < ts.len()
            invariant
                ts@.len() == ts0.len(),
                e <= ts@.len(),
                forall|k: int| e <= k < ts@.len() ==> #[trigger] ts@[k] == ts0[k],
                forall|k: int|
                    0 <= k < e ==> #[trigger] ts@[k] == (match ts0[k] {
                        Some(t) => Some(Transform { pos: t.pos, last_pos: t.pos }),
                        None => None,
                    }),
            decreases ts0.len() - e,
        {
            if let Some(t) = ts[e] {
                if t.last_pos != t.pos {
                    ts.set(e, Some(Transform { pos: t.pos, last_pos: t.pos }));
                }
            }
            e = e + 1;
        }
    }
}

} // verus!
