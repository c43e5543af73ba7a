use vstd::prelude::*;
use crate::broad_phase::{BroadPhase, GridError, Object};
use crate::collider::{Bound, Collider};
use crate::broad_phase::in_cells;
use crate::narrow_phase::{
    Collision, PairOutcome, Transform, apply_discrete, apply_discrete_spec, apply_sweep,
    apply_sweep_spec, candidate_ok, classify, classify_spec, swept_bound, tracked_bound, winners,
    wins,
};

verus! {

/// Why a tick of the collision system was cut short.
#[derive(Clone, Copy, Debug, PartialEq, Eq, Structural)]
pub enum CollisionError {
    /// A collider's handle names no object of the grid.
    InvalidHandle,
    /// The grid reported a pair with an entity that lacks its transform or
    /// its collider.
    MissingComponent(usize),
    /// The grid has no slot left to give out.
    CapacityExceeded,
}

/// What the exact tests of a tick's candidate pairs found.
pub struct Candidates {
    /// The candidate corrections, two for each colliding pair.
    pub collisions: Vec<Collision>,
    /// The pairs for which no exact test exists.
    pub unhandled: Vec<(usize, usize)>,
}

/// Entity `e` has both a transform and a collider.
pub open spec fn complete(ts: Seq<Option<Transform>>, cs: Seq<Option<Collider>>, e: int) -> bool {
    0 <= e < ts.len() && 0 <= e < cs.len() && ts[e] is Some && cs[e] is Some
}

/// Every transform and collider present is well-formed.
pub open spec fn components_ok(ts: Seq<Option<Transform>>, cs: Seq<Option<Collider>>) -> bool {
    &&& forall|e: int| 0 <= e < ts.len() && ts[e] is Some ==> (#[trigger] ts[e])->Some_0.wf()
    &&& forall|e: int| 0 <= e < cs.len() && cs[e] is Some ==> (#[trigger] cs[e])->Some_0.shape.wf()
}

/// The outcome of the exact test of the pair `(e1, e2)`.
pub open spec fn pair_outcome(ts: Seq<Option<Transform>>, cs: Seq<Option<Collider>>, e1: int, e2: int) -> PairOutcome {
    classify_spec(cs[e1]->Some_0, ts[e1]->Some_0, cs[e2]->Some_0, ts[e2]->Some_0)
}

/// The candidates that an outcome gives, one for each side.
pub open spec fn outcome_candidates(e1: usize, e2: usize, o: PairOutcome) -> Seq<Collision> {
    match o {
        PairOutcome::Discrete(a, b) => seq![Collision::Discrete(e1, e2, a), Collision::Discrete(e2, e1, b)],
        PairOutcome::Sweep(h) => seq![
            Collision::Sweep(e1, e2, h.first, h.normal),
            Collision::Sweep(e2, e1, h.first, h.normal),
        ],
        _ => seq![],
    }
}

/// The candidates of a list of pairs, in order.
pub open spec fn collect(ps: Seq<(usize, usize)>, ts: Seq<Option<Transform>>, cs: Seq<Option<Collider>>) -> Seq<Collision>
    decreases ps.len(),
{
    if ps.len() == 0 {
        seq![]
    } else {
        let (e1, e2) = ps.last();
        collect(ps.drop_last(), ts, cs) + outcome_candidates(e1, e2, pair_outcome(ts, cs, e1 as int, e2 as int))
    }
}

/// The pairs of a list whose shapes have no exact test, in order.
pub open spec fn collect_unhandled(ps: Seq<(usize, usize)>, ts: Seq<Option<Transform>>, cs: Seq<Option<Collider>>) -> Seq<(usize, usize)>
    decreases ps.len(),
{
    if ps.len() == 0 {
        seq![]
    } else {
        let rest = collect_unhandled(ps.drop_last(), ts, cs);
        if pair_outcome(ts, cs, ps.last().0 as int, ps.last().1 as int) == PairOutcome::Unhandled {
            rest.push(ps.last())
        } else {
            rest
        }
    }
}

/// Tests the pair `(e1, e2)` exactly, if both have their components.
fn test_pair(e1: usize, e2: usize, ts: &Vec<Option<Transform>>, cs: &Vec<Option<Collider>>) -> (r: Result<PairOutcome, CollisionError>)
    requires
        components_ok(ts@, cs@),
    ensures
        r is Ok <==> complete(ts@, cs@, e1 as int) && complete(ts@, cs@, e2 as int),
        r matches Err(e) ==> e == CollisionError::MissingComponent(e1) && !complete(ts@, cs@, e1 as int)
            || e == CollisionError::MissingComponent(e2) && !complete(ts@, cs@, e2 as int),
        r matches Ok(o) ==> o == pair_outcome(ts@, cs@, e1 as int, e2 as int),
        r matches Ok(o) ==> (o matches PairOutcome::Discrete(a, b) ==> candidate_ok(Collision::Discrete(e1, e2, a))
            && candidate_ok(Collision::Discrete(e2, e1, b))),
        r matches Ok(o) ==> (o matches PairOutcome::Sweep(h) ==> h.first.wf() && h.first.in_unit()),
{
    if e1 >= ts.len() || e1 >= cs.len() || ts[e1].is_none() || cs[e1].is_none() {
        return Err(CollisionError::MissingComponent(e1));
    }
    if e2 >= ts.len() || e2 >= cs.len() || ts[e2].is_none() || cs[e2].is_none() {
        return Err(CollisionError::MissingComponent(e2));
    }
    let t1 = ts[e1].unwrap();
    let c1 = cs[e1].unwrap();
    let t2 = ts[e2].unwrap();
    let c2 = cs[e2].unwrap();
    proof {
        assert(t1.wf() && t2.wf() && c1.shape.wf() && c2.shape.wf());
    }
    Ok(classify(&c1, &t1, &c2, &t2))
}

/// Tests each pair exactly. Fails on the first entity that lacks a component.
pub fn test_pairs(ps: &Vec<(usize, usize)>, ts: &Vec<Option<Transform>>, cs: &Vec<Option<Collider>>) -> (r: Result<Candidates, CollisionError>)
    requires
        components_ok(ts@, cs@),
    ensures
        r is Ok <==> forall|k: int| 0 <= k < ps@.len() ==> complete(ts@, cs@, (#[trigger] ps@[k]).0 as int)
            && complete(ts@, cs@, ps@[k].1 as int),
        r matches Err(e) ==> exists|k: int|
            0 <= k < ps@.len() && (e == CollisionError::MissingComponent((#[trigger] ps@[k]).0) && !complete(ts@, cs@, ps@[k].0 as int)
                || e == CollisionError::MissingComponent(ps@[k].1) && !complete(ts@, cs@, ps@[k].1 as int)),
        r matches Ok(c) ==> c.collisions@ == collect(ps@, ts@, cs@) && c.unhandled@ == collect_unhandled(ps@, ts@, cs@),
        r matches Ok(c) ==> forall|k: int| 0 <= k < c.collisions@.len() ==> candidate_ok(#[trigger] c.collisions@[k]),
{
    let mut collisions: Vec<Collision> = Vec::new();
    let mut unhandled: Vec<(usize, usize)> = Vec::new();
    let mut k: usize = 0;
    while k < ps.len()
        invariant
            components_ok(ts@, cs@),
            k <= ps@.len(),
            forall|t: int| 0 <= t < k ==> complete(ts@, cs@, (#[trigger] ps@[t]).0 as int) && complete(ts@, cs@, ps@[t].1 as int),
            collisions@ == collect(ps@.subrange(0, k as int), ts@, cs@),
            unhandled@ == collect_unhandled(ps@.subrange(0, k as int), ts@, cs@),
            forall|t: int| 0 <= t < collisions@.len() ==> candidate_ok(#[trigger] collisions@[t]),
        decreases ps@.len() - k,
    {
        let (e1, e2) = ps[k];
        let ghost sub = ps@.subrange(0, k + 1);
        proof {
            assert(sub.drop_last() =~= ps@.subrange(0, k as int));
            assert(sub.last() == (e1, e2));
        }
        let o = match test_pair(e1, e2, ts, cs) {
            Ok(o) => o,
            Err(e) => {
                proof {
                    assert(ps@[k as int] == (e1, e2));
                }
                return Err(e);
            },
        };
        let ghost c0 = collisions@;
        match o {
            PairOutcome::Discrete(a, b) => {
                collisions.push(Collision::Discrete(e1, e2, a));
                collisions.push(Collision::Discrete(e2, e1, b));
            },
            PairOutcome::Sweep(h) => {
                collisions.push(Collision::Sweep(e1, e2, h.first, h.normal));
                collisions.push(Collision::Sweep(e2, e1, h.first, h.normal));
            },
            PairOutcome::Unhandled => {
                unhandled.push((e1, e2));
            },
            PairOutcome::Apart => {},
        }
        proof {
            assert(collisions@ =~= c0 + outcome_candidates(e1, e2, o));
            assert(collect(sub, ts@, cs@) == collect(ps@.subrange(0, k as int), ts@, cs@) + outcome_candidates(e1, e2, o));
            assert(forall|t: int| 0 <= t < collisions@.len() ==> candidate_ok(#[trigger] collisions@[t])) by {
                assert forall|t: int| 0 <= t < collisions@.len() implies candidate_ok(#[trigger] collisions@[t]) by {
                    if t < c0.len() {
                        assert(collisions@[t] == c0[t]);
                    }
                }
            }
            assert(ps@[k as int] == (e1, e2));
        }
        k = k + 1;
    }
    proof {
        assert(ps@.subrange(0, k as int) =~= ps@);
    }
    Ok(Candidates { collisions, unhandled })
}

/// The entity a candidate corrects, and the other entity of its pair.
pub open spec fn candidate_ends(c: Collision) -> (usize, usize) {
    match c {
        Collision::Discrete(e, o, _) => (e, o),
        Collision::Sweep(e, o, _, _) => (e, o),
    }
}

/// The transform after the correction `c` is applied to it.
pub open spec fn corrected(t: Transform, c: Collision) -> Transform {
    match c {
        Collision::Discrete(_, _, d) => Transform { pos: apply_discrete_spec(t.pos, d), last_pos: t.last_pos },
        Collision::Sweep(_, _, toi, n) => Transform { pos: apply_sweep_spec(t, toi, n), last_pos: t.last_pos },
    }
}

/// The transforms and the contacts after the first `n` candidates are
/// applied in order, each winner to its entity's transform as it stands then.
pub open spec fn apply_prefix(
    ts: Seq<Option<Transform>>,
    cs: Seq<Collision>,
    win: Seq<bool>,
    n: int,
) -> (Seq<Option<Transform>>, Seq<(usize, usize)>)
    decreases n,
{
    if n <= 0 {
        (ts, seq![])
    } else {
        let (t0, c0) = apply_prefix(ts, cs, win, n - 1);
        let c = cs[n - 1];
        let (e, o) = candidate_ends(c);
        if win[n - 1] && (e as int) < t0.len() && t0[e as int] is Some {
            (t0.update(e as int, Some(corrected(t0[e as int]->Some_0, c))), c0.push((e, o)))
        } else {
            (t0, c0)
        }
    }
}

/// Which candidates survive conflict resolution.
pub open spec fn win_flags(cs: Seq<Collision>) -> Seq<bool> {
    Seq::new(cs.len(), |k: int| wins(cs, k))
}

/// The outcome of resolving the entity pairs `ents`: it succeeds exactly
/// when every entity of every pair has both components, and then the
/// transforms and contacts are those of applying the winning candidates of
/// the pairs in order; a failure changes no transform.
pub open spec fn tick_resolved(
    ts0: Seq<Option<Transform>>,
    cs: Seq<Option<Collider>>,
    ents: Seq<(usize, usize)>,
    ts1: Seq<Option<Transform>>,
    r: Result<TickReport, CollisionError>,
) -> bool {
    let cands = collect(ents, ts0, cs);
    &&& r is Ok <==> forall|k: int| 0 <= k < ents.len() ==> complete(ts0, cs, (#[trigger] ents[k]).0 as int)
        && complete(ts0, cs, ents[k].1 as int)
    &&& r matches Ok(rep) ==> (ts1, rep.contacts@) == apply_prefix(ts0, cands, win_flags(cands), cands.len() as int)
        && rep.unhandled@ == collect_unhandled(ents, ts0, cs)
    &&& r matches Err(e) ==> exists|k: int|
        0 <= k < ents.len() && (e == CollisionError::MissingComponent((#[trigger] ents[k]).0) && !complete(
            ts0,
            cs,
            ents[k].0 as int,
        ) || e == CollisionError::MissingComponent(ents[k].1) && !complete(ts0, cs, ents[k].1 as int))
    &&& r is Err ==> ts1 == ts0
}

/// The slot that the grid gives the next object: the oldest vacated one, or
/// a new one at the end.
pub open spec fn slot_for(slots: Seq<Option<Object<usize>>>, free: Seq<usize>) -> int {
    if free.len() > 0 {
        free[0] as int
    } else {
        slots.len() as int
    }
}

/// The slots after `obj` is inserted.
pub open spec fn placed_slots(
    slots: Seq<Option<Object<usize>>>,
    free: Seq<usize>,
    obj: Object<usize>,
) -> Seq<Option<Object<usize>>> {
    if free.len() > 0 {
        slots.update(free[0] as int, Some(obj))
    } else {
        slots.push(Some(obj))
    }
}

/// The queue of vacated slots after an insertion.
pub open spec fn placed_free(free: Seq<usize>) -> Seq<usize> {
    if free.len() > 0 {
        free.drop_first()
    } else {
        free
    }
}

/// The cells of the range that covers `b`.
pub open spec fn cells_of(b: Bound) -> Set<(int, int)> {
    Set::new(|p: (int, int)| in_cells(b, p.0, p.1))
}

/// Where the preparation of a tick stands: the grid's slots and queue of
/// vacated slots, the colliders, the cells made active so far, and the
/// error that stopped it, if any.
pub struct Prep {
    pub slots: Seq<Option<Object<usize>>>,
    pub free: Seq<usize>,
    pub cs: Seq<Option<Collider>>,
    pub touched: Set<(int, int)>,
    pub err: Option<CollisionError>,
}

/// One step of tracking: entity `e`, if it has both components, gets a grid
/// object with the bound of its shape at its position, and its collider the
/// handle; a full grid stops the preparation.
pub open spec fn track_step(st: Prep, ts: Seq<Option<Transform>>, e: usize) -> Prep {
    if st.err is Some || !complete(ts, st.cs, e as int) {
        st
    } else if st.slots.len() == usize::MAX {
        Prep { err: Some(CollisionError::CapacityExceeded), ..st }
    } else {
        let c = st.cs[e as int]->Some_0;
        let b = Bound { rect: c.shape.bound_at(ts[e as int]->Some_0.pos) };
        let obj = Object { bound: b, entity: e };
        let h = slot_for(st.slots, st.free);
        Prep {
            slots: placed_slots(st.slots, st.free, obj),
            free: placed_free(st.free),
            cs: st.cs.update(e as int, Some(Collider { index: Some(h as usize), ..c })),
            touched: st.touched.union(cells_of(b)),
            err: None,
        }
    }
}

/// One step of following: entity `e`, if it has both components and a
/// handle, has its grid object's bound set to `tracked_bound`; a handle that
/// names no object stops the preparation.
pub open spec fn follow_step(st: Prep, ts: Seq<Option<Transform>>, e: usize) -> Prep {
    if st.err is Some || !complete(ts, st.cs, e as int) {
        st
    } else {
        let c = st.cs[e as int]->Some_0;
        match c.index {
            None => st,
            Some(h) => if !((h as int) < st.slots.len() && st.slots[h as int] is Some) {
                Prep { err: Some(CollisionError::InvalidHandle), ..st }
            } else {
                let b = tracked_bound(c, ts[e as int]->Some_0);
                Prep {
                    slots: st.slots.update(
                        h as int,
                        Some(Object { bound: b, entity: st.slots[h as int]->Some_0.entity }),
                    ),
                    touched: st.touched.union(cells_of(b)),
                    ..st
                }
            },
        }
    }
}

/// The first `n` tracking steps, in order.
pub open spec fn track_all(st: Prep, ts: Seq<Option<Transform>>, es: Seq<usize>, n: int) -> Prep
    decreases n,
{
    if n <= 0 {
        st
    } else {
        track_step(track_all(st, ts, es, n - 1), ts, es[n - 1])
    }
}

/// The first `n` following steps, in order.
pub open spec fn follow_all(st: Prep, ts: Seq<Option<Transform>>, es: Seq<usize>, n: int) -> Prep
    decreases n,
{
    if n <= 0 {
        st
    } else {
        follow_step(follow_all(st, ts, es, n - 1), ts, es[n - 1])
    }
}

/// The preparation of a tick from grid `g`: the entities in `inserted` are
/// tracked, then those in `modified` followed.
pub open spec fn prepared(
    g: BroadPhase<usize>,
    ts: Seq<Option<Transform>>,
    cs: Seq<Option<Collider>>,
    inserted: Seq<usize>,
    modified: Seq<usize>,
) -> Prep {
    let st0 = Prep { slots: g.slots(), free: g.free_slots(), cs, touched: Set::empty(), err: None };
    follow_all(track_all(st0, ts, inserted, inserted.len() as int), ts, modified, modified.len() as int)
}

/// Once stopped, tracking stays stopped where it stopped.
proof fn lemma_track_stops(st: Prep, ts: Seq<Option<Transform>>, es: Seq<usize>, n: int, m: int)
    requires
        0 <= n <= m,
        track_all(st, ts, es, n).err is Some,
    ensures
        track_all(st, ts, es, m) == track_all(st, ts, es, n),
    decreases m - n,
{
    if m > n {
        lemma_track_stops(st, ts, es, n, m - 1);
    }
}

/// Following from a stopped preparation changes nothing.
proof fn lemma_follow_stopped(st: Prep, ts: Seq<Option<Transform>>, es: Seq<usize>, n: int)
    requires
        st.err is Some,
    ensures
        follow_all(st, ts, es, n) == st,
    decreases n,
{
    if n > 0 {
        lemma_follow_stopped(st, ts, es, n - 1);
    }
}

proof fn lemma_follow_stops(st: Prep, ts: Seq<Option<Transform>>, es: Seq<usize>, n: int, m: int)
    requires
        0 <= n <= m,
        follow_all(st, ts, es, n).err is Some,
    ensures
        follow_all(st, ts, es, m) == follow_all(st, ts, es, n),
    decreases m - n,
{
    if m > n {
        lemma_follow_stops(st, ts, es, n, m - 1);
    }
}

/// What a tick reports besides the corrected positions.
pub struct TickReport {
    /// One `(entity, other)` for each applied correction, in the order of
    /// application: each entity's collision callback runs with these.
    pub contacts: Vec<(usize, usize)>,
    /// The pairs for which no exact test exists.
    pub unhandled: Vec<(usize, usize)>,
}

/// The per-tick collision pass: it keeps the broad phase in step with the
/// entities' transforms and colliders, tests the pairs it reports, resolves
/// conflicts, and applies the corrections.
pub struct CollisionSystem {
    broad_phase: BroadPhase<usize>,
}

impl CollisionSystem {
    pub closed spec fn grid(self) -> BroadPhase<usize> {
        self.broad_phase
    }

    pub open spec fn wf(self) -> bool {
        self.grid().wf()
    }

    pub fn new() -> (r: CollisionSystem)
        ensures
            r.wf(),
            r.grid().slots().len() == 0,
            forall|x: int, y: int| !r.grid().is_active(x, y),
    {
        CollisionSystem { broad_phase: BroadPhase::new() }
    }

    /// Starts tracking the collider of entity `ent`, placed by `t`: its bound
    /// goes into the grid and the handle into the collider.
    pub fn track(&mut self, ent: usize, t: &Transform, c: &mut Collider) -> (r: Result<(), CollisionError>)
        requires
            old(self).wf(),
            t.wf(),
            old(c).shape.wf(),
        ensures
            final(self).wf(),
            r is Err <==> old(self).grid().slots().len() == usize::MAX,
            r is Err ==> r == Err::<(), CollisionError>(CollisionError::CapacityExceeded),
            r is Err ==> *final(self) == *old(self) && *final(c) == *old(c),
            r is Ok ==> {
                let obj = Object { bound: Bound { rect: old(c).shape.bound_at(t.pos) }, entity: ent };
                let h = slot_for(old(self).grid().slots(), old(self).grid().free_slots());
                &&& *final(c) == (Collider { index: Some(h as usize), ..*old(c) })
                &&& final(self).grid().slots() == placed_slots(
                    old(self).grid().slots(),
                    old(self).grid().free_slots(),
                    obj,
                )
                &&& final(self).grid().slots()[h] == Some(obj)
                &&& final(self).grid().free_slots() == placed_free(old(self).grid().free_slots())
                &&& forall|x: int, y: int|
                    #[trigger] final(self).grid().is_active(x, y) <==> old(self).grid().is_active(x, y)
                        || in_cells(obj.bound, x, y)
            },
    {
        if self.broad_phase.len() == usize::MAX {
            return Err(CollisionError::CapacityExceeded);
        }
        let bound = c.shape.bound(t.pos);
        let idx = self.broad_phase.insert(Object { bound, entity: ent });
        c.index = Some(idx);
        Ok(())
    }

    /// Moves the collider's object in the grid to the bound that `t` now
    /// gives it (see `tracked_bound`). A collider without a handle is left
    /// alone.
    pub fn follow(&mut self, t: &Transform, c: &Collider) -> (r: Result<(), CollisionError>)
        requires
            old(self).wf(),
            t.wf(),
            c.shape.wf(),
        ensures
            final(self).wf(),
            r is Err <==> (c.index matches Some(h) && !old(self).grid().live(h as int)),
            r is Err ==> r == Err::<(), CollisionError>(CollisionError::InvalidHandle),
            r is Err || c.index is None ==> *final(self) == *old(self),
            r is Ok ==> (c.index matches Some(h) ==> {
                &&& final(self).grid().free_slots() == old(self).grid().free_slots()
                &&& final(self).grid().slots() == old(self).grid().slots().update(
                    h as int,
                    Some(Object { bound: tracked_bound(*c, *t), entity: old(self).grid().entity_of(h as int) }),
                )
                &&& forall|x: int, y: int|
                    #[trigger] final(self).grid().is_active(x, y) <==> old(self).grid().is_active(x, y)
                        || in_cells(tracked_bound(*c, *t), x, y)
            }),
    {
        match c.index {
            None => Ok(()),
            Some(h) => {
                let bound = swept_bound(c, t);
                match self.broad_phase.update(h, bound) {
                    Ok(()) => Ok(()),
                    Err(GridError::InvalidHandle) => Err(CollisionError::InvalidHandle),
                }
            },
        }
    }

    /// Applies the winning candidates in order, each to its entity's current
    /// position, and returns the `(entity, other)` of each applied one.
    fn apply_winners(ts: &mut Vec<Option<Transform>>, cs: &Vec<Collision>, win: &Vec<bool>) -> (r: Vec<(usize, usize)>)
        requires
            win@.len() == cs@.len(),
            forall|k: int| 0 <= k < cs@.len() ==> candidate_ok(#[trigger] cs@[k]),
            forall|e: int| 0 <= e < old(ts)@.len() && old(ts)@[e] is Some ==> (#[trigger] old(ts)@[e])->Some_0.wf(),
        ensures
            (final(ts)@, r@) == apply_prefix(old(ts)@, cs@, win@, cs@.len() as int),
            final(ts)@.len() == old(ts)@.len(),
            forall|e: int| 0 <= e < final(ts)@.len() ==> ((#[trigger] final(ts)@[e]) is Some <==> old(ts)@[e] is Some),
            forall|e: int| 0 <= e < final(ts)@.len() && final(ts)@[e] is Some ==> (#[trigger] final(ts)@[e])->Some_0.wf()
                && final(ts)@[e]->Some_0.last_pos == old(ts)@[e]->Some_0.last_pos,
    {
        let ghost ts0 = ts@;
        let mut contacts: Vec<(usize, usize)> = Vec::new();
        let mut k: usize = 0;
        while k < cs.len()
            invariant
                win@.len() == cs@.len(),
                forall|t: int| 0 <= t < cs@.len() ==> candidate_ok(#[trigger] cs@[t]),
                k <= cs@.len(),
                ts@.len() == ts0.len(),
                forall|e: int| 0 <= e < ts@.len() ==> ((#[trigger] ts@[e]) is Some <==> ts0[e] is Some),
                forall|e: int| 0 <= e < ts@.len() && ts@[e] is Some ==> (#[trigger] ts@[e])->Some_0.wf()
                    && ts@[e]->Some_0.last_pos == ts0[e]->Some_0.last_pos,
                (ts@, contacts@) == apply_prefix(ts0, cs@, win@, k as int),
            decreases cs@.len() - k,
        {
            if win[k] {
                let c = cs[k];
                let (e, other) = match c {
                    Collision::Discrete(e, o, _) => (e, o),
                    Collision::Sweep(e, o, _, _) => (e, o),
                };
                if e < ts.len() {
                    if let Some(t) = ts[e] {
                        proof {
                            assert(ts@[e as int]->Some_0.wf());
                            assert(candidate_ok(cs@[k as int]));
                        }
                        let pos = match c {
                            Collision::Discrete(_, _, d) => apply_discrete(t.pos, d),
                            Collision::Sweep(_, _, toi, n) => apply_sweep(&t, toi, n),
                        };
                        proof {
                            assert(Transform { pos, last_pos: t.last_pos } == corrected(t, c));
                        }
                        ts.set(e, Some(Transform { pos, last_pos: t.last_pos }));
                        contacts.push((e, other));
                    }
                }
            }
            k = k + 1;
        }
        contacts
    }

    /// Brings the grid in step with the entities: colliders of the entities
    /// in `inserted` that have both components start to be tracked, and those
    /// in `modified` that have both and a handle follow their transforms (see
    /// `prepared`). Fails on a stale handle, or when the grid is full.
    pub fn prepare(
        &mut self,
        ts: &Vec<Option<Transform>>,
        cs: &mut Vec<Option<Collider>>,
        inserted: &Vec<usize>,
        modified: &Vec<usize>,
    ) -> (r: Result<(), CollisionError>)
        requires
            old(self).wf(),
            components_ok(ts@, old(cs)@),
        ensures
            final(self).wf(),
            components_ok(ts@, final(cs)@),
            final(cs)@.len() == old(cs)@.len(),
            forall|e: int| 0 <= e < final(cs)@.len() ==> ((#[trigger] final(cs)@[e]) is Some <==> old(cs)@[e] is Some),
            forall|e: int| 0 <= e < final(cs)@.len() && final(cs)@[e] is Some ==> (#[trigger] final(cs)@[e])->Some_0.shape
                == old(cs)@[e]->Some_0.shape && final(cs)@[e]->Some_0.sweep == old(cs)@[e]->Some_0.sweep,
            ({
                let st = prepared(old(self).grid(), ts@, old(cs)@, inserted@, modified@);
                &&& r == (match st.err {
                    Some(e) => Err(e),
                    None => Ok(()),
                })
                &&& r is Ok ==> {
                    &&& final(self).grid().slots() == st.slots
                    &&& final(self).grid().free_slots() == st.free
                    &&& final(cs)@ == st.cs
                    &&& forall|x: int, y: int|
                        #[trigger] final(self).grid().is_active(x, y) <==> old(self).grid().is_active(x, y)
                            || st.touched.contains((x, y))
                }
            }),
    {
        let ghost g0 = self.broad_phase;
        let ghost cs0 = cs@;
        let ghost st0 = Prep { slots: g0.slots(), free: g0.free_slots(), cs: cs0, touched: Set::empty(), err: None };
        let mut k: usize = 0;
        while k < inserted.len()
            invariant
                self.wf(),
                components_ok(ts@, cs@),
                k <= inserted@.len(),
                cs0 == old(cs)@,
                g0 == old(self).grid(),
                st0 == (Prep { slots: g0.slots(), free: g0.free_slots(), cs: cs0, touched: Set::empty(), err: None }),
                cs@.len() == cs0.len(),
                forall|e: int| 0 <= e < cs@.len() ==> ((#[trigger] cs@[e]) is Some <==> cs0[e] is Some),
                forall|e: int| 0 <= e < cs@.len() && cs@[e] is Some ==> (#[trigger] cs@[e])->Some_0.shape
                    == cs0[e]->Some_0.shape && cs@[e]->Some_0.sweep == cs0[e]->Some_0.sweep,
                ({
                    let st = track_all(st0, ts@, inserted@, k as int);
                    &&& st.err is None
                    &&& self.grid().slots() == st.slots
                    &&& self.grid().free_slots() == st.free
                    &&& cs@ == st.cs
                    &&& forall|x: int, y: int|
                        #[trigger] self.grid().is_active(x, y) <==> g0.is_active(x, y) || st.touched.contains((x, y))
                }),
            decreases inserted@.len() - k,
        {
            let e = inserted[k];
            let ghost st = track_all(st0, ts@, inserted@, k as int);
            let ghost before = self.broad_phase;
            if e < ts.len() && e < cs.len() {
                if let (Some(t), Some(c0)) = (ts[e], cs[e]) {
                    let mut c = c0;
                    proof {
                        assert(ts@[e as int]->Some_0.wf());
                        assert(cs@[e as int]->Some_0.shape.wf());
                    }
                    match self.track(e, &t, &mut c) {
                        Ok(()) => {},
                        Err(err) => {
                            proof {
                                let n = inserted@.len() as int;
                                assert(track_all(st0, ts@, inserted@, k + 1).err == Some(err));
                                lemma_track_stops(st0, ts@, inserted@, k + 1, n);
                                lemma_follow_stopped(track_all(st0, ts@, inserted@, n), ts@, modified@, modified@.len() as int);
                            }
                            return Err(err);
                        },
                    }
                    cs.set(e, Some(c));
                    proof {
                        let st1 = track_all(st0, ts@, inserted@, k + 1);
                        assert(cs@ =~= st1.cs);
                        assert forall|x: int, y: int|
                            #[trigger] self.grid().is_active(x, y) <==> g0.is_active(x, y) || st1.touched.contains((x, y)) by {
                            assert(before.is_active(x, y) <==> g0.is_active(x, y) || st.touched.contains((x, y)));
                        }
                    }
                }
            }
            k = k + 1;
        }
        let ghost st1 = track_all(st0, ts@, inserted@, inserted@.len() as int);
        let mut k: usize = 0;
        while k < modified.len()
            invariant
                self.wf(),
                components_ok(ts@, cs@),
                k <= modified@.len(),
                cs0 == old(cs)@,
                g0 == old(self).grid(),
                st1 == track_all(
                    Prep { slots: g0.slots(), free: g0.free_slots(), cs: cs0, touched: Set::empty(), err: None },
                    ts@,
                    inserted@,
                    inserted@.len() as int,
                ),
                cs@.len() == cs0.len(),
                forall|e: int| 0 <= e < cs@.len() ==> ((#[trigger] cs@[e]) is Some <==> cs0[e] is Some),
                forall|e: int| 0 <= e < cs@.len() && cs@[e] is Some ==> (#[trigger] cs@[e])->Some_0.shape
                    == cs0[e]->Some_0.shape && cs@[e]->Some_0.sweep == cs0[e]->Some_0.sweep,
                ({
                    let st = follow_all(st1, ts@, modified@, k as int);
                    &&& st.err is None
                    &&& self.grid().slots() == st.slots
                    &&& self.grid().free_slots() == st.free
                    &&& cs@ == st.cs
                    &&& forall|x: int, y: int|
                        #[trigger] self.grid().is_active(x, y) <==> g0.is_active(x, y) || st.touched.contains((x, y))
                }),
            decreases modified@.len() - k,
        {
            let e = modified[k];
            let ghost st = follow_all(st1, ts@, modified@, k as int);
            let ghost before = self.broad_phase;
            if e < ts.len() && e < cs.len() {
                if let (Some(t), Some(c)) = (ts[e], cs[e]) {
                    proof {
                        assert(ts@[e as int]->Some_0.wf());
                        assert(cs@[e as int]->Some_0.shape.wf());
                    }
                    match self.follow(&t, &c) {
                        Ok(()) => {},
                        Err(err) => {
                            proof {
                                assert(follow_all(st1, ts@, modified@, k + 1).err == Some(err));
                                lemma_follow_stops(st1, ts@, modified@, k + 1, modified@.len() as int);
                            }
                            return Err(err);
                        },
                    }
                    proof {
                        let st2 = follow_all(st1, ts@, modified@, k + 1);
                        assert forall|x: int, y: int|
                            #[trigger] self.grid().is_active(x, y) <==> g0.is_active(x, y) || st2.touched.contains((x, y)) by {
                            assert(before.is_active(x, y) <==> g0.is_active(x, y) || st.touched.contains((x, y)));
                        }
                    }
                }
            }
            k = k + 1;
        }
        Ok(())
    }

    /// Queries the grid, tests each pair exactly, resolves conflicts and
    /// applies the winning corrections to the transforms. Fails, changing no
    /// transform, on a pair whose entity lacks a component.
    pub fn resolve(&mut self, ts: &mut Vec<Option<Transform>>, cs: &Vec<Option<Collider>>) -> (r: Result<TickReport, CollisionError>)
        requires
            old(self).wf(),
            components_ok(old(ts)@, cs@),
        ensures
            final(self).wf(),
            final(self).grid().slots() == old(self).grid().slots(),
            final(self).grid().free_slots() == old(self).grid().free_slots(),
            forall|x: int, y: int| !#[trigger] final(self).grid().is_active(x, y),
            components_ok(final(ts)@, cs@),
            final(ts)@.len() == old(ts)@.len(),
            exists|p: Seq<(usize, usize)>|
                old(self).grid().query_result(p) && tick_resolved(
                    old(ts)@,
                    cs@,
                    old(self).grid().entity_pairs(p),
                    final(ts)@,
                    r,
                ),
    {
        let ghost g0 = self.broad_phase;
        let ghost ts0 = ts@;
        let pairs = self.broad_phase.for_each();
        let ghost p = choose|p: Seq<(usize, usize)>| g0.query_result(p) && pairs@ == g0.entity_pairs(p);
        let found = match test_pairs(&pairs, ts, cs) {
            Ok(found) => found,
            Err(err) => {
                proof {
                    assert(tick_resolved(ts0, cs@, g0.entity_pairs(p), ts@, Err(err)));
                }
                return Err(err);
            },
        };
        let win = winners(&found.collisions);
        proof {
            assert(win@ =~= win_flags(found.collisions@));
        }
        let contacts = Self::apply_winners(ts, &found.collisions, &win);
        proof {
            assert forall|e: int| 0 <= e < ts@.len() && ts@[e] is Some implies (#[trigger] ts@[e])->Some_0.wf() by {}
        }
        let rep = TickReport { contacts, unhandled: found.unhandled };
        proof {
            assert(tick_resolved(ts0, cs@, g0.entity_pairs(p), ts@, Ok(rep)));
        }
        Ok(rep)
    }

    /// One tick: `prepare`, then `resolve` on the grid as `prepare` leaves
    /// it. A failure of `prepare` changes no transform.
    pub fn run(
        &mut self,
        ts: &mut Vec<Option<Transform>>,
        cs: &mut Vec<Option<Collider>>,
        inserted: &Vec<usize>,
        modified: &Vec<usize>,
    ) -> (r: Result<TickReport, CollisionError>)
        requires
            old(self).wf(),
            components_ok(old(ts)@, old(cs)@),
        ensures
            final(self).wf(),
            components_ok(final(ts)@, final(cs)@),
            final(ts)@.len() == old(ts)@.len(),
            final(cs)@.len() == old(cs)@.len(),
            forall|e: int| 0 <= e < final(cs)@.len() ==> ((#[trigger] final(cs)@[e]) is Some <==> old(cs)@[e] is Some),
            forall|e: int| 0 <= e < final(cs)@.len() && final(cs)@[e] is Some ==> (#[trigger] final(cs)@[e])->Some_0.shape
                == old(cs)@[e]->Some_0.shape && final(cs)@[e]->Some_0.sweep == old(cs)@[e]->Some_0.sweep,
            ({
                let st = prepared(old(self).grid(), old(ts)@, old(cs)@, inserted@, modified@);
                &&& st.err matches Some(e) ==> r == Err::<TickReport, CollisionError>(e) && final(ts)@ == old(ts)@
                &&& st.err is None ==> {
                    &&& final(cs)@ == st.cs
                    &&& final(self).grid().slots() == st.slots
                    &&& final(self).grid().free_slots() == st.free
                    &&& forall|x: int, y: int| !#[trigger] final(self).grid().is_active(x, y)
                    &&& exists|g: BroadPhase<usize>, p: Seq<(usize, usize)>|
                        {
                            &&& g.wf()
                            &&& g.slots() == st.slots
                            &&& g.free_slots() == st.free
                            &&& forall|x: int, y: int|
                                #[trigger] g.is_active(x, y) <==> old(self).grid().is_active(x, y)
                                    || st.touched.contains((x, y))
                            &&& g.query_result(p)
                            &&& tick_resolved(old(ts)@, st.cs, g.entity_pairs(p), final(ts)@, r)
                        }
                }
            }),
    {
        match self.prepare(ts, cs, inserted, modified) {
            Ok(()) => {},
            Err(err) => {
                return Err(err);
            },
        }
        let ghost g = self.broad_phase;
        let r = self.resolve(ts, cs);
        proof {
            let p = choose|p: Seq<(usize, usize)>| g.query_result(p) && tick_resolved(
                old(ts)@,
                cs@,
                g.entity_pairs(p),
                ts@,
                r,
            );
            assert(g.wf());
        }
        r
    }
}

} // verus!