use vstd::prelude::*;
use crate::collider::{Bound, has_area};
use crate::geometry::{Rect2, Vec2};
use std::collections::VecDeque;
use vstd::math::max;

verus! {

/// The side of a grid cell, in world units.
pub const CELL_SIZE: i64 = 100;

/// `floor(v / CELL_SIZE)`: the first cell column (or row) that a box reaching
/// down to `v` touches.
pub open spec fn grid_lo(v: int) -> int {
    v / (CELL_SIZE as int)
}

/// `ceil(v / CELL_SIZE)`: one past the last cell column (or row) that a box
/// reaching up to `v` touches.
pub open spec fn grid_hi(v: int) -> int {
    -((-v) / (CELL_SIZE as int))
}

/// Cell `(x, y)` comes before cell `(cx, cy)` in the order in which a range
/// of cells is walked (column by column).
pub open spec fn walked_before(cx: int, cy: int, x: int, y: int) -> bool {
    x < cx || (x == cx && y < cy)
}

/// Cell `(x, y)` lies in the range of `b`, if there is one.
pub open spec fn in_opt(b: Option<Bound>, x: int, y: int) -> bool {
    b matches Some(r) && in_cells(r, x, y)
}

/// Cell `(x, y)` lies in the range of cells that covers `b`.
pub open spec fn in_cells(b: Bound, x: int, y: int) -> bool {
    &&& grid_lo(b.rect.min.x as int) <= x < grid_hi(b.rect.max.x as int)
    &&& grid_lo(b.rect.min.y as int) <= y < grid_hi(b.rect.max.y as int)
}

fn floor_cell(v: i64) -> (r: i64)
    requires
        -1000000000000 <= v <= 1000000000000,
    ensures
        r == grid_lo(v as int),
{
    if v >= 0 {
        v / CELL_SIZE
    } else {
        let n: i64 = -v;
        let q: i64 = (n + CELL_SIZE - 1) / CELL_SIZE;
        assert(-q == (v as int) / 100) by (nonlinear_arith)
            requires
                n == -v,
                n > 0,
                q == (n + 99) / 100,
        ;
        -q
    }
}

fn ceil_cell(v: i64) -> (r: i64)
    requires
        -1000000000000 <= v <= 1000000000000,
    ensures
        r == grid_hi(v as int),
{
    -floor_cell(-v)
}

/// Takes `idx` out of a list that holds it once.
fn remove_slot(v: &mut Vec<usize>, idx: usize)
    requires
        old(v)@.contains(idx),
        old(v)@.no_duplicates(),
    ensures
        final(v)@.no_duplicates(),
        final(v)@.len() == old(v)@.len() - 1,
        forall|j: usize| #[trigger] final(v)@.contains(j) <==> old(v)@.contains(j) && j != idx,
        forall|k: int| 0 <= k < final(v)@.len() ==> old(v)@.contains(#[trigger] final(v)@[k]),
{
    let ghost s0 = v@;
    let mut k: usize = 0;
    while k < v.len() && v[k] != idx
        invariant
            v@ == s0,
            k <= s0.len(),
            forall|t: int| 0 <= t < k ==> s0[t] != idx,
        decreases s0.len() - k,
    {
        k = k + 1;
    }
    if k == v.len() {
        proof {
            let t = choose|t: int| 0 <= t < s0.len() && s0[t] == idx;
        }
        return;
    }
    v.swap_remove(k);
    proof {
        let s1 = v@;
        let last = s0.len() - 1;
        assert forall|a: int| 0 <= a < s1.len() implies s1[a] == (if a == k { s0[last] } else { s0[a] }) by {}
        assert forall|j: usize| #[trigger] s1.contains(j) <==> s0.contains(j) && j != idx by {
            if s1.contains(j) {
                let a = choose|a: int| 0 <= a < s1.len() && s1[a] == j;
                if a == k {
                    assert(s0[last] == j);
                    assert(last != k as int);
                } else {
                    assert(s0[a] == j);
                    assert(a != k as int);
                }
            }
            if s0.contains(j) && j != idx {
                let a = choose|a: int| 0 <= a < s0.len() && s0[a] == j;
                assert(a != k as int);
                if a == last {
                    assert(s1[k as int] == j);
                } else {
                    assert(s1[a] == j);
                }
            }
        }
        assert forall|a: int| 0 <= a < s1.len() implies s0.contains(#[trigger] s1[a]) by {
            if a == k {
                assert(s0[last] == s1[a]);
            } else {
                assert(s0[a] == s1[a]);
            }
        }
        assert forall|a: int, b: int| 0 <= a < s1.len() && 0 <= b < s1.len() && a != b implies s1[a] != s1[b] by {
            let ia = if a == k { last } else { a };
            let ib = if b == k { last } else { b };
            assert(s1[a] == s0[ia] && s1[b] == s0[ib]);
            assert(ia != ib);
        }
    }
}

/// Why a broad-phase operation was refused.
#[derive(Clone, Copy, Debug, PartialEq, Eq, Structural)]
pub enum GridError {
    /// The handle names a slot that was never filled or has been vacated.
    InvalidHandle,
}

fn contains_pair(v: &Vec<(usize, usize)>, p: (usize, usize)) -> (r: bool)
    ensures
        r == v@.contains(p),
{
    let mut k: usize = 0;
    while k < v.len()
        invariant
            k <= v@.len(),
            forall|t: int| 0 <= t < k ==> v@[t] != p,
        decreases v@.len() - k,
    {
        if v[k].0 == p.0 && v[k].1 == p.1 {
            return true;
        }
        k = k + 1;
    }
    false
}

/// An object tracked by the broad phase: its bound and the identity that is
/// handed back in collision pairs.
#[derive(Clone, Copy, Debug)]
pub struct Object<E> {
    pub bound: Bound,
    pub entity: E,
}

/// The slots of the objects whose bound overlaps one grid cell.
pub struct Cell {
    pub objects: Vec<usize>,
}

impl Cell {
    pub fn new() -> (r: Cell)
        ensures
            r.objects@.len() == 0,
    {
        Cell { objects: Vec::new() }
    }
}

/// A spatial hash grid: a slot array of objects with a queue of vacated
/// slots, the cells that some object overlaps (each listing those objects),
/// and the cells touched since the last query.
pub struct BroadPhase<E> {
    objects: Vec<Option<Object<E>>>,
    free_idxs: VecDeque<usize>,
    cells: Vec<(Vec2, Cell)>,
    active_cells: Vec<Vec2>,
}

impl<E: Copy> BroadPhase<E> {
    pub closed spec fn slots(self) -> Seq<Option<Object<E>>> {
        self.objects@
    }

    pub closed spec fn free_slots(self) -> Seq<usize> {
        self.free_idxs@
    }

    /// Slot `i` holds an object.
    pub open spec fn live(self, i: int) -> bool {
        0 <= i < self.slots().len() && self.slots()[i] is Some
    }

    pub open spec fn bound_of(self, i: int) -> Bound {
        self.slots()[i]->Some_0.bound
    }

    pub open spec fn entity_of(self, i: int) -> E {
        self.slots()[i]->Some_0.entity
    }

    /// The object in slot `i` overlaps cell `(x, y)`.
    pub open spec fn covers(self, i: int, x: int, y: int) -> bool {
        self.live(i) && in_cells(self.bound_of(i), x, y)
    }

    pub closed spec fn cell_pos(self, c: int) -> (int, int) {
        (self.cells@[c].0.x as int, self.cells@[c].0.y as int)
    }

    pub closed spec fn cell_members(self, c: int) -> Seq<usize> {
        self.cells@[c].1.objects@
    }

    pub closed spec fn num_cells(self) -> int {
        self.cells@.len() as int
    }

    /// Cell `(x, y)` is present in the index.
    pub open spec fn has_cell(self, x: int, y: int) -> bool {
        exists|c: int| 0 <= c < self.num_cells() && #[trigger] self.cell_pos(c) == (x, y)
    }

    /// The cell at `c` is `(x, y)` and lists slot `i`.
    pub open spec fn cell_holds(self, c: int, x: int, y: int, i: int) -> bool {
        &&& 0 <= c < self.num_cells()
        &&& self.cell_pos(c) == (x, y)
        &&& 0 <= i <= usize::MAX
        &&& self.cell_members(c).contains(i as usize)
    }

    /// Cell `(x, y)` is present and lists slot `i`.
    pub open spec fn member(self, x: int, y: int, i: int) -> bool {
        exists|c: int| #[trigger] self.cell_holds(c, x, y, i)
    }

    pub closed spec fn active_pos(self, k: int) -> (int, int) {
        (self.active_cells@[k].x as int, self.active_cells@[k].y as int)
    }

    /// Cell `(x, y)` has been touched since the last query.
    pub closed spec fn is_active(self, x: int, y: int) -> bool {
        exists|k: int|
            0 <= k < self.active_cells@.len() && #[trigger] self.active_pos(k) == (x, y)
    }

    /// The cells list each object other than the one in slot `idx` exactly
    /// where it lies, and that one in the cells where `at` holds.
    pub closed spec fn listed(self, idx: int, at: spec_fn(int, int) -> bool) -> bool {
        forall|x: int, y: int, i: int|
            #![trigger self.member(x, y, i)]
            #![trigger self.covers(i, x, y)]
            self.member(x, y, i) <==> if i == idx {
                at(x, y)
            } else {
                self.covers(i, x, y)
            }
    }

    /// Slots `i < j` both hold objects whose bounds intersect.
    pub open spec fn colliding(self, i: int, j: int) -> bool {
        &&& 0 <= i < j
        &&& self.live(i)
        &&& self.live(j)
        &&& self.bound_of(i).rect.intersects(self.bound_of(j).rect)
    }

    /// The pairs that the next query reports: colliding slots `i < j` that
    /// share an active cell.
    pub open spec fn pending(self, i: int, j: int) -> bool {
        &&& self.colliding(i, j)
        &&& exists|x: int, y: int|
            #![trigger self.covers(i, x, y), self.covers(j, x, y)]
            self.is_active(x, y) && self.covers(i, x, y) && self.covers(j, x, y)
    }

    /// `p` is what a query of this grid may return: each pending pair once.
    pub open spec fn query_result(self, p: Seq<(usize, usize)>) -> bool {
        &&& p.no_duplicates()
        &&& forall|i: usize, j: usize| #[trigger] p.contains((i, j)) <==> self.pending(i as int, j as int)
    }

    /// The identities of the objects of the pairs of slots `p`.
    pub open spec fn entity_pairs(self, p: Seq<(usize, usize)>) -> Seq<(E, E)> {
        Seq::new(p.len(), |k: int| (self.entity_of(p[k].0 as int), self.entity_of(p[k].1 as int)))
    }

    /// Colliding slots `i < j` both listed in the `k`-th active cell.
    closed spec fn pair_at(self, k: int, i: int, j: int) -> bool {
        &&& self.colliding(i, j)
        &&& self.member(self.active_pos(k).0, self.active_pos(k).1, i)
        &&& self.member(self.active_pos(k).0, self.active_pos(k).1, j)
    }

    /// The cells as stored: unique coordinates, never empty, no slot listed
    /// twice, and each slot inside the slot array.
    pub closed spec fn cells_ok(self) -> bool {
        &&& forall|c: int| 0 <= c < self.num_cells() ==> #[trigger] self.cell_members(c).len() > 0
        &&& forall|c: int| 0 <= c < self.num_cells() ==> #[trigger] self.cell_members(c).no_duplicates()
        &&& forall|c1: int, c2: int|
            0 <= c1 < self.num_cells() && 0 <= c2 < self.num_cells() && c1 != c2 ==> #[trigger] self.cell_pos(c1)
                != #[trigger] self.cell_pos(c2)
        &&& forall|c: int, k: int|
            0 <= c < self.num_cells() && 0 <= k < self.cell_members(c).len() ==> #[trigger] self.cell_members(c)[k]
                < self.slots().len()
    }

    /// Well-formed: the cells list exactly the objects that overlap them, the
    /// bounds are well-formed, and the free queue holds each empty slot once.
    pub closed spec fn wf(self) -> bool {
        &&& self.cells_ok()
        &&& forall|x: int, y: int, i: int|
            #![trigger self.member(x, y, i)]
            #![trigger self.covers(i, x, y)]
            self.member(x, y, i) <==> self.covers(i, x, y)
        &&& forall|i: int| #[trigger] self.live(i) ==> self.bound_of(i).rect.wf() && has_area(self.bound_of(i))
        &&& self.free_slots().no_duplicates()
        &&& forall|k: int|
            0 <= k < self.free_slots().len() ==> {
                let i = #[trigger] self.free_slots()[k];
                &&& (i as int) < self.slots().len()
                &&& self.slots()[i as int] is None
            }
        &&& forall|i: int|
            0 <= i < self.slots().len() && #[trigger] self.slots()[i] is None ==> self.free_slots().contains(
                i as usize,
            )
    }

    pub fn new() -> (r: BroadPhase<E>)
        ensures
            r.wf(),
            r.slots().len() == 0,
            r.free_slots().len() == 0,
            forall|x: int, y: int| !r.is_active(x, y),
            forall|x: int, y: int| !r.has_cell(x, y),
    {
        BroadPhase {
            objects: Vec::new(),
            free_idxs: VecDeque::new(),
            cells: Vec::new(),
            active_cells: Vec::new(),
        }
    }

    /// The position in `cells` of cell `(x, y)`, if it is present.
    fn find_cell(&self, x: i64, y: i64) -> (r: Option<usize>)
        ensures
            match r {
                Some(c) => (c as int) < self.num_cells() && self.cell_pos(c as int) == (x as int, y as int),
                None => !self.has_cell(x as int, y as int),
            },
    {
        let mut c: usize = 0;
        while c < self.cells.len()
            invariant
                c <= self.cells@.len(),
                forall|d: int| 0 <= d < c ==> self.cell_pos(d) != (x as int, y as int),
            decreases self.cells@.len() - c,
        {
            if self.cells[c].0.x == x && self.cells[c].0.y == y {
                return Some(c);
            }
            c = c + 1;
        }
        None
    }

    /// Lists slot `idx` in cell `(x, y)`, creating the cell if needed.
    fn add_to_cell(&mut self, x: i64, y: i64, idx: usize)
        requires
            old(self).cells_ok(),
            (idx as int) < old(self).slots().len(),
            !old(self).member(x as int, y as int, idx as int),
        ensures
            final(self).cells_ok(),
            final(self).objects == old(self).objects,
            final(self).free_idxs == old(self).free_idxs,
            final(self).active_cells == old(self).active_cells,
            forall|x2: int, y2: int, i: int|
                #[trigger] final(self).member(x2, y2, i) <==> old(self).member(x2, y2, i) || (x2 == x
                    && y2 == y && i == idx),
    {
        let ghost pre = *self;
        match self.find_cell(x, y) {
            Some(c) => {
                proof {
                    assert(!pre.cell_members(c as int).contains(idx)) by {
                        if pre.cell_members(c as int).contains(idx) {
                            assert(pre.cell_holds(c as int, x as int, y as int, idx as int));
                        }
                    }
                }
                self.cells[c].1.objects.push(idx);
                proof {
                    assert(self.cell_members(c as int)[pre.cell_members(c as int).len() as int] == idx);
                    assert(self.cell_holds(c as int, x as int, y as int, idx as int));
                    assert forall|d: int| 0 <= d < self.num_cells() && d != c implies
                        self.cell_members(d) == pre.cell_members(d) && self.cell_pos(d) == pre.cell_pos(d) by {}
                    assert(self.cell_members(c as int) == pre.cell_members(c as int).push(idx));
                    assert forall|x2: int, y2: int, i: int|
                        #[trigger] self.member(x2, y2, i) <==> pre.member(x2, y2, i) || (x2 == x
                            && y2 == y && i == idx) by {
                        if self.member(x2, y2, i) {
                            let d = choose|d: int| #[trigger] self.cell_holds(d, x2, y2, i);
                            if d != c && !(x2 == x && y2 == y && i == idx) {
                                assert(pre.cell_holds(d, x2, y2, i));
                            } else if !(x2 == x && y2 == y && i == idx) {
                                assert(self.cell_members(d).contains(i as usize));
                                let k = choose|k: int| 0 <= k < self.cell_members(d).len() && self.cell_members(d)[k] == i as usize;
                                assert(x2 == x && y2 == y);
                                assert(i != idx as int);
                                if k == pre.cell_members(d).len() {
                                    assert(self.cell_members(d)[k] == idx);
                                }
                                assert(k < pre.cell_members(d).len());
                                assert(pre.cell_members(d)[k] == i as usize);
                                assert(pre.cell_holds(d, x2, y2, i));
                            }
                        }
                        if pre.member(x2, y2, i) {
                            let d = choose|d: int| #[trigger] pre.cell_holds(d, x2, y2, i);
                            if d == c {
                                assert(pre.cell_members(d).contains(i as usize));
                                let k = choose|k: int| 0 <= k < pre.cell_members(d).len() && pre.cell_members(d)[k] == i as usize;
                                assert(self.cell_members(d)[k] == i as usize);
                            }
                            assert(self.cell_holds(d, x2, y2, i));
                        }
                    }
                    assert forall|c1: int, c2: int|
                        0 <= c1 < self.num_cells() && 0 <= c2 < self.num_cells() && c1 != c2 implies #[trigger] self.cell_pos(c1)
                            != #[trigger] self.cell_pos(c2) by {
                        assert(pre.cell_pos(c1) != pre.cell_pos(c2));
                    }
                    assert(self.cell_members(c as int).no_duplicates()) by {
                        let s0 = pre.cell_members(c as int);
                        let s1 = self.cell_members(c as int);
                        assert(s0.no_duplicates());
                        assert forall|a: int, b: int| 0 <= a < s1.len() && 0 <= b < s1.len() && a != b implies s1[a] != s1[b] by {
                            if a < s0.len() && b < s0.len() {
                                assert(s0[a] != s0[b]);
                            } else if a < s0.len() {
                                assert(s0.contains(s0[a]));
                            } else if b < s0.len() {
                                assert(s0.contains(s0[b]));
                            }
                        }
                    }
                    assert forall|d: int| 0 <= d < self.num_cells() implies #[trigger] self.cell_members(d).len() > 0
                        && self.cell_members(d).no_duplicates() by {
                        if d != c {
                            assert(pre.cell_members(d).len() > 0);
                            assert(pre.cell_members(d).no_duplicates());
                        }
                    }
                    assert forall|d: int, k: int|
                        0 <= d < self.num_cells() && 0 <= k < self.cell_members(d).len() implies #[trigger] self.cell_members(d)[k]
                            < self.slots().len() by {
                        if d == c && k < pre.cell_members(d).len() {
                            assert(self.cell_members(d)[k] == pre.cell_members(d)[k]);
                        } else if d != c {
                            assert(self.cell_members(d) == pre.cell_members(d));
                            assert(pre.cell_members(d)[k] < pre.slots().len());
                        }
                    }
                }
            },
            None => {
                let mut cell = Cell::new();
                cell.objects.push(idx);
                self.cells.push((Vec2 { x, y }, cell));
                proof {
                    let c = pre.num_cells();
                    assert(self.cell_members(c) =~= seq![idx]);
                    assert(self.cell_members(c)[0] == idx);
                    assert(self.cell_holds(c, x as int, y as int, idx as int));
                    assert forall|d: int| 0 <= d < pre.num_cells() implies
                        self.cell_members(d) == pre.cell_members(d) && self.cell_pos(d) == pre.cell_pos(d) by {}
                    assert forall|x2: int, y2: int, i: int|
                        #[trigger] self.member(x2, y2, i) <==> pre.member(x2, y2, i) || (x2 == x
                            && y2 == y && i == idx) by {
                        if self.member(x2, y2, i) {
                            let d = choose|d: int| #[trigger] self.cell_holds(d, x2, y2, i);
                            if d != c {
                                assert(pre.cell_holds(d, x2, y2, i));
                            } else {
                                assert(self.cell_members(d).contains(i as usize));
                                let k = choose|k: int| 0 <= k < self.cell_members(d).len() && self.cell_members(d)[k] == i as usize;
                                assert(k == 0);
                                assert(i == idx as int);
                            }
                        }
                        if x2 == x && y2 == y && i == idx {
                            assert(self.cell_holds(c, x2, y2, i));
                        }
                        if pre.member(x2, y2, i) {
                            let d = choose|d: int| #[trigger] pre.cell_holds(d, x2, y2, i);
                            assert(self.cell_holds(d, x2, y2, i));
                        }
                    }
                    assert forall|c1: int, c2: int|
                        0 <= c1 < self.num_cells() && 0 <= c2 < self.num_cells() && c1 != c2 implies #[trigger] self.cell_pos(c1)
                            != #[trigger] self.cell_pos(c2) by {
                        if c1 < c && c2 < c {
                            assert(pre.cell_pos(c1) != pre.cell_pos(c2));
                        } else if c1 == c {
                            assert(pre.has_cell(pre.cell_pos(c2).0, pre.cell_pos(c2).1));
                        } else {
                            assert(pre.has_cell(pre.cell_pos(c1).0, pre.cell_pos(c1).1));
                        }
                    }
                    assert forall|d: int| 0 <= d < self.num_cells() implies #[trigger] self.cell_members(d).len() > 0
                        && self.cell_members(d).no_duplicates() by {
                        if d != c {
                            assert(pre.cell_members(d).len() > 0);
                            assert(pre.cell_members(d).no_duplicates());
                        }
                    }
                    assert forall|d: int, k: int|
                        0 <= d < self.num_cells() && 0 <= k < self.cell_members(d).len() implies #[trigger] self.cell_members(d)[k]
                            < self.slots().len() by {
                        if d < c {
                            assert(self.cell_members(d)[k] == pre.cell_members(d)[k]);
                        }
                    }
                }
            },
        }
    }
    /// Takes slot `idx` out of cell `(x, y)`, deleting the cell once empty.
    fn remove_from_cell(&mut self, x: i64, y: i64, idx: usize)
        requires
            old(self).cells_ok(),
            old(self).member(x as int, y as int, idx as int),
        ensures
            final(self).cells_ok(),
            final(self).objects == old(self).objects,
            final(self).free_idxs == old(self).free_idxs,
            final(self).active_cells == old(self).active_cells,
            forall|x2: int, y2: int, i: int|
                #[trigger] final(self).member(x2, y2, i) <==> old(self).member(x2, y2, i) && !(x2 == x
                    && y2 == y && i == idx),
    {
        let ghost pre = *self;
        let ghost d0 = choose|d: int| #[trigger] pre.cell_holds(d, x as int, y as int, idx as int);
        let c = match self.find_cell(x, y) {
            Some(c) => c,
            None => {
                proof {
                    assert(pre.cell_pos(d0) == (x as int, y as int));
                    assert(pre.has_cell(x as int, y as int));
                }
                return;
            },
        };
        proof {
            if d0 != c as int {
                assert(pre.cell_pos(d0) != pre.cell_pos(c as int));
            }
            assert(pre.cell_members(c as int).no_duplicates());
        }
        remove_slot(&mut self.cells[c].1.objects, idx);
        let ghost mid = *self;
        proof {
            assert forall|d: int| 0 <= d < mid.num_cells() && d != c implies
                mid.cell_members(d) == pre.cell_members(d) && mid.cell_pos(d) == pre.cell_pos(d) by {}
            assert(mid.cell_pos(c as int) == pre.cell_pos(c as int));
            assert(mid.num_cells() == pre.num_cells());
            assert forall|x2: int, y2: int, i: int|
                #[trigger] mid.member(x2, y2, i) <==> pre.member(x2, y2, i) && !(x2 == x
                    && y2 == y && i == idx) by {
                if mid.member(x2, y2, i) {
                    let d = choose|d: int| #[trigger] mid.cell_holds(d, x2, y2, i);
                    assert(pre.cell_holds(d, x2, y2, i));
                    if d == c {
                        assert(i as usize != idx);
                    } else {
                        assert(pre.cell_pos(d) != pre.cell_pos(c as int));
                    }
                }
                if pre.member(x2, y2, i) && !(x2 == x && y2 == y && i == idx) {
                    let d = choose|d: int| #[trigger] pre.cell_holds(d, x2, y2, i);
                    if d == c {
                        assert(i as usize != idx);
                    }
                    assert(mid.cell_holds(d, x2, y2, i));
                }
            }
            assert forall|d: int| 0 <= d < mid.num_cells() && d != c implies #[trigger] mid.cell_members(d).len() > 0
                && mid.cell_members(d).no_duplicates() by {
                assert(pre.cell_members(d).len() > 0);
                assert(pre.cell_members(d).no_duplicates());
            }
            assert forall|d: int, k: int|
                0 <= d < mid.num_cells() && 0 <= k < mid.cell_members(d).len() implies #[trigger] mid.cell_members(d)[k]
                    < mid.slots().len() by {
                if d == c {
                    let j = mid.cell_members(d)[k];
                    assert(pre.cell_members(d).contains(j));
                    let t = choose|t: int| 0 <= t < pre.cell_members(d).len() && pre.cell_members(d)[t] == j;
                    assert(pre.cell_members(d)[t] < pre.slots().len());
                } else {
                    assert(pre.cell_members(d)[k] < pre.slots().len());
                }
            }
        }
        if self.cells[c].1.objects.len() == 0 {
            self.cells.remove(c);
            proof {
                let n = mid.num_cells();
                assert forall|d: int| 0 <= d < self.num_cells() implies
                    self.cells@[d] == mid.cells@[if d < c { d } else { d + 1 }] by {}
                assert forall|x2: int, y2: int, i: int|
                    #[trigger] self.member(x2, y2, i) <==> mid.member(x2, y2, i) by {
                    if self.member(x2, y2, i) {
                        let d = choose|d: int| #[trigger] self.cell_holds(d, x2, y2, i);
                        let e = if d < c { d } else { d + 1 };
                        assert(mid.cell_holds(e, x2, y2, i));
                    }
                    if mid.member(x2, y2, i) {
                        let e = choose|e: int| #[trigger] mid.cell_holds(e, x2, y2, i);
                        assert(e != c);
                        let d = if e < c { e } else { e - 1 };
                        assert(self.cell_holds(d, x2, y2, i));
                    }
                }
                assert forall|d: int| 0 <= d < self.num_cells() implies #[trigger] self.cell_members(d).len() > 0
                    && self.cell_members(d).no_duplicates() by {
                    let e = if d < c { d } else { d + 1 };
                    assert(self.cell_members(d) == mid.cell_members(e));
                }
                assert forall|c1: int, c2: int|
                    0 <= c1 < self.num_cells() && 0 <= c2 < self.num_cells() && c1 != c2 implies #[trigger] self.cell_pos(c1)
                        != #[trigger] self.cell_pos(c2) by {
                    let e1 = if c1 < c { c1 } else { c1 + 1 };
                    let e2 = if c2 < c { c2 } else { c2 + 1 };
                    assert(self.cell_pos(c1) == mid.cell_pos(e1));
                    assert(self.cell_pos(c2) == mid.cell_pos(e2));
                    assert(pre.cell_pos(e1) != pre.cell_pos(e2));
                }
                assert forall|d: int, k: int|
                    0 <= d < self.num_cells() && 0 <= k < self.cell_members(d).len() implies #[trigger] self.cell_members(d)[k]
                        < self.slots().len() by {
                    let e = if d < c { d } else { d + 1 };
                    assert(self.cell_members(d) == mid.cell_members(e));
                    assert(mid.cell_members(e)[k] < mid.slots().len());
                }
            }
        }
    }
    /// Two grids with the same slots and cells agree on everything but the
    /// active cells.
    proof fn lemma_same_cells(a: Self, b: Self)
        requires
            a.cells == b.cells,
            a.objects == b.objects,
        ensures
            a.cells_ok() == b.cells_ok(),
            forall|x: int, y: int, i: int| #[trigger] a.member(x, y, i) == b.member(x, y, i),
            forall|x: int, y: int, i: int| #[trigger] a.covers(i, x, y) == b.covers(i, x, y),
    {
        assert forall|c: int| 0 <= c < a.num_cells() implies a.cell_members(c) == b.cell_members(c)
            && a.cell_pos(c) == b.cell_pos(c) by {}
        assert forall|x: int, y: int, i: int| #[trigger] a.member(x, y, i) == b.member(x, y, i) by {
            if a.member(x, y, i) {
                let d = choose|d: int| #[trigger] a.cell_holds(d, x, y, i);
                assert(b.cell_holds(d, x, y, i));
            }
            if b.member(x, y, i) {
                let d = choose|d: int| #[trigger] b.cell_holds(d, x, y, i);
                assert(a.cell_holds(d, x, y, i));
            }
        }
        if a.cells_ok() {
            assert forall|c: int, k: int|
                0 <= c < b.num_cells() && 0 <= k < b.cell_members(c).len() implies #[trigger] b.cell_members(c)[k]
                    < b.slots().len() by {
                assert(a.cell_members(c)[k] < a.slots().len());
            }
            assert forall|c: int| 0 <= c < b.num_cells() implies #[trigger] b.cell_members(c).len() > 0
                && b.cell_members(c).no_duplicates() by {
                assert(a.cell_members(c).len() > 0);
                assert(a.cell_members(c).no_duplicates());
            }
            assert forall|c1: int, c2: int|
                0 <= c1 < b.num_cells() && 0 <= c2 < b.num_cells() && c1 != c2 implies #[trigger] b.cell_pos(c1)
                    != #[trigger] b.cell_pos(c2) by {
                assert(a.cell_pos(c1) != a.cell_pos(c2));
            }
        }
        if b.cells_ok() {
            assert forall|c: int, k: int|
                0 <= c < a.num_cells() && 0 <= k < a.cell_members(c).len() implies #[trigger] a.cell_members(c)[k]
                    < a.slots().len() by {
                assert(b.cell_members(c)[k] < b.slots().len());
            }
            assert forall|c: int| 0 <= c < a.num_cells() implies #[trigger] a.cell_members(c).len() > 0
                && a.cell_members(c).no_duplicates() by {
                assert(b.cell_members(c).len() > 0);
                assert(b.cell_members(c).no_duplicates());
            }
            assert forall|c1: int, c2: int|
                0 <= c1 < a.num_cells() && 0 <= c2 < a.num_cells() && c1 != c2 implies #[trigger] a.cell_pos(c1)
                    != #[trigger] a.cell_pos(c2) by {
                assert(b.cell_pos(c1) != b.cell_pos(c2));
            }
        }
    }

    proof fn lemma_same_active(a: Self, b: Self)
        requires
            a.active_cells == b.active_cells,
        ensures
            forall|x: int, y: int| #[trigger] a.is_active(x, y) == b.is_active(x, y),
    {
        assert forall|x: int, y: int| #[trigger] a.is_active(x, y) == b.is_active(x, y) by {
            if a.is_active(x, y) {
                let k = choose|k: int| 0 <= k < a.active_cells@.len() && #[trigger] a.active_pos(k) == (x, y);
                assert(b.active_pos(k) == (x, y));
            }
            if b.is_active(x, y) {
                let k = choose|k: int| 0 <= k < b.active_cells@.len() && #[trigger] b.active_pos(k) == (x, y);
                assert(a.active_pos(k) == (x, y));
            }
        }
    }

    /// Marks cell `(x, y)` as touched since the last query.
    fn mark_active(&mut self, x: i64, y: i64)
        ensures
            final(self).objects == old(self).objects,
            final(self).free_idxs == old(self).free_idxs,
            final(self).cells == old(self).cells,
            old(self).cells_ok() ==> final(self).cells_ok(),
            forall|x2: int, y2: int, i: int|
                #[trigger] final(self).member(x2, y2, i) == old(self).member(x2, y2, i),
            forall|x2: int, y2: int, i: int|
                #[trigger] final(self).covers(i, x2, y2) == old(self).covers(i, x2, y2),
            forall|x2: int, y2: int|
                #[trigger] final(self).is_active(x2, y2) <==> old(self).is_active(x2, y2) || (x2 == x
                    && y2 == y),
    {
        let ghost pre = *self;
        let mut k: usize = 0;
        while k < self.active_cells.len()
            invariant
                *self == pre,
                k <= self.active_cells@.len(),
            decreases self.active_cells@.len() - k,
        {
            if self.active_cells[k].x == x && self.active_cells[k].y == y {
                proof {
                    assert forall|x2: int, y2: int|
                        #[trigger] self.is_active(x2, y2) <==> pre.is_active(x2, y2) || (x2 == x
                            && y2 == y) by {
                        if x2 == x && y2 == y {
                            assert(self.active_pos(k as int) == (x2, y2));
                        }
                    }
                }
                return;
            }
            k = k + 1;
        }
        self.active_cells.push(Vec2 { x, y });
        proof {
            Self::lemma_same_cells(*self, pre);
            let n = pre.active_cells@.len() as int;
            assert forall|x2: int, y2: int|
                #[trigger] self.is_active(x2, y2) <==> pre.is_active(x2, y2) || (x2 == x
                    && y2 == y) by {
                if self.is_active(x2, y2) {
                    let t = choose|t: int|
                        0 <= t < self.active_cells@.len() && #[trigger] self.active_pos(t) == (x2, y2);
                    if t < n {
                        assert(pre.active_pos(t) == self.active_pos(t));
                    }
                }
                if pre.is_active(x2, y2) {
                    let t = choose|t: int|
                        0 <= t < pre.active_cells@.len() && #[trigger] pre.active_pos(t) == (x2, y2);
                    assert(self.active_pos(t) == pre.active_pos(t));
                }
                if x2 == x && y2 == y {
                    assert(self.active_pos(n) == (x2, y2));
                }
            }
        }
    }
    /// Lists slot `idx` in every cell of the range that covers `b` but for
    /// those of `skip` (where it is listed already), and marks all the cells
    /// of the range active.
    fn register_range(&mut self, idx: usize, b: Bound, skip: Option<Bound>)
        requires
            old(self).cells_ok(),
            (idx as int) < old(self).slots().len(),
            b.rect.wf(),
            skip matches Some(k) ==> k.rect.wf(),
            old(self).listed(idx as int, |x: int, y: int| in_cells(b, x, y) && in_opt(skip, x, y)),
        ensures
            final(self).cells_ok(),
            final(self).objects == old(self).objects,
            final(self).free_idxs == old(self).free_idxs,
            final(self).listed(idx as int, |x: int, y: int| in_cells(b, x, y)),
            forall|x: int, y: int|
                #[trigger] final(self).is_active(x, y) <==> old(self).is_active(x, y) || in_cells(b, x, y),
    {
        let ghost pre = *self;
        let gx0 = floor_cell(b.rect.min.x);
        let gy0 = floor_cell(b.rect.min.y);
        let gx1 = ceil_cell(b.rect.max.x);
        let gy1 = ceil_cell(b.rect.max.y);
        let mut cx = gx0;
        while cx < gx1
            invariant
                self.cells_ok(),
                self.objects == pre.objects,
                self.free_idxs == pre.free_idxs,
                (idx as int) < pre.slots().len(),
                skip matches Some(k) ==> k.rect.wf(),
                gx0 == grid_lo(b.rect.min.x as int),
                gy0 == grid_lo(b.rect.min.y as int),
                gx1 == grid_hi(b.rect.max.x as int),
                gy1 == grid_hi(b.rect.max.y as int),
                -10000000000 <= gx0 <= cx,
                cx <= gx1 || cx == gx0,
                gx1 <= 10000000000,
                -10000000000 <= gy0,
                gy1 <= 10000000000,
                self.listed(
                    idx as int,
                    |x: int, y: int| in_cells(b, x, y) && (x < cx || in_opt(skip, x, y)),
                ),
                forall|x: int, y: int|
                    #[trigger] self.is_active(x, y) <==> pre.is_active(x, y) || (in_cells(b, x, y)
                        && x < cx),
            decreases gx1 - cx,
        {
            let mut cy = gy0;
            while cy < gy1
                invariant
                    self.cells_ok(),
                    self.objects == pre.objects,
                    self.free_idxs == pre.free_idxs,
                    (idx as int) < pre.slots().len(),
                    skip matches Some(k) ==> k.rect.wf(),
                    gx0 == grid_lo(b.rect.min.x as int),
                    gy0 == grid_lo(b.rect.min.y as int),
                    gx1 == grid_hi(b.rect.max.x as int),
                    gy1 == grid_hi(b.rect.max.y as int),
                    gx0 <= cx < gx1,
                    gx1 <= 10000000000,
                    -10000000000 <= gy0 <= cy,
                    cy <= gy1 || cy == gy0,
                    gy1 <= 10000000000,
                    self.listed(
                        idx as int,
                        |x: int, y: int|
                            in_cells(b, x, y) && (walked_before(cx as int, cy as int, x, y) || in_opt(
                                skip,
                                x,
                                y,
                            )),
                    ),
                    forall|x: int, y: int|
                        #[trigger] self.is_active(x, y) <==> pre.is_active(x, y) || (in_cells(b, x, y)
                            && walked_before(cx as int, cy as int, x, y)),
                decreases gy1 - cy,
            {
                let ghost before = *self;
                let listed_here = match skip {
                    Some(s) => {
                        let sx0 = floor_cell(s.rect.min.x);
                        let sy0 = floor_cell(s.rect.min.y);
                        let sx1 = ceil_cell(s.rect.max.x);
                        let sy1 = ceil_cell(s.rect.max.y);
                        sx0 <= cx && cx < sx1 && sy0 <= cy && cy < sy1
                    },
                    None => false,
                };
                assert(listed_here == in_opt(skip, cx as int, cy as int));
                if !listed_here {
                    proof {
                        assert(!self.member(cx as int, cy as int, idx as int));
                    }
                    self.add_to_cell(cx, cy, idx);
                }
                proof {
                    assert forall|x: int, y: int, i: int|
                        #![trigger self.member(x, y, i)]
                        #![trigger self.covers(i, x, y)]
                        self.member(x, y, i) <==> if i == idx {
                            in_cells(b, x, y) && (walked_before(cx as int, cy + 1, x, y) || in_opt(skip, x, y))
                        } else {
                            self.covers(i, x, y)
                        } by {
                        assert(before.member(x, y, i) <==> if i == idx {
                            in_cells(b, x, y) && (walked_before(cx as int, cy as int, x, y) || in_opt(skip, x, y))
                        } else {
                            before.covers(i, x, y)
                        });
                        assert(self.covers(i, x, y) == before.covers(i, x, y));
                    }
                }
                let ghost mid = *self;
                self.mark_active(cx, cy);
                proof {
                    Self::lemma_same_active(mid, before);
                }
                cy = cy + 1;
            }
            proof {
                let cur = *self;
                assert forall|x: int, y: int, i: int|
                    #![trigger cur.member(x, y, i)]
                    #![trigger cur.covers(i, x, y)]
                    cur.member(x, y, i) <==> if i == idx {
                        in_cells(b, x, y) && (x < cx + 1 || in_opt(skip, x, y))
                    } else {
                        cur.covers(i, x, y)
                    } by {
                    assert(cur.member(x, y, i) <==> if i == idx {
                        in_cells(b, x, y) && (walked_before(cx as int, cy as int, x, y) || in_opt(skip, x, y))
                    } else {
                        cur.covers(i, x, y)
                    });
                }
            }
            cx = cx + 1;
        }
        proof {
            let cur = *self;
            assert forall|x: int, y: int, i: int|
                #![trigger cur.member(x, y, i)]
                #![trigger cur.covers(i, x, y)]
                cur.member(x, y, i) <==> if i == idx {
                    in_cells(b, x, y)
                } else {
                    cur.covers(i, x, y)
                } by {
                assert(cur.member(x, y, i) <==> if i == idx {
                    in_cells(b, x, y) && (x < cx || in_opt(skip, x, y))
                } else {
                    cur.covers(i, x, y)
                });
            }
        }
    }

    /// Takes slot `idx` out of every cell of the range that covers `b` but
    /// for those of `keep`.
    fn unregister_range(&mut self, idx: usize, b: Bound, keep: Option<Bound>)
        requires
            old(self).cells_ok(),
            b.rect.wf(),
            keep matches Some(k) ==> k.rect.wf(),
            old(self).listed(idx as int, |x: int, y: int| in_cells(b, x, y)),
        ensures
            final(self).cells_ok(),
            final(self).objects == old(self).objects,
            final(self).free_idxs == old(self).free_idxs,
            final(self).active_cells == old(self).active_cells,
            final(self).listed(idx as int, |x: int, y: int| in_cells(b, x, y) && in_opt(keep, x, y)),
    {
        let ghost pre = *self;
        let gx0 = floor_cell(b.rect.min.x);
        let gy0 = floor_cell(b.rect.min.y);
        let gx1 = ceil_cell(b.rect.max.x);
        let gy1 = ceil_cell(b.rect.max.y);
        let mut cx = gx0;
        while cx < gx1
            invariant
                self.cells_ok(),
                self.objects == pre.objects,
                self.free_idxs == pre.free_idxs,
                self.active_cells == pre.active_cells,
                keep matches Some(k) ==> k.rect.wf(),
                gx0 == grid_lo(b.rect.min.x as int),
                gy0 == grid_lo(b.rect.min.y as int),
                gx1 == grid_hi(b.rect.max.x as int),
                gy1 == grid_hi(b.rect.max.y as int),
                -10000000000 <= gx0 <= cx,
                cx <= gx1 || cx == gx0,
                gx1 <= 10000000000,
                -10000000000 <= gy0,
                gy1 <= 10000000000,
                self.listed(
                    idx as int,
                    |x: int, y: int| in_cells(b, x, y) && (x >= cx || in_opt(keep, x, y)),
                ),
            decreases gx1 - cx,
        {
            let mut cy = gy0;
            while cy < gy1
                invariant
                    self.cells_ok(),
                    self.objects == pre.objects,
                    self.free_idxs == pre.free_idxs,
                    self.active_cells == pre.active_cells,
                    keep matches Some(k) ==> k.rect.wf(),
                    gx0 == grid_lo(b.rect.min.x as int),
                    gy0 == grid_lo(b.rect.min.y as int),
                    gx1 == grid_hi(b.rect.max.x as int),
                    gy1 == grid_hi(b.rect.max.y as int),
                    gx0 <= cx < gx1,
                    gx1 <= 10000000000,
                    -10000000000 <= gy0 <= cy,
                    cy <= gy1 || cy == gy0,
                    gy1 <= 10000000000,
                    self.listed(
                        idx as int,
                        |x: int, y: int|
                            in_cells(b, x, y) && (!walked_before(cx as int, cy as int, x, y) || in_opt(
                                keep,
                                x,
                                y,
                            )),
                    ),
                decreases gy1 - cy,
            {
                let ghost before = *self;
                let kept_here = match keep {
                    Some(k) => {
                        let kx0 = floor_cell(k.rect.min.x);
                        let ky0 = floor_cell(k.rect.min.y);
                        let kx1 = ceil_cell(k.rect.max.x);
                        let ky1 = ceil_cell(k.rect.max.y);
                        kx0 <= cx && cx < kx1 && ky0 <= cy && cy < ky1
                    },
                    None => false,
                };
                assert(kept_here == in_opt(keep, cx as int, cy as int));
                if !kept_here {
                    proof {
                        assert(self.member(cx as int, cy as int, idx as int));
                    }
                    self.remove_from_cell(cx, cy, idx);
                }
                proof {
                    assert forall|x: int, y: int, i: int|
                        #![trigger self.member(x, y, i)]
                        #![trigger self.covers(i, x, y)]
                        self.member(x, y, i) <==> if i == idx {
                            in_cells(b, x, y) && (!walked_before(cx as int, cy + 1, x, y) || in_opt(keep, x, y))
                        } else {
                            self.covers(i, x, y)
                        } by {
                        assert(before.member(x, y, i) <==> if i == idx {
                            in_cells(b, x, y) && (!walked_before(cx as int, cy as int, x, y) || in_opt(keep, x, y))
                        } else {
                            before.covers(i, x, y)
                        });
                        assert(self.covers(i, x, y) == before.covers(i, x, y));
                    }
                }
                cy = cy + 1;
            }
            proof {
                let cur = *self;
                assert forall|x: int, y: int, i: int|
                    #![trigger cur.member(x, y, i)]
                    #![trigger cur.covers(i, x, y)]
                    cur.member(x, y, i) <==> if i == idx {
                        in_cells(b, x, y) && (x >= cx + 1 || in_opt(keep, x, y))
                    } else {
                        cur.covers(i, x, y)
                    } by {
                    assert(cur.member(x, y, i) <==> if i == idx {
                        in_cells(b, x, y) && (!walked_before(cx as int, cy as int, x, y) || in_opt(keep, x, y))
                    } else {
                        cur.covers(i, x, y)
                    });
                }
            }
            cx = cx + 1;
        }
        proof {
            let cur = *self;
            assert forall|x: int, y: int, i: int|
                #![trigger cur.member(x, y, i)]
                #![trigger cur.covers(i, x, y)]
                cur.member(x, y, i) <==> if i == idx {
                    in_cells(b, x, y) && in_opt(keep, x, y)
                } else {
                    cur.covers(i, x, y)
                } by {
                assert(cur.member(x, y, i) <==> if i == idx {
                    in_cells(b, x, y) && (x >= cx || in_opt(keep, x, y))
                } else {
                    cur.covers(i, x, y)
                });
            }
        }
    }

    /// Adds an object: it takes the oldest vacated slot, or a new one at the
    /// end, is listed in every cell that its bound covers, and those cells
    /// become active. Returns the slot, the object's handle.
    pub fn insert(&mut self, obj: Object<E>) -> (idx: usize)
        requires
            old(self).wf(),
            obj.bound.rect.wf(),
            has_area(obj.bound),
            old(self).slots().len() < usize::MAX,
        ensures
            final(self).wf(),
            (idx as int) < final(self).slots().len(),
            final(self).slots()[idx as int] == Some(obj),
            old(self).free_slots().len() > 0 ==> {
                &&& (idx as int) < old(self).slots().len()
                &&& !old(self).live(idx as int)
                &&& idx == old(self).free_slots()[0]
                &&& final(self).free_slots() == old(self).free_slots().drop_first()
                &&& final(self).slots() == old(self).slots().update(idx as int, Some(obj))
            },
            old(self).free_slots().len() == 0 ==> {
                &&& idx == old(self).slots().len()
                &&& final(self).free_slots() == old(self).free_slots()
                &&& final(self).slots() == old(self).slots().push(Some(obj))
            },
            forall|x: int, y: int|
                #[trigger] final(self).is_active(x, y) <==> old(self).is_active(x, y) || in_cells(
                    obj.bound,
                    x,
                    y,
                ),
    {
        let ghost pre = *self;
        let b = obj.bound;
        let idx = match self.free_idxs.pop_front() {
            Some(i) => {
                proof {
                    assert(pre.free_slots()[0] == i);
                }
                self.objects[i] = Some(obj);
                i
            },
            None => {
                self.objects.push(Some(obj));
                self.objects.len() - 1
            },
        };
        let ghost mid = *self;
        proof {
            assert(mid.slots()[idx as int] == Some(obj));
            assert forall|i: int| i != idx implies #[trigger] mid.live(i) == pre.live(i) && (mid.live(i)
                ==> mid.bound_of(i) == pre.bound_of(i)) by {}
            assert(!pre.live(idx as int));
            Self::lemma_same_active(mid, pre);
            assert forall|c: int| 0 <= c < mid.num_cells() implies #[trigger] mid.cell_members(c).len() > 0
                && mid.cell_members(c).no_duplicates() by {
                assert(pre.cell_members(c).len() > 0);
                assert(pre.cell_members(c).no_duplicates());
            }
            assert forall|c1: int, c2: int|
                0 <= c1 < mid.num_cells() && 0 <= c2 < mid.num_cells() && c1 != c2 implies #[trigger] mid.cell_pos(c1)
                    != #[trigger] mid.cell_pos(c2) by {
                assert(pre.cell_pos(c1) != pre.cell_pos(c2));
            }
            assert forall|c: int, k: int|
                0 <= c < mid.num_cells() && 0 <= k < mid.cell_members(c).len() implies #[trigger] mid.cell_members(c)[k]
                    < mid.slots().len() by {
                assert(pre.cell_members(c)[k] < pre.slots().len());
            }
            assert forall|x: int, y: int, i: int|
                #![trigger mid.member(x, y, i)]
                #![trigger mid.covers(i, x, y)]
                mid.member(x, y, i) <==> if i == idx {
                    in_cells(b, x, y) && in_opt(None, x, y)
                } else {
                    mid.covers(i, x, y)
                } by {
                assert(pre.member(x, y, i) == mid.member(x, y, i)) by {
                    if pre.member(x, y, i) {
                        let d = choose|d: int| #[trigger] pre.cell_holds(d, x, y, i);
                        assert(mid.cell_holds(d, x, y, i));
                    }
                    if mid.member(x, y, i) {
                        let d = choose|d: int| #[trigger] mid.cell_holds(d, x, y, i);
                        assert(pre.cell_holds(d, x, y, i));
                    }
                }
                assert(pre.member(x, y, i) == pre.covers(i, x, y));
            }
        }
        self.register_range(idx, b, None);
        proof {
            self.lemma_wf_from_listed(idx as int);
            if pre.free_slots().len() > 0 {
                assert(self.free_slots() =~= pre.free_slots().drop_first());
                assert forall|k: int| 0 <= k < self.free_slots().len() implies {
                    let i = #[trigger] self.free_slots()[k];
                    &&& (i as int) < self.slots().len()
                    &&& self.slots()[i as int] is None
                } by {
                    assert(self.free_slots()[k] == pre.free_slots()[k + 1]);
                    assert(pre.free_slots()[k + 1] != pre.free_slots()[0]);
                }
                assert forall|i: int|
                    0 <= i < self.slots().len() && #[trigger] self.slots()[i] is None implies self.free_slots().contains(
                        i as usize,
                    ) by {
                    assert(pre.free_slots().contains(i as usize));
                    let k = choose|k: int| 0 <= k < pre.free_slots().len() && pre.free_slots()[k] == i as usize;
                    assert(k != 0);
                    assert(self.free_slots()[k - 1] == i as usize);
                }
            } else {
                assert forall|i: int|
                    0 <= i < self.slots().len() && #[trigger] self.slots()[i] is None implies self.free_slots().contains(
                        i as usize,
                    ) by {
                    if i < pre.slots().len() {
                        assert(pre.slots()[i] is None);
                        assert(pre.free_slots().contains(i as usize));
                    }
                }
            }
            assert forall|i: int| #[trigger] self.live(i) implies self.bound_of(i).rect.wf() && has_area(self.bound_of(i)) by {
                if i != idx {
                    assert(pre.live(i));
                }
            }
        }
        idx
    }

    /// The cell lists agree with the slots, given that they list slot `idx`
    /// exactly in the cells that its object covers.
    proof fn lemma_wf_from_listed(self, idx: int)
        requires
            self.cells_ok(),
            self.live(idx),
            self.listed(idx, |x: int, y: int| in_cells(self.bound_of(idx), x, y)),
        ensures
            forall|x: int, y: int, i: int|
                #![trigger self.member(x, y, i)]
                #![trigger self.covers(i, x, y)]
                self.member(x, y, i) <==> self.covers(i, x, y),
    {
        assert forall|x: int, y: int, i: int|
            #![trigger self.member(x, y, i)]
            #![trigger self.covers(i, x, y)]
            self.member(x, y, i) <==> self.covers(i, x, y) by {
            assert(self.member(x, y, i) <==> if i == idx {
                in_cells(self.bound_of(idx), x, y)
            } else {
                self.covers(i, x, y)
            });
        }
    }

    /// Changing what the slots hold, without shrinking the slot array, keeps
    /// the cells as they were.
    proof fn lemma_slots_changed(a: Self, b: Self)
        requires
            a.cells == b.cells,
            a.active_cells == b.active_cells,
            a.slots().len() <= b.slots().len(),
            a.cells_ok(),
        ensures
            b.cells_ok(),
            forall|x: int, y: int, i: int| #[trigger] a.member(x, y, i) == b.member(x, y, i),
            forall|x: int, y: int| #[trigger] a.is_active(x, y) == b.is_active(x, y),
    {
        Self::lemma_same_active(a, b);
        assert forall|c: int| 0 <= c < a.num_cells() implies a.cell_members(c) == b.cell_members(c)
            && a.cell_pos(c) == b.cell_pos(c) by {}
        assert forall|x: int, y: int, i: int| #[trigger] a.member(x, y, i) == b.member(x, y, i) by {
            if a.member(x, y, i) {
                let d = choose|d: int| #[trigger] a.cell_holds(d, x, y, i);
                assert(b.cell_holds(d, x, y, i));
            }
            if b.member(x, y, i) {
                let d = choose|d: int| #[trigger] b.cell_holds(d, x, y, i);
                assert(a.cell_holds(d, x, y, i));
            }
        }
        assert forall|c: int, k: int|
            0 <= c < b.num_cells() && 0 <= k < b.cell_members(c).len() implies #[trigger] b.cell_members(c)[k]
                < b.slots().len() by {
            assert(a.cell_members(c)[k] < a.slots().len());
        }
        assert forall|c: int| 0 <= c < b.num_cells() implies #[trigger] b.cell_members(c).len() > 0
            && b.cell_members(c).no_duplicates() by {
            assert(a.cell_members(c).len() > 0);
            assert(a.cell_members(c).no_duplicates());
        }
        assert forall|c1: int, c2: int|
            0 <= c1 < b.num_cells() && 0 <= c2 < b.num_cells() && c1 != c2 implies #[trigger] b.cell_pos(c1)
                != #[trigger] b.cell_pos(c2) by {
            assert(a.cell_pos(c1) != a.cell_pos(c2));
        }
    }

    /// Takes the object in slot `idx` out of the grid: it leaves every cell
    /// (cells left empty are deleted) and the slot joins the end of the queue
    /// of vacated slots. Fails, changing nothing, if the slot holds no object.
    pub fn remove(&mut self, idx: usize) -> (r: Result<(), GridError>)
        requires
            old(self).wf(),
        ensures
            final(self).wf(),
            r is Err <==> !old(self).live(idx as int),
            r is Err ==> *final(self) == *old(self),
            r is Ok ==> {
                &&& final(self).slots() == old(self).slots().update(idx as int, None)
                &&& final(self).free_slots() == old(self).free_slots().push(idx)
            },
            forall|x: int, y: int| #[trigger] final(self).is_active(x, y) == old(self).is_active(x, y),
    {
        let ghost pre = *self;
        if idx >= self.objects.len() {
            return Err(GridError::InvalidHandle);
        }
        let b = match &self.objects[idx] {
            Some(o) => o.bound,
            None => {
                return Err(GridError::InvalidHandle);
            },
        };
        proof {
            assert(pre.live(idx as int));
            assert forall|x: int, y: int, i: int|
                #![trigger pre.member(x, y, i)]
                #![trigger pre.covers(i, x, y)]
                pre.member(x, y, i) <==> if i == idx {
                    in_cells(b, x, y)
                } else {
                    pre.covers(i, x, y)
                } by {
                assert(pre.member(x, y, i) == pre.covers(i, x, y));
            }
        }
        self.unregister_range(idx, b, None);
        let ghost mid = *self;
        self.objects.set(idx, None);
        self.free_idxs.push_back(idx);
        proof {
            Self::lemma_slots_changed(mid, *self);
            assert forall|x: int, y: int, i: int|
                #![trigger self.member(x, y, i)]
                #![trigger self.covers(i, x, y)]
                self.member(x, y, i) <==> self.covers(i, x, y) by {
                assert(mid.member(x, y, i) <==> if i == idx {
                    in_cells(b, x, y) && in_opt(None, x, y)
                } else {
                    mid.covers(i, x, y)
                });
                if i != idx {
                    assert(mid.covers(i, x, y) == self.covers(i, x, y));
                }
            }
            Self::lemma_same_active(mid, pre);
            Self::lemma_same_active(mid, *self);
            assert forall|x: int, y: int| #[trigger] self.is_active(x, y) == pre.is_active(x, y) by {
                assert(mid.is_active(x, y) == pre.is_active(x, y));
            }
            assert forall|i: int| #[trigger] self.live(i) implies self.bound_of(i).rect.wf() && has_area(self.bound_of(i)) by {
                assert(pre.live(i));
            }
            assert(!pre.free_slots().contains(idx)) by {
                if pre.free_slots().contains(idx) {
                    let k = choose|k: int| 0 <= k < pre.free_slots().len() && pre.free_slots()[k] == idx;
                    assert(pre.slots()[pre.free_slots()[k] as int] is None);
                }
            }
            let n = pre.free_slots().len() as int;
            assert forall|a: int, c: int| 0 <= a < self.free_slots().len() && 0 <= c < self.free_slots().len() && a != c
                implies self.free_slots()[a] != self.free_slots()[c] by {
                if a < n && c < n {
                    assert(pre.free_slots()[a] != pre.free_slots()[c]);
                } else if a < n {
                    assert(pre.free_slots().contains(pre.free_slots()[a]));
                } else if c < n {
                    assert(pre.free_slots().contains(pre.free_slots()[c]));
                }
            }
            assert forall|k: int| 0 <= k < self.free_slots().len() implies {
                let i = #[trigger] self.free_slots()[k];
                &&& (i as int) < self.slots().len()
                &&& self.slots()[i as int] is None
            } by {
                if k < n {
                    assert(self.free_slots()[k] == pre.free_slots()[k]);
                }
            }
            assert forall|i: int|
                0 <= i < self.slots().len() && #[trigger] self.slots()[i] is None implies self.free_slots().contains(
                    i as usize,
                ) by {
                if i == idx {
                    assert(self.free_slots()[n] == idx);
                } else {
                    assert(pre.slots()[i] is None);
                    assert(pre.free_slots().contains(i as usize));
                    let k = choose|k: int| 0 <= k < n && pre.free_slots()[k] == i as usize;
                    assert(self.free_slots()[k] == i as usize);
                }
            }
        }
        Ok(())
    }

    /// Gives the object in slot `idx` a new bound: it leaves the cells that
    /// only its old bound covers (cells left empty are deleted), joins those
    /// that only the new one covers, and every cell of the new range becomes
    /// active. Fails, changing nothing, if the slot holds no object.
    pub fn update(&mut self, idx: usize, bound: Bound) -> (r: Result<(), GridError>)
        requires
            old(self).wf(),
            bound.rect.wf(),
            has_area(bound),
        ensures
            final(self).wf(),
            r is Err <==> !old(self).live(idx as int),
            r is Err ==> *final(self) == *old(self),
            r is Ok ==> {
                &&& final(self).slots() == old(self).slots().update(
                    idx as int,
                    Some(Object { bound, entity: old(self).entity_of(idx as int) }),
                )
                &&& final(self).free_slots() == old(self).free_slots()
                &&& forall|x: int, y: int|
                    #[trigger] final(self).is_active(x, y) <==> old(self).is_active(x, y) || in_cells(
                        bound,
                        x,
                        y,
                    )
            },
    {
        let ghost pre = *self;
        if idx >= self.objects.len() {
            return Err(GridError::InvalidHandle);
        }
        let (old_bound, entity) = match &self.objects[idx] {
            Some(o) => (o.bound, o.entity),
            None => {
                return Err(GridError::InvalidHandle);
            },
        };
        proof {
            assert(pre.live(idx as int));
            assert forall|x: int, y: int, i: int|
                #![trigger pre.member(x, y, i)]
                #![trigger pre.covers(i, x, y)]
                pre.member(x, y, i) <==> if i == idx {
                    in_cells(old_bound, x, y)
                } else {
                    pre.covers(i, x, y)
                } by {
                assert(pre.member(x, y, i) == pre.covers(i, x, y));
            }
        }
        self.unregister_range(idx, old_bound, Some(bound));
        let ghost mid = *self;
        self.objects.set(idx, Some(Object { bound, entity }));
        let ghost mid2 = *self;
        proof {
            Self::lemma_slots_changed(mid, mid2);
            assert forall|x: int, y: int, i: int|
                #![trigger mid2.member(x, y, i)]
                #![trigger mid2.covers(i, x, y)]
                mid2.member(x, y, i) <==> if i == idx {
                    in_cells(bound, x, y) && in_opt(Some(old_bound), x, y)
                } else {
                    mid2.covers(i, x, y)
                } by {
                assert(mid.member(x, y, i) <==> if i == idx {
                    in_cells(old_bound, x, y) && in_opt(Some(bound), x, y)
                } else {
                    mid.covers(i, x, y)
                });
                if i != idx {
                    assert(mid.covers(i, x, y) == mid2.covers(i, x, y));
                }
            }
        }
        self.register_range(idx, bound, Some(old_bound));
        proof {
            assert(self.slots()[idx as int] == Some(Object { bound, entity }));
            self.lemma_wf_from_listed(idx as int);
            Self::lemma_same_active(mid, pre);
            Self::lemma_same_active(mid, mid2);
            assert forall|x: int, y: int|
                #[trigger] self.is_active(x, y) <==> pre.is_active(x, y) || in_cells(bound, x, y) by {
                assert(mid.is_active(x, y) == pre.is_active(x, y));
                assert(mid2.is_active(x, y) == mid.is_active(x, y));
            }
            assert forall|i: int| #[trigger] self.live(i) implies self.bound_of(i).rect.wf() && has_area(self.bound_of(i)) by {
                if i != idx {
                    assert(pre.live(i));
                }
            }
            assert forall|k: int| 0 <= k < self.free_slots().len() implies {
                let i = #[trigger] self.free_slots()[k];
                &&& (i as int) < self.slots().len()
                &&& self.slots()[i as int] is None
            } by {
                assert(pre.slots()[pre.free_slots()[k] as int] is None);
            }
            assert forall|i: int|
                0 <= i < self.slots().len() && #[trigger] self.slots()[i] is None implies self.free_slots().contains(
                    i as usize,
                ) by {
                assert(pre.slots()[i] is None);
            }
        }
        Ok(())
    }

    /// Slot `i` is listed in the cell at `c` exactly when that cell's
    /// coordinates list it.
    proof fn lemma_member_at(self, c: int, i: int)
        requires
            self.cells_ok(),
            0 <= c < self.num_cells(),
            0 <= i <= usize::MAX,
        ensures
            self.member(self.cell_pos(c).0, self.cell_pos(c).1, i) == self.cell_members(c).contains(
                i as usize,
            ),
    {
        let (x, y) = self.cell_pos(c);
        if self.member(x, y, i) {
            let d = choose|d: int| #[trigger] self.cell_holds(d, x, y, i);
            if d != c {
                assert(self.cell_pos(d) != self.cell_pos(c));
            }
        }
        if self.cell_members(c).contains(i as usize) {
            assert(self.cell_holds(c, x, y, i));
        }
    }

    /// Runs the query: returns each pending pair once, as slots `(i, j)` with
    /// `i < j`, and clears the set of active cells. The grid is otherwise
    /// unchanged.
    pub fn pairs(&mut self) -> (r: Vec<(usize, usize)>)
        requires
            old(self).wf(),
        ensures
            final(self).wf(),
            final(self).slots() == old(self).slots(),
            final(self).free_slots() == old(self).free_slots(),
            forall|x: int, y: int, i: int| #[trigger] final(self).member(x, y, i) == old(self).member(x, y, i),
            forall|x: int, y: int| !#[trigger] final(self).is_active(x, y),
            r@.no_duplicates(),
            forall|i: usize, j: usize| #[trigger] r@.contains((i, j)) <==> old(self).pending(i as int, j as int),
    {
        let ghost pre = *self;
        let mut found: Vec<(usize, usize)> = Vec::new();
        let mut a: usize = 0;
        while a < self.active_cells.len()
            invariant
                *self == pre,
                pre.wf(),
                a <= self.active_cells@.len(),
                found@.no_duplicates(),
                forall|i: usize, j: usize|
                    #[trigger] found@.contains((i, j)) <==> exists|k: int|
                        0 <= k < a && #[trigger] pre.pair_at(k, i as int, j as int),
            decreases self.active_cells@.len() - a,
        {
            let pos = self.active_cells[a];
            let ghost (ax, ay) = pre.active_pos(a as int);
            match self.find_cell(pos.x, pos.y) {
                Some(c) => {
                    let n = self.cells[c].1.objects.len();
                    let ghost objs = pre.cell_members(c as int);
                    let mut p: usize = 0;
                    while p < n
                        invariant
                            *self == pre,
                            pre.wf(),
                            a < self.active_cells@.len(),
                            (c as int) < pre.num_cells(),
                            pre.cell_pos(c as int) == (ax, ay),
                            objs == pre.cell_members(c as int),
                            n == objs.len(),
                            p <= n,
                            found@.no_duplicates(),
                            forall|i: usize, j: usize|
                                #[trigger] found@.contains((i, j)) <==> (exists|k: int|
                                    0 <= k < a && #[trigger] pre.pair_at(k, i as int, j as int)) || (
                                pre.colliding(i as int, j as int) && objs.subrange(0, p as int).contains(i)
                                    && objs.contains(j)),
                        decreases n - p,
                    {
                        let mut q: usize = 0;
                        while q < n
                            invariant
                                *self == pre,
                                pre.wf(),
                                a < self.active_cells@.len(),
                                (c as int) < pre.num_cells(),
                                pre.cell_pos(c as int) == (ax, ay),
                                objs == pre.cell_members(c as int),
                                n == objs.len(),
                                p < n,
                                q <= n,
                                found@.no_duplicates(),
                                forall|i: usize, j: usize|
                                    #[trigger] found@.contains((i, j)) <==> (exists|k: int|
                                        0 <= k < a && #[trigger] pre.pair_at(k, i as int, j as int)) || (
                                    pre.colliding(i as int, j as int) && ((objs.subrange(0, p as int).contains(i)
                                        && objs.contains(j)) || (i == objs[p as int] && objs.subrange(0, q as int).contains(j)))),
                            decreases n - q,
                        {
                            let i1 = self.cells[c].1.objects[p];
                            let i2 = self.cells[c].1.objects[q];
                            let mut hit = false;
                            if i1 < i2 && i2 < self.objects.len() {
                                match (&self.objects[i1], &self.objects[i2]) {
                                    (Some(o1), Some(o2)) => {
                                        hit = o1.bound.rect.is_intersecting(o2.bound.rect);
                                    },
                                    _ => {},
                                }
                            }
                            assert(hit == pre.colliding(i1 as int, i2 as int));
                            if hit && !contains_pair(&found, (i1, i2)) {
                                let ghost f0 = found@;
                                found.push((i1, i2));
                                proof {
                                    assert forall|t: int, u: int| 0 <= t < found@.len() && 0 <= u < found@.len() && t != u
                                        implies found@[t] != found@[u] by {
                                        if t < f0.len() && u < f0.len() {
                                            assert(f0[t] != f0[u]);
                                        } else if t < f0.len() {
                                            assert(f0.contains(f0[t]));
                                        } else if u < f0.len() {
                                            assert(f0.contains(f0[u]));
                                        }
                                    }
                                    assert forall|i: usize, j: usize| #[trigger] found@.contains((i, j)) <==> f0.contains((i, j))
                                        || (i, j) == (i1, i2) by {
                                        if found@.contains((i, j)) {
                                            let t = choose|t: int| 0 <= t < found@.len() && found@[t] == (i, j);
                                            if t < f0.len() {
                                                assert(f0[t] == (i, j));
                                            }
                                        }
                                        if f0.contains((i, j)) {
                                            let t = choose|t: int| 0 <= t < f0.len() && f0[t] == (i, j);
                                            assert(found@[t] == (i, j));
                                        }
                                        if (i, j) == (i1, i2) {
                                            assert(found@[f0.len() as int] == (i, j));
                                        }
                                    }
                                }
                            }
                            proof {
                                assert(objs.subrange(0, q + 1) =~= objs.subrange(0, q as int).push(objs[q as int]));
                                assert forall|i: usize, j: usize|
                                    #[trigger] found@.contains((i, j)) <==> (exists|k: int|
                                        0 <= k < a && #[trigger] pre.pair_at(k, i as int, j as int)) || (
                                    pre.colliding(i as int, j as int) && ((objs.subrange(0, p as int).contains(i)
                                        && objs.contains(j)) || (i == objs[p as int] && objs.subrange(0, q + 1).contains(j)))) by {
                                    if objs.subrange(0, q + 1).contains(j) && !objs.subrange(0, q as int).contains(j) {
                                        let t = choose|t: int| 0 <= t < q + 1 && #[trigger] objs.subrange(0, q + 1)[t] == j;
                                        assert(t == q);
                                    }
                                    if objs.subrange(0, q as int).contains(j) {
                                        let t = choose|t: int| 0 <= t < q && #[trigger] objs.subrange(0, q as int)[t] == j;
                                        assert(objs.subrange(0, q + 1)[t] == j);
                                    }
                                    if j == objs[q as int] {
                                        assert(objs.subrange(0, q + 1)[q as int] == j);
                                    }
                                }
                            }
                            q = q + 1;
                        }
                        proof {
                            assert(objs.subrange(0, n as int) =~= objs);
                            assert forall|i: usize, j: usize|
                                #[trigger] found@.contains((i, j)) <==> (exists|k: int|
                                    0 <= k < a && #[trigger] pre.pair_at(k, i as int, j as int)) || (
                                pre.colliding(i as int, j as int) && objs.subrange(0, p + 1).contains(i)
                                    && objs.contains(j)) by {
                                if objs.subrange(0, p + 1).contains(i) && !objs.subrange(0, p as int).contains(i) {
                                    let t = choose|t: int| 0 <= t < p + 1 && #[trigger] objs.subrange(0, p + 1)[t] == i;
                                    assert(t == p);
                                }
                                if objs.subrange(0, p as int).contains(i) {
                                    let t = choose|t: int| 0 <= t < p && #[trigger] objs.subrange(0, p as int)[t] == i;
                                    assert(objs.subrange(0, p + 1)[t] == i);
                                }
                                if i == objs[p as int] {
                                    assert(objs.subrange(0, p + 1)[p as int] == i);
                                }
                            }
                        }
                        p = p + 1;
                    }
                    proof {
                        assert(objs.subrange(0, n as int) =~= objs);
                        assert forall|i: usize, j: usize|
                            #[trigger] found@.contains((i, j)) <==> exists|k: int|
                                0 <= k < a + 1 && #[trigger] pre.pair_at(k, i as int, j as int) by {
                            pre.lemma_member_at(c as int, i as int);
                            pre.lemma_member_at(c as int, j as int);
                            if pre.pair_at(a as int, i as int, j as int) {
                                assert(objs.contains(i) && objs.contains(j));
                            }
                            if exists|k: int| 0 <= k < a + 1 && #[trigger] pre.pair_at(k, i as int, j as int) {
                                let k = choose|k: int| 0 <= k < a + 1 && #[trigger] pre.pair_at(k, i as int, j as int);
                                if k < a {
                                } else {
                                    assert(k == a);
                                }
                            }
                            if pre.colliding(i as int, j as int) && objs.contains(i) && objs.contains(j) {
                                assert(pre.pair_at(a as int, i as int, j as int));
                            }
                        }
                    }
                },
                None => {
                    proof {
                        assert forall|i: usize, j: usize|
                            #[trigger] found@.contains((i, j)) <==> exists|k: int|
                                0 <= k < a + 1 && #[trigger] pre.pair_at(k, i as int, j as int) by {
                            if pre.pair_at(a as int, i as int, j as int) {
                                let d = choose|d: int| #[trigger] pre.cell_holds(d, ax, ay, i as int);
                                assert(pre.has_cell(ax, ay));
                            }
                            if exists|k: int| 0 <= k < a + 1 && #[trigger] pre.pair_at(k, i as int, j as int) {
                                let k = choose|k: int| 0 <= k < a + 1 && #[trigger] pre.pair_at(k, i as int, j as int);
                                if k == a {
                                    let d = choose|d: int| #[trigger] pre.cell_holds(d, ax, ay, i as int);
                                    assert(pre.has_cell(ax, ay));
                                }
                            }
                        }
                    }
                },
            }
            a = a + 1;
        }
        proof {
            assert forall|i: usize, j: usize| #[trigger] found@.contains((i, j)) <==> pre.pending(i as int, j as int) by {
                if found@.contains((i, j)) {
                    let k = choose|k: int| 0 <= k < pre.active_cells@.len() && #[trigger] pre.pair_at(k, i as int, j as int);
                    let (x, y) = pre.active_pos(k);
                    assert(pre.is_active(x, y));
                    assert(pre.member(x, y, i as int) == pre.covers(i as int, x, y));
                    assert(pre.member(x, y, j as int) == pre.covers(j as int, x, y));
                }
                if pre.pending(i as int, j as int) {
                    let (x, y) = choose|x: int, y: int|
                        #![trigger pre.covers(i as int, x, y), pre.covers(j as int, x, y)]
                        pre.is_active(x, y) && pre.covers(i as int, x, y) && pre.covers(j as int, x, y);
                    let k = choose|k: int| 0 <= k < pre.active_cells@.len() && #[trigger] pre.active_pos(k) == (x, y);
                    assert(pre.member(x, y, i as int) == pre.covers(i as int, x, y));
                    assert(pre.member(x, y, j as int) == pre.covers(j as int, x, y));
                    assert(pre.pair_at(k, i as int, j as int));
                }
            }
        }
        self.active_cells.clear();
        proof {
            Self::lemma_same_cells(*self, pre);
            assert forall|x: int, y: int, i: int|
                #![trigger self.member(x, y, i)]
                #![trigger self.covers(i, x, y)]
                self.member(x, y, i) <==> self.covers(i, x, y) by {
                assert(pre.member(x, y, i) <==> pre.covers(i, x, y));
            }
            assert forall|i: int| #[trigger] self.live(i) implies self.bound_of(i).rect.wf() && has_area(self.bound_of(i)) by {
                assert(pre.live(i));
            }
        }
        found
    }

    /// Runs the query and hands back the identities of each pending pair once,
    /// in the order of `pairs`.
    pub fn for_each(&mut self) -> (r: Vec<(E, E)>)
        requires
            old(self).wf(),
        ensures
            final(self).wf(),
            final(self).slots() == old(self).slots(),
            final(self).free_slots() == old(self).free_slots(),
            forall|x: int, y: int, i: int| #[trigger] final(self).member(x, y, i) == old(self).member(x, y, i),
            forall|x: int, y: int| !#[trigger] final(self).is_active(x, y),
            exists|p: Seq<(usize, usize)>| old(self).query_result(p) && r@ == old(self).entity_pairs(p),
    {
        let ghost pre = *self;
        let ps = self.pairs();
        proof {
            assert(pre.query_result(ps@));
        }
        let mut out: Vec<(E, E)> = Vec::new();
        let mut k: usize = 0;
        while k < ps.len()
            invariant
                self.slots() == pre.slots(),
                k <= ps@.len(),
                out@.len() == k,
                forall|i: usize, j: usize| #[trigger] ps@.contains((i, j)) <==> pre.pending(i as int, j as int),
                forall|t: int|
                    0 <= t < k ==> #[trigger] out@[t] == (pre.entity_of(ps@[t].0 as int), pre.entity_of(
                        ps@[t].1 as int,
                    )),
            decreases ps@.len() - k,
        {
            let (i, j) = ps[k];
            proof {
                assert(ps@.contains((i, j)));
                assert(pre.live(i as int) && pre.live(j as int));
            }
            let oi = self.objects[i].unwrap();
            let oj = self.objects[j].unwrap();
            out.push((oi.entity, oj.entity));
            k = k + 1;
        }
        proof {
            assert(out@ =~= pre.entity_pairs(ps@));
        }
        out
    }

    /// The slots listed in cell `(x, y)`, or `None` when the cell is absent
    /// from the index.
    pub fn cell_objects(&self, x: i64, y: i64) -> (r: Option<Vec<usize>>)
        requires
            self.wf(),
        ensures
            r is None <==> !self.has_cell(x as int, y as int),
            r matches Some(v) ==> v@.len() > 0 && forall|i: usize| #[trigger] v@.contains(i) <==> self.covers(
                i as int,
                x as int,
                y as int,
            ),
    {
        match self.find_cell(x, y) {
            None => None,
            Some(c) => {
                let mut v: Vec<usize> = Vec::new();
                let mut k: usize = 0;
                let n = self.cells[c].1.objects.len();
                while k < n
                    invariant
                        (c as int) < self.num_cells(),
                        n == self.cell_members(c as int).len(),
                        k <= n,
                        v@ == self.cell_members(c as int).subrange(0, k as int),
                    decreases n - k,
                {
                    v.push(self.cells[c].1.objects[k]);
                    proof {
                        assert(v@ =~= self.cell_members(c as int).subrange(0, k + 1));
                    }
                    k = k + 1;
                }
                proof {
                    assert(v@ =~= self.cell_members(c as int));
                    assert(self.cell_members(c as int).len() > 0);
                    assert forall|i: usize| #[trigger] v@.contains(i) <==> self.covers(i as int, x as int, y as int) by {
                        self.lemma_member_at(c as int, i as int);
                        assert(self.member(x as int, y as int, i as int) == self.covers(i as int, x as int, y as int));
                    }
                }
                Some(v)
            },
        }
    }

    /// The number of slots, filled or vacated.
    pub fn len(&self) -> (r: usize)
        ensures
            r == self.slots().len(),
    {
        self.objects.len()
    }

    /// The object in slot `idx`, if there is one.
    pub fn get(&self, idx: usize) -> (r: Option<Object<E>>)
        ensures
            r == (if (idx as int) < self.slots().len() {
                self.slots()[idx as int]
            } else {
                None
            }),
    {
        if idx < self.objects.len() {
            self.objects[idx]
        } else {
            None
        }
    }
}



/// Two boxes of positive area that intersect share a grid cell: the one
/// holding the corner where their overlap begins.
pub proof fn lemma_intersecting_share_cell(a: Bound, b: Bound)
    requires
        has_area(a),
        has_area(b),
        a.rect.intersects(b.rect),
    ensures
        in_cells(a, grid_lo(max(a.rect.min.x as int, b.rect.min.x as int)), grid_lo(max(a.rect.min.y as int, b.rect.min.y as int))),
        in_cells(b, grid_lo(max(a.rect.min.x as int, b.rect.min.x as int)), grid_lo(max(a.rect.min.y as int, b.rect.min.y as int))),
{
    lemma_cell_range_holds(a.rect.min.x as int, max(a.rect.min.x as int, b.rect.min.x as int), a.rect.max.x as int);
    lemma_cell_range_holds(b.rect.min.x as int, max(a.rect.min.x as int, b.rect.min.x as int), b.rect.max.x as int);
    lemma_cell_range_holds(a.rect.min.y as int, max(a.rect.min.y as int, b.rect.min.y as int), a.rect.max.y as int);
    lemma_cell_range_holds(b.rect.min.y as int, max(a.rect.min.y as int, b.rect.min.y as int), b.rect.max.y as int);
}

/// A coordinate `p` with `lo <= p < hi` lies in a cell of the range of
/// `[lo, hi]`.
proof fn lemma_cell_range_holds(lo: int, p: int, hi: int)
    requires
        lo <= p < hi,
    ensures
        grid_lo(lo) <= grid_lo(p) < grid_hi(hi),
{
    assert(grid_lo(lo) <= grid_lo(p)) by (nonlinear_arith)
        requires
            lo <= p,
    {
        vstd::arithmetic::div_mod::lemma_div_is_ordered(lo, p, 100);
    }
    assert(grid_lo(p) < grid_hi(hi)) by (nonlinear_arith)
        requires
            p < hi,
    {
        vstd::arithmetic::div_mod::lemma_fundamental_div_mod(p, 100);
        vstd::arithmetic::div_mod::lemma_fundamental_div_mod(-hi, 100);
    }
}

impl<E: Copy> BroadPhase<E> {
    /// Every cell that a live object covers is active: what holds right
    /// after objects are inserted or updated.
    pub open spec fn all_covered_active(self) -> bool {
        forall|i: int, x: int, y: int| #[trigger] self.covers(i, x, y) ==> self.is_active(x, y)
    }


    /// While every covered cell is active, the pending pairs are exactly the
    /// pairs of objects whose bounds intersect (for bounds of positive area).
    pub proof fn lemma_pending_when_all_active(self, i: int, j: int)
        requires
            self.wf(),
            self.all_covered_active(),
        ensures
            self.pending(i, j) == self.colliding(i, j),
    {
        if self.colliding(i, j) {
            let a = self.bound_of(i);
            let b = self.bound_of(j);
            lemma_intersecting_share_cell(a, b);
            let x = grid_lo(max(a.rect.min.x as int, b.rect.min.x as int));
            let y = grid_lo(max(a.rect.min.y as int, b.rect.min.y as int));
            assert(self.covers(i, x, y) && self.covers(j, x, y));
            assert(self.is_active(x, y));
        }
    }

    /// A grid that holds at most one object has no pending pairs.
    pub proof fn lemma_lone_object_no_pairs(self, r: Seq<(usize, usize)>)
        requires
            forall|i: int, j: int| self.live(i) && self.live(j) ==> i == j,
            forall|i: usize, j: usize| #[trigger] r.contains((i, j)) <==> self.pending(i as int, j as int),
        ensures
            r.len() == 0,
    {
        if r.len() > 0 {
            assert(r.contains(r[0]));
            assert(r.contains((r[0].0, r[0].1)));
        }
    }

    /// Removing one of the only two objects of a grid leaves nothing to
    /// report.
    pub proof fn lemma_removal_leaves_no_pairs(pre: Self, post: Self, gone: int, r: Seq<(usize, usize)>)
        requires
            forall|i: int, j: int, k: int| pre.live(i) && pre.live(j) && pre.live(k) ==> i == j || i == k || j == k,
            pre.live(gone),
            post.slots() == pre.slots().update(gone, None),
            forall|i: usize, j: usize| #[trigger] r.contains((i, j)) <==> post.pending(i as int, j as int),
        ensures
            r.len() == 0,
    {
        assert forall|i: int, j: int| post.live(i) && post.live(j) implies i == j by {
            assert(pre.live(i) && pre.live(j) && i != gone && j != gone);
        }
        post.lemma_lone_object_no_pairs(r);
    }

    /// Once the active cells are drained, the query reports nothing.
    pub proof fn lemma_drained_no_pairs(self, r: Seq<(usize, usize)>)
        requires
            forall|x: int, y: int| !#[trigger] self.is_active(x, y),
            forall|i: usize, j: usize| #[trigger] r.contains((i, j)) <==> self.pending(i as int, j as int),
        ensures
            r.len() == 0,
    {
        if r.len() > 0 {
            assert(r.contains(r[0]));
            assert(r.contains((r[0].0, r[0].1)));
        }
    }

    /// Two objects, the only ones in the grid, whose bounds intersect and
    /// whose cells are all active, are reported as one pair, once.
    pub proof fn lemma_overlapping_pair_reported_once(self, i: usize, j: usize, r: Seq<(usize, usize)>)
        requires
            self.wf(),
            self.all_covered_active(),
            i < j,
            self.live(i as int),
            self.live(j as int),
            forall|k: int| #[trigger] self.live(k) ==> k == i || k == j,
            self.bound_of(i as int).rect.intersects(self.bound_of(j as int).rect),
            r.no_duplicates(),
            forall|a: usize, b: usize| #[trigger] r.contains((a, b)) <==> self.pending(a as int, b as int),
        ensures
            r == seq![(i, j)],
    {
        self.lemma_pending_when_all_active(i as int, j as int);
        assert(r.contains((i, j)));
        assert forall|a: usize, b: usize| #[trigger] r.contains((a, b)) implies (a, b) == (i, j) by {
            self.lemma_pending_when_all_active(a as int, b as int);
        }
        assert(r.to_set() =~= set![(i, j)]) by {
            assert forall|p: (usize, usize)| r.to_set().contains(p) <==> set![(i, j)].contains(p) by {
                if r.contains(p) {
                    assert(r.contains((p.0, p.1)));
                }
            }
        }
        r.unique_seq_to_set();
        assert(set![(i, j)].len() == 1);
        assert(r.len() == 1);
        assert(r[0] == (i, j)) by {
            assert(r.contains(r[0]));
            assert(r.contains((r[0].0, r[0].1)));
        }
        assert(r =~= seq![(i, j)]);
    }

    /// Three objects, the only ones in the grid, whose bounds intersect pairwise
    /// and whose cells are all active, give exactly three pairs.
    pub proof fn lemma_three_overlapping_three_pairs(
        self,
        i: usize,
        j: usize,
        k: usize,
        r: Seq<(usize, usize)>,
    )
        requires
            self.wf(),
            self.all_covered_active(),
            i < j < k,
            self.live(i as int),
            self.live(j as int),
            self.live(k as int),
            forall|t: int| #[trigger] self.live(t) ==> t == i || t == j || t == k,
            self.bound_of(i as int).rect.intersects(self.bound_of(j as int).rect),
            self.bound_of(i as int).rect.intersects(self.bound_of(k as int).rect),
            self.bound_of(j as int).rect.intersects(self.bound_of(k as int).rect),
            r.no_duplicates(),
            forall|a: usize, b: usize| #[trigger] r.contains((a, b)) <==> self.pending(a as int, b as int),
        ensures
            r.len() == 3,
    {
        let want = set![(i, j), (i, k), (j, k)];
        self.lemma_pending_when_all_active(i as int, j as int);
        self.lemma_pending_when_all_active(i as int, k as int);
        self.lemma_pending_when_all_active(j as int, k as int);
        assert(r.to_set() =~= want) by {
            assert forall|p: (usize, usize)| r.to_set().contains(p) <==> want.contains(p) by {
                self.lemma_pending_when_all_active(p.0 as int, p.1 as int);
                if r.contains(p) {
                    assert(r.contains((p.0, p.1)));
                }
                if want.contains(p) {
                    assert(r.contains((p.0, p.1)));
                }
            }
        }
        r.unique_seq_to_set();
        assert(want.len() == 3);
    }

    /// Of three objects whose bounds intersect pairwise, the only ones in the
    /// grid, removing one leaves exactly one pair, once the cells of the other
    /// two are active again.
    pub proof fn lemma_removal_from_three_leaves_one(
        pre: Self,
        post: Self,
        i: usize,
        j: usize,
        k: usize,
        r: Seq<(usize, usize)>,
    )
        requires
            i < j < k,
            pre.live(i as int),
            pre.live(j as int),
            pre.live(k as int),
            forall|t: int| #[trigger] pre.live(t) ==> t == i || t == j || t == k,
            pre.bound_of(j as int).rect.intersects(pre.bound_of(k as int).rect),
            post.slots() == pre.slots().update(i as int, None),
            post.wf(),
            post.all_covered_active(),
            r.no_duplicates(),
            forall|a: usize, b: usize| #[trigger] r.contains((a, b)) <==> post.pending(a as int, b as int),
        ensures
            r.len() == 1,
    {
        assert forall|t: int| #[trigger] post.live(t) implies t == j || t == k by {
            assert(pre.live(t));
        }
        post.lemma_overlapping_pair_reported_once(j, k, r);
    }

    /// Every cell of the index is covered by some object, and lists exactly
    /// the objects that cover it.
    pub proof fn lemma_cells_match_objects(self, x: int, y: int)
        requires
            self.wf(),
        ensures
            self.has_cell(x, y) <==> exists|i: int| #[trigger] self.covers(i, x, y),
            forall|i: int| #[trigger] self.member(x, y, i) <==> self.covers(i, x, y),
    {
        if self.has_cell(x, y) {
            let c = choose|c: int| 0 <= c < self.num_cells() && #[trigger] self.cell_pos(c) == (x, y);
            assert(self.cell_members(c).len() > 0);
            let i = self.cell_members(c)[0];
            assert(self.cell_members(c).contains(i));
            assert(self.cell_holds(c, x, y, i as int));
            assert(self.member(x, y, i as int));
            assert(self.covers(i as int, x, y));
        }
        if exists|i: int| #[trigger] self.covers(i, x, y) {
            let i = choose|i: int| #[trigger] self.covers(i, x, y);
            assert(self.member(x, y, i));
            let c = choose|c: int| #[trigger] self.cell_holds(c, x, y, i);
            assert(self.cell_pos(c) == (x, y));
        }
    }

    /// After `update` gives the object in slot `idx` the bound `b`: a cell
    /// that only the old bound covered and that no other object covers is
    /// gone from the index, and every cell of the new range is present and
    /// lists `idx`.
    pub proof fn lemma_update_moves_cells(pre: Self, post: Self, idx: int, b: Bound, x: int, y: int)
        requires
            pre.wf(),
            post.wf(),
            pre.live(idx),
            post.slots() == pre.slots().update(idx, Some(Object { bound: b, entity: pre.entity_of(idx) })),
        ensures
            in_cells(pre.bound_of(idx), x, y) && !in_cells(b, x, y) && (forall|i: int|
                i != idx ==> !#[trigger] pre.covers(i, x, y)) ==> !post.has_cell(x, y),
            in_cells(b, x, y) ==> post.has_cell(x, y) && post.member(x, y, idx),
    {
        post.lemma_cells_match_objects(x, y);
        if in_cells(pre.bound_of(idx), x, y) && !in_cells(b, x, y) && (forall|i: int|
            i != idx ==> !#[trigger] pre.covers(i, x, y)) {
            assert forall|i: int| !#[trigger] post.covers(i, x, y) by {
                if i != idx {
                    assert(!pre.covers(i, x, y));
                }
            }
        }
        if in_cells(b, x, y) {
            assert(post.covers(idx, x, y));
        }
    }
}

} // verus!
