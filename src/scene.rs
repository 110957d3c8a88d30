use vstd::prelude::*;

use crate::body::PhysicsObject;
use crate::collision::contact;
use crate::geometry::{vsub, COORD_LIMIT};
use crate::grid::{candidate_pairs, cell_range_of, is_candidate, CellRange, GRID_LIMIT};
use crate::resolve::resolved_pair;

verus! {

/// Number of grid cells along each axis of a new scene.
pub const DEFAULT_GRID_CELLS: usize = 10;

/// The bodies of the simulation, the broad-phase grid and the world extent
/// that the grid covers.
pub struct Scene {
    pub game_objects: Vec<PhysicsObject>,
    pub space_partitioning_grid_size: (usize, usize),
    pub world_size: (i64, i64),
}

/// Whether the bodies `i` and `j` of `objs` overlap.
pub open spec fn pair_collides(objs: Seq<PhysicsObject>, p: (usize, usize)) -> bool {
    let a = objs[p.0 as int];
    let b = objs[p.1 as int];
    contact(a.polygon.corners@, b.polygon.corners@, vsub(b.obj.pos, a.obj.pos)) is Some
}

/// The pairs of `pairs` whose bodies overlap, in their order.
pub open spec fn colliding_pairs(objs: Seq<PhysicsObject>, pairs: Seq<(usize, usize)>) -> Seq<
    (usize, usize),
>
    decreases pairs.len(),
{
    if pairs.len() == 0 {
        Seq::empty()
    } else {
        let rest = colliding_pairs(objs, pairs.drop_last());
        if pair_collides(objs, pairs.last()) {
            rest.push(pairs.last())
        } else {
            rest
        }
    }
}

/// Bodies `after` are bodies `before` with the pair `p` resolved.
pub open spec fn resolve_step(
    before: Seq<PhysicsObject>,
    after: Seq<PhysicsObject>,
    p: (usize, usize),
) -> bool {
    &&& after.len() == before.len()
    &&& p.0 < p.1 < before.len()
    &&& forall|k: int|
        0 <= k < before.len() && k != p.0 && k != p.1 ==> #[trigger] after[k] == before[k]
    &&& resolved_pair(&before[p.0 as int], &before[p.1 as int], &after[p.0 as int], &after[p.1 as int])
}

/// `trace` runs from `before` to `after`, resolving the pairs one by one.
pub open spec fn resolve_trace(
    trace: Seq<Seq<PhysicsObject>>,
    pairs: Seq<(usize, usize)>,
    before: Seq<PhysicsObject>,
    after: Seq<PhysicsObject>,
) -> bool {
    &&& trace.len() == pairs.len() + 1
    &&& trace[0] == before
    &&& trace.last() == after
    &&& forall|k: int| 0 <= k < pairs.len() ==> resolve_step(trace[k], trace[k + 1], #[trigger] pairs[k])
}

/// Each body of `after` is the body of `before` advanced by `dt` ticks.
pub open spec fn all_advanced(before: Seq<PhysicsObject>, after: Seq<PhysicsObject>, dt: int) -> bool {
    &&& after.len() == before.len()
    &&& forall|i: int|
        0 <= i < before.len() ==> PhysicsObject::advanced(&before[i], &#[trigger] after[i], dt)
}

/// `pairs` holds each broad-phase candidate of `ranges` exactly once, and
/// nothing else.
pub open spec fn broad_phase_of(pairs: Seq<(usize, usize)>, ranges: Seq<CellRange>) -> bool {
    &&& forall|k: int| 0 <= k < pairs.len() ==> is_candidate(ranges, #[trigger] pairs[k])
    &&& forall|p: (usize, usize)| is_candidate(ranges, p) ==> pairs.contains(p)
    &&& pairs.no_duplicates()
}

/// The cells covered by each body's bounding box.
pub open spec fn cell_ranges_of(objs: Seq<PhysicsObject>, grid: (usize, usize), world: (i64, i64)) -> Seq<
    CellRange,
> {
    Seq::new(
        objs.len(),
        |i: int|
            cell_range_of(
                objs[i].polygon.bounding_box,
                grid.0 as int,
                grid.1 as int,
                world.0 as int,
                world.1 as int,
            ),
    )
}

pub open spec fn all_wf(objs: Seq<PhysicsObject>) -> bool {
    forall|i: int| 0 <= i < objs.len() ==> (#[trigger] objs[i]).wf()
}

/// Every pair kept by the narrow phase comes from the input.
pub proof fn lemma_colliding_pairs_sub(objs: Seq<PhysicsObject>, pairs: Seq<(usize, usize)>)
    ensures
        forall|k: int|
            0 <= k < colliding_pairs(objs, pairs).len() ==> pairs.contains(
                #[trigger] colliding_pairs(objs, pairs)[k],
            ),
    decreases pairs.len(),
{
    if pairs.len() > 0 {
        let init = pairs.drop_last();
        lemma_colliding_pairs_sub(objs, init);
        let rest = colliding_pairs(objs, init);
        assert forall|k: int| 0 <= k < colliding_pairs(objs, pairs).len() implies pairs.contains(
            #[trigger] colliding_pairs(objs, pairs)[k],
        ) by {
            if k < rest.len() {
                let x = rest[k];
                assert(init.contains(x));
                let j = choose|j: int| 0 <= j < init.len() && init[j] == x;
                assert(pairs[j] == x);
            } else {
                assert(pairs[pairs.len() - 1] == pairs.last());
            }
        }
    }
}

impl Scene {
    /// Grid and world within their limits, every body well formed.
    pub open spec fn wf(&self) -> bool {
        &&& 0 < self.space_partitioning_grid_size.0 <= GRID_LIMIT
        &&& 0 < self.space_partitioning_grid_size.1 <= GRID_LIMIT
        &&& 0 < self.world_size.0 <= COORD_LIMIT
        &&& 0 < self.world_size.1 <= COORD_LIMIT
        &&& all_wf(self.game_objects@)
    }

    /// The cells covered by the bounding box of body `i`.
    pub open spec fn cell_range_spec(&self, i: int) -> CellRange {
        cell_range_of(
            self.game_objects@[i].polygon.bounding_box,
            self.space_partitioning_grid_size.0 as int,
            self.space_partitioning_grid_size.1 as int,
            self.world_size.0 as int,
            self.world_size.1 as int,
        )
    }

    pub open spec fn cell_ranges_spec(&self) -> Seq<CellRange> {
        cell_ranges_of(self.game_objects@, self.space_partitioning_grid_size, self.world_size)
    }

    /// An empty scene over a world of `width` by `height`, with a grid of
    /// ten by ten cells.
    pub fn new(width: i64, height: i64) -> (r: Scene)
        requires
            0 < width <= COORD_LIMIT,
            0 < height <= COORD_LIMIT,
        ensures
            r.wf(),
            r.game_objects@.len() == 0,
            r.space_partitioning_grid_size == (DEFAULT_GRID_CELLS, DEFAULT_GRID_CELLS),
            r.world_size == (width, height),
    {
        Scene {
            game_objects: Vec::new(),
            space_partitioning_grid_size: (DEFAULT_GRID_CELLS, DEFAULT_GRID_CELLS),
            world_size: (width, height),
        }
    }

    /// Appends a body; its index is the previous number of bodies.
    pub fn add_game_object(&mut self, game_object: PhysicsObject)
        requires
            old(self).wf(),
            game_object.wf(),
        ensures
            final(self).wf(),
            final(self).game_objects@ == old(self).game_objects@.push(game_object),
            final(self).space_partitioning_grid_size == old(self).space_partitioning_grid_size,
            final(self).world_size == old(self).world_size,
    {
        self.game_objects.push(game_object);
    }

    /// The first body, for update in place.
    pub fn get_first_object_mut(&mut self) -> (r: &mut PhysicsObject)
        requires
            old(self).game_objects@.len() > 0,
        ensures
            *r == old(self).game_objects@[0],
            final(self).game_objects@ == old(self).game_objects@.update(0, *final(r)),
            final(self).space_partitioning_grid_size == old(self).space_partitioning_grid_size,
            final(self).world_size == old(self).world_size,
    {
        &mut self.game_objects[0]
    }

    /// Broad phase: every pair `(i, j)`, `i < j`, of bodies whose cell
    /// rectangles share a grid cell, each pair once.
    pub fn get_possible_collisions(&self) -> (r: Vec<(usize, usize)>)
        requires
            self.wf(),
        ensures
            broad_phase_of(r@, self.cell_ranges_spec()),
    {
        let n = self.game_objects.len();
        let mut ranges: Vec<CellRange> = Vec::new();
        let mut i: usize = 0;
        while i < n
            invariant
                self.wf(),
                n == self.game_objects@.len(),
                0 <= i <= n,
                ranges@.len() == i,
                forall|k: int| 0 <= k < i ==> #[trigger] ranges@[k] == self.cell_range_spec(k),
                forall|k: int|
                    0 <= k < i ==> (#[trigger] ranges@[k]).within(
                        self.space_partitioning_grid_size.0 as int,
                        self.space_partitioning_grid_size.1 as int,
                    ),
            decreases n - i,
        {
            let r = self.game_objects[i].get_cell_positions(
                self.space_partitioning_grid_size,
                self.world_size,
            );
            ranges.push(r);
            i = i + 1;
        }
        assert(ranges@ =~= self.cell_ranges_spec());
        candidate_pairs(
            &ranges,
            self.space_partitioning_grid_size.0,
            self.space_partitioning_grid_size.1,
        )
    }

    /// Narrow phase: the pairs of `possible_collisions` whose bodies overlap.
    pub fn filter_real_collisions(&self, possible_collisions: Vec<(usize, usize)>) -> (r: Vec<
        (usize, usize),
    >)
        requires
            self.wf(),
            forall|k: int|
                0 <= k < possible_collisions@.len() ==> (#[trigger] possible_collisions@[k]).0
                    < self.game_objects@.len() && possible_collisions@[k].1
                    < self.game_objects@.len(),
        ensures
            r@ == colliding_pairs(self.game_objects@, possible_collisions@),
    {
        let mut out: Vec<(usize, usize)> = Vec::new();
        let mut i: usize = 0;
        while i < possible_collisions.len()
            invariant
                self.wf(),
                0 <= i <= possible_collisions@.len(),
                forall|k: int|
                    0 <= k < possible_collisions@.len() ==> (#[trigger] possible_collisions@[k]).0
                        < self.game_objects@.len() && possible_collisions@[k].1
                        < self.game_objects@.len(),
                out@ == colliding_pairs(
                    self.game_objects@,
                    possible_collisions@.subrange(0, i as int),
                ),
            decreases possible_collisions@.len() - i,
        {
            let (a, b) = possible_collisions[i];
            let ghost prefix = possible_collisions@.subrange(0, i as int + 1);
            assert(prefix.drop_last() =~= possible_collisions@.subrange(0, i as int));
            assert(prefix.last() == (a, b));
            let hit = self.game_objects[a].get_collision_axis_and_overlap(&self.game_objects[b]);
            if hit.is_some() {
                out.push((a, b));
            }
            i = i + 1;
        }
        assert(possible_collisions@.subrange(0, possible_collisions@.len() as int)
            =~= possible_collisions@);
        out
    }

    /// One frame of `delta_time` ticks: advance every body, find the
    /// candidate pairs, keep those that overlap, and resolve them in order.
    pub fn frame_logic(&mut self, delta_time: u32)
        requires
            old(self).wf(),
        ensures
            final(self).wf(),
            final(self).space_partitioning_grid_size == old(self).space_partitioning_grid_size,
            final(self).world_size == old(self).world_size,
            exists|
                moved: Seq<PhysicsObject>,
                pairs: Seq<(usize, usize)>,
                trace: Seq<Seq<PhysicsObject>>,
            |
                {
                    &&& all_advanced(old(self).game_objects@, moved, delta_time as int)
                    &&& broad_phase_of(
                        pairs,
                        cell_ranges_of(
                            moved,
                            old(self).space_partitioning_grid_size,
                            old(self).world_size,
                        ),
                    )
                    &&& resolve_trace(
                        trace,
                        colliding_pairs(moved, pairs),
                        moved,
                        final(self).game_objects@,
                    )
                },
    {
        let n = self.game_objects.len();
        let mut i: usize = 0;
        while i < n
            invariant
                self.wf(),
                self.space_partitioning_grid_size == old(self).space_partitioning_grid_size,
                self.world_size == old(self).world_size,
                n == self.game_objects@.len(),
                n == old(self).game_objects@.len(),
                0 <= i <= n,
                forall|k: int|
                    0 <= k < i ==> PhysicsObject::advanced(
                        &old(self).game_objects@[k],
                        &#[trigger] self.game_objects@[k],
                        delta_time as int,
                    ),
                forall|k: int| i <= k < n ==> #[trigger] self.game_objects@[k] == old(self).game_objects@[k],
            decreases n - i,
        {
            self.game_objects[i].update_move(delta_time);
            i = i + 1;
        }
        let ghost moved = self.game_objects@;
        let possible = self.get_possible_collisions();
        let ghost pairs = possible@;
        let confirmed = self.filter_real_collisions(possible);
        proof {
            lemma_colliding_pairs_sub(moved, pairs);
        }
        self.resolve_collisions(&confirmed);
    }

    /// Resolves the collisions in order; each pair `(i, j)` has `i < j`.
    pub fn resolve_collisions(&mut self, collisions: &Vec<(usize, usize)>)
        requires
            old(self).wf(),
            forall|k: int|
                0 <= k < collisions@.len() ==> (#[trigger] collisions@[k]).0 < collisions@[k].1
                    < old(self).game_objects@.len(),
        ensures
            final(self).wf(),
            final(self).space_partitioning_grid_size == old(self).space_partitioning_grid_size,
            final(self).world_size == old(self).world_size,
            exists|trace: Seq<Seq<PhysicsObject>>|
                resolve_trace(
                    trace,
                    collisions@,
                    old(self).game_objects@,
                    final(self).game_objects@,
                ),
    {
        let ghost mut trace: Seq<Seq<PhysicsObject>> = seq![self.game_objects@];
        let mut k: usize = 0;
        while k < collisions.len()
            invariant
                self.wf(),
                self.space_partitioning_grid_size == old(self).space_partitioning_grid_size,
                self.world_size == old(self).world_size,
                self.game_objects@.len() == old(self).game_objects@.len(),
                forall|q: int|
                    0 <= q < collisions@.len() ==> (#[trigger] collisions@[q]).0 < collisions@[q].1
                        < old(self).game_objects@.len(),
                0 <= k <= collisions@.len(),
                resolve_trace(
                    trace,
                    collisions@.subrange(0, k as int),
                    old(self).game_objects@,
                    self.game_objects@,
                ),
            decreases collisions@.len() - k,
        {
            let (i, j) = collisions[k];
            let ghost before = self.game_objects@;
            let (left, right) = self.game_objects.split_at_mut(j);
            left[i].resolve_collision_other(&mut right[0]);
            proof {
                let after = self.game_objects@;
                assert(resolve_step(before, after, (i, j)));
                let old_trace = trace;
                trace = trace.push(after);
                let pre = collisions@.subrange(0, k as int + 1);
                assert(pre.drop_last() =~= collisions@.subrange(0, k as int));
                assert forall|q: int| 0 <= q < pre.len() implies resolve_step(
                    trace[q],
                    trace[q + 1],
                    #[trigger] pre[q],
                ) by {
                    if q < k {
                        assert(pre[q] == collisions@.subrange(0, k as int)[q]);
                    }
                }
            }
            k = k + 1;
        }
        assert(collisions@.subrange(0, collisions@.len() as int) =~= collisions@);
    }
}

} // verus!
