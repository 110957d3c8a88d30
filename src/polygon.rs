use vstd::prelude::*;

use crate::geometry::{
    dot, dot_exec, in_limit, lemma_dot_bound, sum_in_range, vadd, Vec2, COORD_LIMIT,
};

verus! {

/// Smallest projection of the points onto `n` (scaled by the length of `n`).
pub open spec fn proj_min(cs: Seq<Vec2>, n: Vec2) -> int
    decreases cs.len(),
{
    if cs.len() == 0 {
        0
    } else if cs.len() == 1 {
        dot(n, cs[0])
    } else {
        let rest = proj_min(cs.drop_last(), n);
        let d = dot(n, cs.last());
        if d < rest {
            d
        } else {
            rest
        }
    }
}

/// Largest projection of the points onto `n` (scaled by the length of `n`).
pub open spec fn proj_max(cs: Seq<Vec2>, n: Vec2) -> int
    decreases cs.len(),
{
    if cs.len() == 0 {
        0
    } else if cs.len() == 1 {
        dot(n, cs[0])
    } else {
        let rest = proj_max(cs.drop_last(), n);
        let d = dot(n, cs.last());
        if d > rest {
            d
        } else {
            rest
        }
    }
}

pub open spec fn x_axis() -> Vec2 {
    Vec2 { x: 1, y: 0 }
}

pub open spec fn y_axis() -> Vec2 {
    Vec2 { x: 0, y: 1 }
}

pub open spec fn all_in_range(cs: Seq<Vec2>) -> bool {
    forall|i: int| 0 <= i < cs.len() ==> (#[trigger] cs[i]).in_range()
}

/// Every point moved by `d`.
pub open spec fn shifted(cs: Seq<Vec2>, d: Vec2) -> Seq<Vec2> {
    Seq::new(cs.len(), |i: int| vadd(cs[i], d))
}

pub open spec fn move_fits(cs: Seq<Vec2>, d: Vec2) -> bool {
    forall|i: int| 0 <= i < cs.len() ==> sum_in_range(#[trigger] cs[i], d)
}

/// The projection bounds are attained by some point and bound all points.
pub proof fn lemma_proj_bounds(cs: Seq<Vec2>, n: Vec2)
    requires
        cs.len() > 0,
    ensures
        forall|i: int| 0 <= i < cs.len() ==> proj_min(cs, n) <= #[trigger] dot(n, cs[i]),
        forall|i: int| 0 <= i < cs.len() ==> proj_max(cs, n) >= #[trigger] dot(n, cs[i]),
        exists|i: int| 0 <= i < cs.len() && proj_min(cs, n) == #[trigger] dot(n, cs[i]),
        exists|i: int| 0 <= i < cs.len() && proj_max(cs, n) == #[trigger] dot(n, cs[i]),
    decreases cs.len(),
{
    if cs.len() > 1 {
        let init = cs.drop_last();
        lemma_proj_bounds(init, n);
        assert forall|i: int| 0 <= i < init.len() implies init[i] == cs[i] by {}
        let last = cs.len() - 1;
        if dot(n, cs[last]) < proj_min(init, n) {
            assert(proj_min(cs, n) == dot(n, cs[last]));
        } else {
            let k = choose|k: int| 0 <= k < init.len() && proj_min(init, n) == dot(n, init[k]);
            assert(proj_min(cs, n) == dot(n, cs[k]));
        }
        if dot(n, cs[last]) > proj_max(init, n) {
            assert(proj_max(cs, n) == dot(n, cs[last]));
        } else {
            let k = choose|k: int| 0 <= k < init.len() && proj_max(init, n) == dot(n, init[k]);
            assert(proj_max(cs, n) == dot(n, cs[k]));
        }
    } else {
        assert(proj_min(cs, n) == dot(n, cs[0]));
        assert(proj_max(cs, n) == dot(n, cs[0]));
    }
}

/// The interval `[min, max]` of the projections of `cs` onto `n`.
pub fn projection_interval(cs: &Vec<Vec2>, n: Vec2) -> (r: (i64, i64))
    requires
        cs@.len() > 0,
        all_in_range(cs@),
        n.in_double_range(),
    ensures
        r.0 == proj_min(cs@, n),
        r.1 == proj_max(cs@, n),
        r.0 <= r.1,
        -2199023255552 <= r.0,
        r.1 <= 2199023255552,
{
    proof {
        lemma_dot_bound(n, cs@[0]);
    }
    let first = dot_exec(n, cs[0]);
    let mut lo: i64 = first;
    let mut hi: i64 = first;
    let mut i: usize = 1;
    assert(cs@.subrange(0, 1).drop_last() =~= Seq::<Vec2>::empty());
    while i < cs.len()
        invariant
            1 <= i <= cs@.len(),
            all_in_range(cs@),
            n.in_double_range(),
            lo == proj_min(cs@.subrange(0, i as int), n),
            hi == proj_max(cs@.subrange(0, i as int), n),
        decreases cs@.len() - i,
    {
        let d = dot_exec(n, cs[i]);
        let ghost prefix = cs@.subrange(0, i as int + 1);
        assert(prefix.drop_last() =~= cs@.subrange(0, i as int));
        assert(prefix.last() == cs@[i as int]);
        if d < lo {
            lo = d;
        }
        if d > hi {
            hi = d;
        }
        i = i + 1;
    }
    assert(cs@.subrange(0, cs@.len() as int) =~= cs@);
    proof {
        lemma_proj_bounds(cs@, n);
        let k = choose|k: int| 0 <= k < cs@.len() && proj_min(cs@, n) == #[trigger] dot(n, cs@[k]);
        lemma_dot_bound(n, cs@[k]);
        let k = choose|k: int| 0 <= k < cs@.len() && proj_max(cs@, n) == #[trigger] dot(n, cs@[k]);
        lemma_dot_bound(n, cs@[k]);
    }
    (lo, hi)
}

/// Axis-aligned bounding box, given by its extreme coordinates.
#[derive(Clone, Copy, Debug, PartialEq, Eq, Structural)]
pub struct Aabb {
    pub min_x: i64,
    pub min_y: i64,
    pub max_x: i64,
    pub max_y: i64,
}

/// The tight bounding box of a nonempty point sequence.
pub open spec fn bbox_of(cs: Seq<Vec2>) -> Aabb {
    Aabb {
        min_x: proj_min(cs, x_axis()) as i64,
        min_y: proj_min(cs, y_axis()) as i64,
        max_x: proj_max(cs, x_axis()) as i64,
        max_y: proj_max(cs, y_axis()) as i64,
    }
}

pub proof fn lemma_bbox_in_range(cs: Seq<Vec2>)
    requires
        cs.len() > 0,
        all_in_range(cs),
    ensures
        in_limit(proj_min(cs, x_axis())),
        in_limit(proj_min(cs, y_axis())),
        in_limit(proj_max(cs, x_axis())),
        in_limit(proj_max(cs, y_axis())),
{
    lemma_proj_bounds(cs, x_axis());
    lemma_proj_bounds(cs, y_axis());
}

pub proof fn lemma_axis_dot(n: Vec2, p: Vec2)
    requires
        n == x_axis() || n == y_axis(),
    ensures
        dot(n, p) == if n == x_axis() {
            p.x as int
        } else {
            p.y as int
        },
{
    if n == x_axis() {
        assert(dot(n, p) == p.x) by (nonlinear_arith)
            requires
                n.x == 1,
                n.y == 0,
        ;
    } else {
        assert(dot(n, p) == p.y) by (nonlinear_arith)
            requires
                n.x == 0,
                n.y == 1,
        ;
    }
}

/// Projections onto a coordinate axis shift with a rigid move.
pub proof fn lemma_shifted_proj(cs: Seq<Vec2>, c: Vec2, n: Vec2)
    requires
        n == x_axis() || n == y_axis(),
        cs.len() > 0,
        move_fits(cs, c),
        all_in_range(cs),
    ensures
        proj_min(shifted(cs, c), n) == proj_min(cs, n) + dot(n, c),
        proj_max(shifted(cs, c), n) == proj_max(cs, n) + dot(n, c),
    decreases cs.len(),
{
    let t = shifted(cs, c);
    if cs.len() > 1 {
        let init = cs.drop_last();
        assert(shifted(init, c) =~= t.drop_last());
        lemma_shifted_proj(init, c, n);
        assert(sum_in_range(cs[cs.len() - 1], c));
        assert(t.last() == vadd(cs.last(), c));
        lemma_axis_dot(n, t.last());
        lemma_axis_dot(n, cs.last());
        lemma_axis_dot(n, c);
    } else if cs.len() == 1 {
        assert(sum_in_range(cs[0], c));
        assert(t[0] == vadd(cs[0], c));
        lemma_axis_dot(n, t[0]);
        lemma_axis_dot(n, cs[0]);
        lemma_axis_dot(n, c);
    }
}

/// The bounding box moves with the corners.
pub proof fn lemma_shifted_bbox(cs: Seq<Vec2>, c: Vec2)
    requires
        move_fits(cs, c),
        all_in_range(cs),
        cs.len() > 0,
    ensures
        bbox_of(shifted(cs, c)).min_x == bbox_of(cs).min_x + c.x,
        bbox_of(shifted(cs, c)).max_x == bbox_of(cs).max_x + c.x,
        bbox_of(shifted(cs, c)).min_y == bbox_of(cs).min_y + c.y,
        bbox_of(shifted(cs, c)).max_y == bbox_of(cs).max_y + c.y,
{
    lemma_shifted_proj(cs, c, x_axis());
    lemma_shifted_proj(cs, c, y_axis());
    lemma_bbox_in_range(cs);
    lemma_proj_bounds(cs, x_axis());
    lemma_proj_bounds(cs, y_axis());
    lemma_proj_bounds(shifted(cs, c), x_axis());
    lemma_proj_bounds(shifted(cs, c), y_axis());
    let k = choose|k: int| 0 <= k < cs.len() && proj_min(cs, x_axis()) == #[trigger] dot(x_axis(), cs[k]);
    assert(sum_in_range(cs[k], c));
    let k = choose|k: int| 0 <= k < cs.len() && proj_max(cs, x_axis()) == #[trigger] dot(x_axis(), cs[k]);
    assert(sum_in_range(cs[k], c));
    let k = choose|k: int| 0 <= k < cs.len() && proj_min(cs, y_axis()) == #[trigger] dot(y_axis(), cs[k]);
    assert(sum_in_range(cs[k], c));
    let k = choose|k: int| 0 <= k < cs.len() && proj_max(cs, y_axis()) == #[trigger] dot(y_axis(), cs[k]);
    assert(sum_in_range(cs[k], c));
}

/// Two boxes share at least one point (closed boxes).
pub open spec fn boxes_intersect(a: Aabb, b: Aabb) -> bool {
    a.min_x <= b.max_x && b.min_x <= a.max_x && a.min_y <= b.max_y && b.min_y <= a.max_y
}

/// Why a point sequence is no polygon.
#[derive(Clone, Copy, Debug, PartialEq, Eq, Structural)]
pub enum GeometryError {
    TooFewCorners,
    OutOfRange,
    DegenerateSegment,
}

/// The integer square root: the `r >= 0` with `r * r <= n < (r + 1) * (r + 1)`.
pub open spec fn is_floor_sqrt(n: int, r: int) -> bool {
    0 <= r && r * r <= n < (r + 1) * (r + 1)
}

pub open spec fn floor_sqrt(n: int) -> int {
    choose|r: int| is_floor_sqrt(n, r)
}

pub proof fn lemma_floor_sqrt_unique(n: int, r1: int, r2: int)
    requires
        is_floor_sqrt(n, r1),
        is_floor_sqrt(n, r2),
    ensures
        r1 == r2,
{
    if r1 < r2 {
        assert((r1 + 1) * (r1 + 1) <= r2 * r2) by (nonlinear_arith)
            requires
                0 <= r1 < r2,
        ;
    } else if r2 < r1 {
        assert((r2 + 1) * (r2 + 1) <= r1 * r1) by (nonlinear_arith)
            requires
                0 <= r2 < r1,
        ;
    }
}

pub proof fn lemma_floor_sqrt_of_square(k: int)
    requires
        k >= 0,
    ensures
        floor_sqrt(k * k) == k,
{
    assert(k * k < (k + 1) * (k + 1)) by (nonlinear_arith)
        requires
            k >= 0,
    ;
    assert(is_floor_sqrt(k * k, k));
    lemma_floor_sqrt_unique(k * k, floor_sqrt(k * k), k);
}

/// Integer square root by bisection.
pub fn isqrt(n: u64) -> (r: u64)
    requires
        n < 4611686018427387904,
    ensures
        r == floor_sqrt(n as int),
        is_floor_sqrt(n as int, r as int),
        r < 2147483648,
{
    let mut lo: u64 = 0;
    let mut hi: u64 = 2147483648;
    assert(hi * hi == 4611686018427387904);
    while hi - lo > 1
        invariant
            lo < hi <= 2147483648,
            lo * lo <= n,
            n < hi * hi,
        decreases hi - lo,
    {
        let mid = lo + (hi - lo) / 2;
        assert(mid * mid <= 4611686018427387904) by (nonlinear_arith)
            requires
                mid <= 2147483648,
        ;
        if mid * mid <= n {
            lo = mid;
        } else {
            hi = mid;
        }
    }
    assert(is_floor_sqrt(n as int, lo as int));
    proof {
        lemma_floor_sqrt_unique(n as int, floor_sqrt(n as int), lo as int);
    }
    lo
}

/// The offset from a segment to one side of its thickened quad: the segment
/// direction turned a quarter turn, scaled to length `thickness` (each
/// component rounded toward zero).
pub open spec fn line_offset(start: Vec2, end: Vec2, thickness: int) -> Vec2 {
    let dx = end.x - start.x;
    let dy = end.y - start.y;
    let len = floor_sqrt(dx * dx + dy * dy);
    Vec2 {
        x: crate::geometry::div_toward_zero(-(dy * thickness), len) as i64,
        y: crate::geometry::div_toward_zero(dx * thickness, len) as i64,
    }
}

/// The offset of an axis-parallel segment: exactly `thickness` across it.
pub proof fn lemma_axis_line_offset(start: Vec2, end: Vec2, thickness: int)
    requires
        (start.x == end.x && start.y != end.y) || (start.y == end.y && start.x != end.x),
        start.in_range(),
        end.in_range(),
        0 <= thickness <= COORD_LIMIT,
    ensures
        line_offset(start, end, thickness) == (if start.x == end.x {
            Vec2 { x: (if end.y > start.y { -thickness } else { thickness }) as i64, y: 0 }
        } else {
            Vec2 { x: 0, y: (if end.x > start.x { thickness } else { -thickness }) as i64 }
        }),
{
    let dx = end.x - start.x;
    let dy = end.y - start.y;
    let k: int = if dx == 0 {
        if dy > 0 {
            dy
        } else {
            -dy
        }
    } else {
        if dx > 0 {
            dx
        } else {
            -dx
        }
    };
    assert(dx * dx + dy * dy == k * k) by (nonlinear_arith)
        requires
            (dx == 0 && (k == dy || k == -dy)) || (dy == 0 && (k == dx || k == -dx)),
    ;
    lemma_floor_sqrt_of_square(k);
    vstd::arithmetic::div_mod::lemma_div_multiples_vanish(thickness, k);
    assert(0 * thickness == 0);
    assert(k * thickness >= 0) by (nonlinear_arith)
        requires
            k > 0,
            thickness >= 0,
    ;
    if dx == 0 {
        assert(dx * thickness == 0);
        if dy > 0 {
            assert(-(dy * thickness) == -(k * thickness));
        } else {
            assert(-(dy * thickness) == k * thickness) by (nonlinear_arith)
                requires
                    k == -dy,
            ;
        }
    } else {
        assert(dy * thickness == 0);
        if dx < 0 {
            assert(dx * thickness == -(k * thickness)) by (nonlinear_arith)
                requires
                    k == -dx,
            ;
        }
    }
}

/// The midpoint of a segment lies in the bounding box of its thickened quad.
pub proof fn lemma_line_midpoint_in_box(start: Vec2, end: Vec2, thickness: int)
    requires
        start.in_range(),
        end.in_range(),
        all_in_range(line_corners(start, end, thickness)),
    ensures
        ({
            let b = bbox_of(line_corners(start, end, thickness));
            let mx = (start.x + end.x) / 2;
            let my = (start.y + end.y) / 2;
            b.min_x <= mx <= b.max_x && b.min_y <= my <= b.max_y
        }),
{
    let cs = line_corners(start, end, thickness);
    lemma_proj_bounds(cs, x_axis());
    lemma_proj_bounds(cs, y_axis());
    lemma_bbox_in_range(cs);
    assert forall|i: int| 0 <= i < 4 implies dot(x_axis(), #[trigger] cs[i]) == cs[i].x && dot(
        y_axis(),
        cs[i],
    ) == cs[i].y by {
        lemma_axis_dot(x_axis(), cs[i]);
        lemma_axis_dot(y_axis(), cs[i]);
    }
    assert(cs[0].in_range() && cs[1].in_range() && cs[2].in_range() && cs[3].in_range());
}

/// The four corners of the segment from `start` to `end` thickened by
/// `thickness` on each side.
pub open spec fn line_corners(start: Vec2, end: Vec2, thickness: int) -> Seq<Vec2> {
    let o = line_offset(start, end, thickness);
    seq![
        Vec2 { x: (end.x - o.x) as i64, y: (end.y - o.y) as i64 },
        Vec2 { x: (start.x - o.x) as i64, y: (start.y - o.y) as i64 },
        Vec2 { x: (start.x + o.x) as i64, y: (start.y + o.y) as i64 },
        Vec2 { x: (end.x + o.x) as i64, y: (end.y + o.y) as i64 },
    ]
}

/// A convex polygon in world coordinates, with its bounding box.
/// Two corners describe a segment.
pub struct Polygon {
    pub corners: Vec<Vec2>,
    pub bounding_box: Aabb,
}

impl Polygon {
    /// At least two corners, all in range, and a tight bounding box.
    pub open spec fn wf(&self) -> bool {
        &&& self.corners@.len() >= 2
        &&& all_in_range(self.corners@)
        &&& self.bounding_box == bbox_of(self.corners@)
    }

    /// Builds a polygon from its corners in winding order.
    pub fn from_corners(corners: Vec<Vec2>) -> (r: Result<Polygon, GeometryError>)
        ensures
            corners@.len() < 2 ==> r == Err::<Polygon, GeometryError>(
                GeometryError::TooFewCorners,
            ),
            corners@.len() >= 2 && !all_in_range(corners@) ==> r == Err::<Polygon, GeometryError>(
                GeometryError::OutOfRange,
            ),
            corners@.len() >= 2 && all_in_range(corners@) ==> r is Ok,
            r is Ok ==> r->Ok_0.wf() && r->Ok_0.corners@ == corners@,
    {
        if corners.len() < 2 {
            return Err(GeometryError::TooFewCorners);
        }
        let mut i: usize = 0;
        while i < corners.len()
            invariant
                0 <= i <= corners@.len(),
                corners@.len() >= 2,
                forall|k: int| 0 <= k < i ==> (#[trigger] corners@[k]).in_range(),
            decreases corners@.len() - i,
        {
            let c = corners[i];
            if !(-COORD_LIMIT <= c.x && c.x <= COORD_LIMIT && -COORD_LIMIT <= c.y && c.y
                <= COORD_LIMIT) {
                return Err(GeometryError::OutOfRange);
            }
            i = i + 1;
        }
        let mut result = Polygon {
            corners,
            bounding_box: Aabb { min_x: 0, min_y: 0, max_x: 0, max_y: 0 },
        };
        result.update_bounding_box();
        Ok(result)
    }

    /// The segment from `start` to `end` as a quad of half-width `thickness`.
    pub fn new_polygon_line(start: Vec2, end: Vec2, thickness: i64) -> (r: Result<
        Polygon,
        GeometryError,
    >)
        requires
            start.in_range(),
            end.in_range(),
            0 <= thickness <= COORD_LIMIT,
        ensures
            start == end ==> r == Err::<Polygon, GeometryError>(GeometryError::DegenerateSegment),
            start != end && !all_in_range(line_corners(start, end, thickness as int)) ==> r
                == Err::<Polygon, GeometryError>(GeometryError::OutOfRange),
            start != end && all_in_range(line_corners(start, end, thickness as int)) ==> r is Ok,
            r is Ok ==> r->Ok_0.wf() && r->Ok_0.corners@ == line_corners(
                start,
                end,
                thickness as int,
            ),
    {
        if start.x == end.x && start.y == end.y {
            return Err(GeometryError::DegenerateSegment);
        }
        let dx = end.x - start.x;
        let dy = end.y - start.y;
        proof {
            crate::geometry::lemma_mul_bound(dx as int, dx as int, 1048576, 1048576);
            crate::geometry::lemma_mul_bound(dy as int, dy as int, 1048576, 1048576);
            crate::geometry::lemma_mul_bound(dx as int, thickness as int, 1048576, 524288);
            crate::geometry::lemma_mul_bound(dy as int, thickness as int, 1048576, 524288);
            assert(dx * dx + dy * dy >= 1) by (nonlinear_arith)
                requires
                    dx != 0 || dy != 0,
            ;
        }
        let root = isqrt((dx * dx + dy * dy) as u64);
        let len = root as i64;
        assert(len >= 1) by (nonlinear_arith)
            requires
                len * len <= dx * dx + dy * dy,
                dx * dx + dy * dy < (len + 1) * (len + 1),
                dx * dx + dy * dy >= 1,
                len >= 0,
        ;
        let ox = crate::geometry::div_toward_zero_exec(-(dy as i128 * thickness as i128), len as i128);
        let oy = crate::geometry::div_toward_zero_exec(dx as i128 * thickness as i128, len as i128);
        proof {
            crate::resolve::lemma_div_shrink(-(dy * thickness), 549755813888, len as int);
            crate::resolve::lemma_div_shrink(dx * thickness, 549755813888, len as int);
        }
        let ox = ox as i64;
        let oy = oy as i64;
        let mut corners: Vec<Vec2> = Vec::new();
        corners.push(Vec2 { x: end.x - ox, y: end.y - oy });
        corners.push(Vec2 { x: start.x - ox, y: start.y - oy });
        corners.push(Vec2 { x: start.x + ox, y: start.y + oy });
        corners.push(Vec2 { x: end.x + ox, y: end.y + oy });
        assert(corners@ =~= line_corners(start, end, thickness as int));
        Polygon::from_corners(corners)
    }

    /// Recomputes the bounding box from the corners.
    pub fn update_bounding_box(&mut self)
        requires
            old(self).corners@.len() > 0,
            all_in_range(old(self).corners@),
        ensures
            final(self).corners@ == old(self).corners@,
            final(self).bounding_box == bbox_of(old(self).corners@),
    {
        proof {
            lemma_bbox_in_range(self.corners@);
        }
        let (min_x, max_x) = projection_interval(&self.corners, Vec2 { x: 1, y: 0 });
        let (min_y, max_y) = projection_interval(&self.corners, Vec2 { x: 0, y: 1 });
        self.bounding_box = Aabb { min_x, min_y, max_x, max_y };
    }

    /// Moves every corner by `added_pos` and refreshes the bounding box.
    pub fn move_relative(&mut self, added_pos: &Vec2)
        requires
            old(self).wf(),
            added_pos.in_double_range(),
            move_fits(old(self).corners@, *added_pos),
        ensures
            final(self).wf(),
            final(self).corners@ == shifted(old(self).corners@, *added_pos),
    {
        let d = *added_pos;
        let n = self.corners.len();
        let mut i: usize = 0;
        while i < n
            invariant
                n == self.corners@.len(),
                n == old(self).corners@.len(),
                0 <= i <= n,
                d == *added_pos,
                d.in_double_range(),
                move_fits(old(self).corners@, d),
                all_in_range(old(self).corners@),
                forall|k: int| 0 <= k < i ==> #[trigger] self.corners@[k] == vadd(old(self).corners@[k], d),
                forall|k: int| i <= k < n ==> #[trigger] self.corners@[k] == old(self).corners@[k],
            decreases n - i,
        {
            let c = self.corners[i];
            assert(sum_in_range(old(self).corners@[i as int], d));
            self.corners.set(i, Vec2 { x: c.x + d.x, y: c.y + d.y });
            i = i + 1;
        }
        assert(self.corners@ =~= shifted(old(self).corners@, d));
        assert(all_in_range(self.corners@)) by {
            assert forall|k: int| 0 <= k < n implies (#[trigger] self.corners@[k]).in_range() by {
                assert(sum_in_range(old(self).corners@[k], d));
            }
        }
        self.update_bounding_box();
    }
}

} // verus!
