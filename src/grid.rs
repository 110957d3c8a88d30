use vstd::prelude::*;

use crate::geometry::{in_limit, COORD_LIMIT};
use crate::polygon::{boxes_intersect, Aabb};

verus! {

/// Largest number of grid cells along one axis.
pub const GRID_LIMIT: usize = 1024;

/// Grid cell along one axis holding world coordinate `v`:
/// `floor(v / extent * count)`, clamped into `[0, count - 1]`.
pub open spec fn cell_coord(v: int, extent: int, count: int) -> int {
    let raw = (v * count) / extent;
    if raw < 0 {
        0
    } else if raw > count - 1 {
        count - 1
    } else {
        raw
    }
}

/// The rectangle of grid cells `[x0, x1] x [y0, y1]` that a body touches.
#[derive(Clone, Copy, Debug, PartialEq, Eq, Structural)]
pub struct CellRange {
    pub x0: usize,
    pub x1: usize,
    pub y0: usize,
    pub y1: usize,
}

impl CellRange {
    pub open spec fn contains(self, x: int, y: int) -> bool {
        self.x0 <= x <= self.x1 && self.y0 <= y <= self.y1
    }

    pub open spec fn within(self, cx: int, cy: int) -> bool {
        self.x0 <= self.x1 < cx && self.y0 <= self.y1 < cy
    }
}

/// The cells covered by a bounding box, for a grid of `cx` by `cy` cells
/// over a world of `w` by `h`.
pub open spec fn cell_range_of(bb: Aabb, cx: int, cy: int, w: int, h: int) -> CellRange {
    CellRange {
        x0: cell_coord(bb.min_x as int, w, cx) as usize,
        x1: cell_coord(bb.max_x as int, w, cx) as usize,
        y0: cell_coord(bb.min_y as int, h, cy) as usize,
        y1: cell_coord(bb.max_y as int, h, cy) as usize,
    }
}

/// Two cell rectangles share a cell.
pub open spec fn ranges_meet(a: CellRange, b: CellRange) -> bool {
    a.x0 <= b.x1 && b.x0 <= a.x1 && a.y0 <= b.y1 && b.y0 <= a.y1
}

pub proof fn lemma_cell_coord_bounds(v: int, extent: int, count: int)
    requires
        extent > 0,
        count > 0,
    ensures
        0 <= cell_coord(v, extent, count) < count,
{
}

pub proof fn lemma_cell_coord_monotonic(v: int, u: int, extent: int, count: int)
    requires
        extent > 0,
        count > 0,
        v <= u,
    ensures
        cell_coord(v, extent, count) <= cell_coord(u, extent, count),
{
    assert(v * count <= u * count) by (nonlinear_arith)
        requires
            v <= u,
            count > 0,
    ;
    vstd::arithmetic::div_mod::lemma_div_is_ordered(v * count, u * count, extent);
}

/// Bounding boxes that intersect always map to cell rectangles that meet.
pub proof fn lemma_boxes_meet_in_grid(a: Aabb, b: Aabb, cx: int, cy: int, w: int, h: int)
    requires
        boxes_intersect(a, b),
        a.min_x <= a.max_x,
        a.min_y <= a.max_y,
        b.min_x <= b.max_x,
        b.min_y <= b.max_y,
        0 < cx <= GRID_LIMIT,
        0 < cy <= GRID_LIMIT,
        w > 0,
        h > 0,
    ensures
        ranges_meet(cell_range_of(a, cx, cy, w, h), cell_range_of(b, cx, cy, w, h)),
{
    lemma_cell_coord_bounds(a.min_x as int, w, cx);
    lemma_cell_coord_bounds(a.max_x as int, w, cx);
    lemma_cell_coord_bounds(b.min_x as int, w, cx);
    lemma_cell_coord_bounds(b.max_x as int, w, cx);
    lemma_cell_coord_bounds(a.min_y as int, h, cy);
    lemma_cell_coord_bounds(a.max_y as int, h, cy);
    lemma_cell_coord_bounds(b.min_y as int, h, cy);
    lemma_cell_coord_bounds(b.max_y as int, h, cy);
    lemma_cell_coord_monotonic(a.min_x as int, b.max_x as int, w, cx);
    lemma_cell_coord_monotonic(b.min_x as int, a.max_x as int, w, cx);
    lemma_cell_coord_monotonic(a.min_y as int, b.max_y as int, h, cy);
    lemma_cell_coord_monotonic(b.min_y as int, a.max_y as int, h, cy);
}

/// The grid cell along one axis of the world coordinate `v`.
pub fn cell_coord_exec(v: i64, extent: i64, count: usize) -> (r: usize)
    requires
        in_limit(v as int),
        0 < extent <= COORD_LIMIT,
        0 < count <= GRID_LIMIT,
    ensures
        r == cell_coord(v as int, extent as int, count as int),
        r < count,
{
    if v <= 0 {
        proof {
            assert(v * count <= 0) by (nonlinear_arith)
                requires
                    v <= 0,
                    count > 0,
            ;
            vstd::arithmetic::div_mod::lemma_div_is_ordered(v * count, 0, extent as int);
        }
        return 0;
    }
    proof {
        crate::geometry::lemma_mul_bound(v as int, count as int, 524288, 1024);
    }
    let raw = (v as i128 * count as i128) / extent as i128;
    if raw > count as i128 - 1 {
        count - 1
    } else {
        raw as usize
    }
}

/// The cells covered by `bb`.
pub fn cell_range_exec(bb: Aabb, cx: usize, cy: usize, w: i64, h: i64) -> (r: CellRange)
    requires
        in_limit(bb.min_x as int),
        in_limit(bb.max_x as int),
        in_limit(bb.min_y as int),
        in_limit(bb.max_y as int),
        bb.min_x <= bb.max_x,
        bb.min_y <= bb.max_y,
        0 < cx <= GRID_LIMIT,
        0 < cy <= GRID_LIMIT,
        0 < w <= COORD_LIMIT,
        0 < h <= COORD_LIMIT,
    ensures
        r == cell_range_of(bb, cx as int, cy as int, w as int, h as int),
        r.within(cx as int, cy as int),
{
    proof {
        lemma_cell_coord_monotonic(bb.min_x as int, bb.max_x as int, w as int, cx as int);
        lemma_cell_coord_monotonic(bb.min_y as int, bb.max_y as int, h as int, cy as int);
    }
    CellRange {
        x0: cell_coord_exec(bb.min_x, w, cx),
        x1: cell_coord_exec(bb.max_x, w, cx),
        y0: cell_coord_exec(bb.min_y, h, cy),
        y1: cell_coord_exec(bb.max_y, h, cy),
    }
}

impl crate::body::PhysicsObject {
    /// The grid cells that the bounding box covers, for a grid of `grid.0`
    /// by `grid.1` cells over a world of `world.0` by `world.1`.
    pub fn get_cell_positions(&self, grid: (usize, usize), world: (i64, i64)) -> (r: CellRange)
        requires
            self.wf(),
            0 < grid.0 <= GRID_LIMIT,
            0 < grid.1 <= GRID_LIMIT,
            0 < world.0 <= COORD_LIMIT,
            0 < world.1 <= COORD_LIMIT,
        ensures
            r == cell_range_of(
                self.polygon.bounding_box,
                grid.0 as int,
                grid.1 as int,
                world.0 as int,
                world.1 as int,
            ),
            r.within(grid.0 as int, grid.1 as int),
    {
        let (cell_count_x, cell_count_y) = grid;
        proof {
            crate::polygon::lemma_bbox_in_range(self.polygon.corners@);
            crate::polygon::lemma_proj_bounds(self.polygon.corners@, crate::polygon::x_axis());
            crate::polygon::lemma_proj_bounds(self.polygon.corners@, crate::polygon::y_axis());
        }
        cell_range_exec(self.polygon.bounding_box, cell_count_x, cell_count_y, world.0, world.1)
    }
}

/// Pairs `(i, j)`, `i < j`, of rectangles that share a cell.
pub open spec fn is_candidate(ranges: Seq<CellRange>, p: (usize, usize)) -> bool {
    p.0 < p.1 < ranges.len() && ranges_meet(ranges[p.0 as int], ranges[p.1 as int])
}

/// The first cell (lowest row, then lowest column) that two meeting
/// rectangles share, as an index `y * cx + x`.
pub open spec fn first_shared_cell(a: CellRange, b: CellRange, cx: int) -> int {
    let x = if a.x0 > b.x0 {
        a.x0
    } else {
        b.x0
    };
    let y = if a.y0 > b.y0 {
        a.y0
    } else {
        b.y0
    };
    y * cx + x
}

pub open spec fn pair_cell(ranges: Seq<CellRange>, p: (usize, usize), cx: int) -> int {
    first_shared_cell(ranges[p.0 as int], ranges[p.1 as int], cx)
}

/// Indices, in increasing order, of the rectangles that contain cell `(x, y)`.
fn cell_members(ranges: &Vec<CellRange>, x: usize, y: usize) -> (r: Vec<usize>)
    ensures
        forall|k: int| 0 <= k < r@.len() ==> (#[trigger] r@[k]) < ranges@.len()
            && ranges@[r@[k] as int].contains(x as int, y as int),
        forall|k1: int, k2: int| 0 <= k1 < k2 < r@.len() ==> r@[k1] < r@[k2],
        forall|i: int|
            0 <= i < ranges@.len() && (#[trigger] ranges@[i]).contains(x as int, y as int)
                ==> r@.contains(i as usize),
{
    let mut out: Vec<usize> = Vec::new();
    let mut i: usize = 0;
    while i < ranges.len()
        invariant
            0 <= i <= ranges@.len(),
            forall|k: int| 0 <= k < out@.len() ==> (#[trigger] out@[k]) < i
                && ranges@[out@[k] as int].contains(x as int, y as int),
            forall|k1: int, k2: int| 0 <= k1 < k2 < out@.len() ==> out@[k1] < out@[k2],
            forall|j: int|
                0 <= j < i && (#[trigger] ranges@[j]).contains(x as int, y as int)
                    ==> out@.contains(j as usize),
        decreases ranges@.len() - i,
    {
        let r = ranges[i];
        let ghost before = out@;
        if r.x0 <= x && x <= r.x1 && r.y0 <= y && y <= r.y1 {
            out.push(i);
            assert(out@[out@.len() - 1] == i);
        }
        proof {
            assert forall|j: int|
                0 <= j < i + 1 && (#[trigger] ranges@[j]).contains(x as int, y as int)
                    implies out@.contains(j as usize) by {
                if j < i {
                    assert(before.contains(j as usize));
                    let k = choose|k: int| 0 <= k < before.len() && before[k] == j as usize;
                    assert(out@[k] == j as usize);
                } else {
                    assert(out@[out@.len() - 1] == j as usize);
                }
            }
        }
        i = i + 1;
    }
    out
}

/// The first shared cell of `a` and `b` is `(x, y)`.
pub open spec fn first_shared_at(a: CellRange, b: CellRange, x: int, y: int) -> bool {
    (if a.x0 > b.x0 {
        a.x0
    } else {
        b.x0
    }) == x && (if a.y0 > b.y0 {
        a.y0
    } else {
        b.y0
    }) == y
}

pub proof fn lemma_cell_index_unique(x1: int, y1: int, x2: int, y2: int, cx: int)
    requires
        0 <= x1 < cx,
        0 <= x2 < cx,
        0 <= y1,
        0 <= y2,
        y1 * cx + x1 == y2 * cx + x2,
    ensures
        x1 == x2,
        y1 == y2,
{
    if y1 < y2 {
        assert(y1 * cx + x1 < y2 * cx + x2) by (nonlinear_arith)
            requires
                0 <= x1 < cx,
                0 <= x2,
                y1 < y2,
        ;
    } else if y2 < y1 {
        assert(y2 * cx + x2 < y1 * cx + x1) by (nonlinear_arith)
            requires
                0 <= x2 < cx,
                0 <= x1,
                y2 < y1,
        ;
    }
}

/// Every pair of rectangles that share a cell, each pair once, found cell
/// by cell: a pair is reported at the first cell it shares.
pub fn candidate_pairs(ranges: &Vec<CellRange>, cx: usize, cy: usize) -> (r: Vec<(usize, usize)>)
    requires
        0 < cx <= GRID_LIMIT,
        0 < cy <= GRID_LIMIT,
        forall|i: int| 0 <= i < ranges@.len() ==> (#[trigger] ranges@[i]).within(cx as int, cy as int),
    ensures
        forall|k: int| 0 <= k < r@.len() ==> is_candidate(ranges@, #[trigger] r@[k]),
        forall|p: (usize, usize)| is_candidate(ranges@, p) ==> r@.contains(p),
        r@.no_duplicates(),
{
    let ghost rs = ranges@;
    let mut out: Vec<(usize, usize)> = Vec::new();
    assert(cx * cy <= 1048576) by (nonlinear_arith)
        requires
            0 < cx <= 1024,
            0 < cy <= 1024,
    ;
    let ncells = cx * cy;
    let mut c: usize = 0;
    while c < ncells
        invariant
            rs == ranges@,
            ncells == cx * cy,
            0 < cx <= GRID_LIMIT,
            0 < cy <= GRID_LIMIT,
            forall|i: int| 0 <= i < rs.len() ==> (#[trigger] rs[i]).within(cx as int, cy as int),
            0 <= c <= ncells,
            forall|k: int|
                0 <= k < out@.len() ==> is_candidate(rs, #[trigger] out@[k]) && pair_cell(
                    rs,
                    out@[k],
                    cx as int,
                ) < c,
            forall|p: (usize, usize)|
                is_candidate(rs, p) && pair_cell(rs, p, cx as int) < c ==> out@.contains(p),
            out@.no_duplicates(),
        decreases ncells - c,
    {
        let x = c % cx;
        let y = c / cx;
        proof {
            vstd::arithmetic::div_mod::lemma_fundamental_div_mod(c as int, cx as int);
            assert(c as int == y * cx + x) by (nonlinear_arith)
                requires
                    c as int == cx * (c as int / cx as int) + c as int % cx as int,
                    x == c as int % cx as int,
                    y == c as int / cx as int,
            ;
        }
        let members = cell_members(ranges, x, y);
        let ghost lm = members@;
        let start = out.len();
        let m = members.len();
        let mut p: usize = 0;
        while p < m
            invariant
                rs == ranges@,
                lm == members@,
                m == lm.len(),
                0 < cx <= GRID_LIMIT,
                forall|i: int| 0 <= i < rs.len() ==> (#[trigger] rs[i]).within(cx as int, cy as int),
                c as int == y * cx + x,
                0 <= x < cx,
                0 <= y,
                forall|k: int| 0 <= k < lm.len() ==> (#[trigger] lm[k]) < rs.len()
                    && rs[lm[k] as int].contains(x as int, y as int),
                forall|k1: int, k2: int| 0 <= k1 < k2 < lm.len() ==> lm[k1] < lm[k2],
                0 <= p <= m,
                start <= out@.len(),
                forall|k: int|
                    0 <= k < out@.len() ==> is_candidate(rs, #[trigger] out@[k]) && (k < start
                        ==> pair_cell(rs, out@[k], cx as int) < c) && (k >= start ==> pair_cell(
                        rs,
                        out@[k],
                        cx as int,
                    ) == c),
                forall|k: int| start <= k < out@.len() && p < m ==> (#[trigger] out@[k]).0 < lm[p as int],
                forall|q: (usize, usize)|
                    is_candidate(rs, q) && pair_cell(rs, q, cx as int) < c ==> out@.contains(q),
                forall|p1: int, q1: int|
                    0 <= p1 < p && p1 < q1 < m && first_shared_at(
                        rs[lm[p1] as int],
                        rs[lm[q1] as int],
                        x as int,
                        y as int,
                    ) ==> out@.contains((#[trigger] lm[p1], #[trigger] lm[q1])),
                out@.no_duplicates(),
            decreases m - p,
        {
            let a = members[p];
            let ra = ranges[a];
            let mut q: usize = p + 1;
            while q < m
                invariant
                    rs == ranges@,
                    lm == members@,
                    m == lm.len(),
                    0 < cx <= GRID_LIMIT,
                    forall|i: int| 0 <= i < rs.len() ==> (#[trigger] rs[i]).within(cx as int, cy as int),
                    c as int == y * cx + x,
                    0 <= x < cx,
                    0 <= y,
                    forall|k: int| 0 <= k < lm.len() ==> (#[trigger] lm[k]) < rs.len()
                        && rs[lm[k] as int].contains(x as int, y as int),
                    forall|k1: int, k2: int| 0 <= k1 < k2 < lm.len() ==> lm[k1] < lm[k2],
                    0 <= p < m,
                    a == lm[p as int],
                    ra == rs[a as int],
                    p < q <= m,
                    start <= out@.len(),
                    forall|k: int|
                        0 <= k < out@.len() ==> is_candidate(rs, #[trigger] out@[k]) && (k < start
                            ==> pair_cell(rs, out@[k], cx as int) < c) && (k >= start ==> pair_cell(
                            rs,
                            out@[k],
                            cx as int,
                        ) == c),
                    forall|k: int|
                        start <= k < out@.len() ==> (#[trigger] out@[k]).0 < a || (out@[k].0 == a
                            && (q < m ==> out@[k].1 < lm[q as int])),
                    forall|qq: (usize, usize)|
                        is_candidate(rs, qq) && pair_cell(rs, qq, cx as int) < c ==> out@.contains(qq),
                    forall|p1: int, q1: int|
                        0 <= p1 < p && p1 < q1 < m && first_shared_at(
                            rs[lm[p1] as int],
                            rs[lm[q1] as int],
                            x as int,
                            y as int,
                        ) ==> out@.contains((#[trigger] lm[p1], #[trigger] lm[q1])),
                    forall|q1: int|
                        p < q1 < q && first_shared_at(ra, rs[lm[q1] as int], x as int, y as int)
                            ==> out@.contains((a, #[trigger] lm[q1])),
                    out@.no_duplicates(),
                decreases m - q,
            {
                let b = members[q];
                let rb = ranges[b];
                let fx = if ra.x0 > rb.x0 {
                    ra.x0
                } else {
                    rb.x0
                };
                let fy = if ra.y0 > rb.y0 {
                    ra.y0
                } else {
                    rb.y0
                };
                if fx == x && fy == y {
                    let ghost before = out@;
                    let pair = (a, b);
                    assert(lm[p as int] < lm[q as int]);
                    assert(is_candidate(rs, pair));
                    assert(pair_cell(rs, pair, cx as int) == c);
                    assert forall|k: int| 0 <= k < before.len() implies before[k] != pair by {
                        if k < start {
                            assert(pair_cell(rs, before[k], cx as int) < c);
                        } else {
                            assert(before[k].0 < a || (before[k].0 == a && before[k].1 < b));
                        }
                    }
                    out.push(pair);
                    proof {
                        assert forall|k1: int, k2: int|
                            0 <= k1 < out@.len() && 0 <= k2 < out@.len() && k1 != k2 implies out@[k1]
                            != out@[k2] by {
                            if k1 < before.len() && k2 < before.len() {
                                assert(before[k1] != before[k2]);
                            } else if k1 < before.len() {
                                assert(before[k1] != pair);
                            } else {
                                assert(before[k2] != pair);
                            }
                        }
                        assert forall|qq: (usize, usize)|
                            is_candidate(rs, qq) && pair_cell(rs, qq, cx as int) < c implies out@.contains(
                            qq,
                        ) by {
                            assert(before.contains(qq));
                            let k = choose|k: int| 0 <= k < before.len() && before[k] == qq;
                            assert(out@[k] == qq);
                        }
                        assert forall|p1: int, q1: int|
                            0 <= p1 < p && p1 < q1 < m && first_shared_at(
                                rs[lm[p1] as int],
                                rs[lm[q1] as int],
                                x as int,
                                y as int,
                            ) implies out@.contains((#[trigger] lm[p1], #[trigger] lm[q1])) by {
                            assert(before.contains((lm[p1], lm[q1])));
                            let k = choose|k: int| 0 <= k < before.len() && before[k] == (lm[p1], lm[q1]);
                            assert(out@[k] == before[k]);
                        }
                        assert forall|q1: int|
                            p < q1 < q + 1 && first_shared_at(ra, rs[lm[q1] as int], x as int, y as int)
                                implies out@.contains((a, #[trigger] lm[q1])) by {
                            if q1 < q {
                                assert(before.contains((a, lm[q1])));
                                let k = choose|k: int| 0 <= k < before.len() && before[k] == (a, lm[q1]);
                                assert(out@[k] == before[k]);
                            } else {
                                assert(out@[before.len() as int] == pair);
                            }
                        }
                    }
                } else {
                    proof {
                        assert forall|q1: int|
                            p < q1 < q + 1 && first_shared_at(ra, rs[lm[q1] as int], x as int, y as int)
                                implies out@.contains((a, #[trigger] lm[q1])) by {
                            if q1 == q {
                                assert(!first_shared_at(ra, rb, x as int, y as int));
                            }
                        }
                    }
                }
                proof {
                    if q + 1 < m {
                        assert(lm[q as int] < lm[q as int + 1]);
                    }
                }
                q = q + 1;
            }
            proof {
                if p + 1 < m {
                    assert(lm[p as int] < lm[p as int + 1]);
                }
                assert forall|p1: int, q1: int|
                    0 <= p1 < p + 1 && p1 < q1 < m && first_shared_at(
                        rs[lm[p1] as int],
                        rs[lm[q1] as int],
                        x as int,
                        y as int,
                    ) implies out@.contains((#[trigger] lm[p1], #[trigger] lm[q1])) by {
                    if p1 == p {
                        assert(out@.contains((a, lm[q1])));
                    }
                }
            }
            p = p + 1;
        }
        proof {
            assert forall|qq: (usize, usize)|
                is_candidate(rs, qq) && pair_cell(rs, qq, cx as int) < c + 1 implies out@.contains(
                qq,
            ) by {
                if pair_cell(rs, qq, cx as int) == c {
                    let ra = rs[qq.0 as int];
                    let rb = rs[qq.1 as int];
                    let fx: int = if ra.x0 > rb.x0 {
                        ra.x0 as int
                    } else {
                        rb.x0 as int
                    };
                    let fy: int = if ra.y0 > rb.y0 {
                        ra.y0 as int
                    } else {
                        rb.y0 as int
                    };
                    lemma_cell_index_unique(fx, fy, x as int, y as int, cx as int);
                    assert(ra.contains(x as int, y as int));
                    assert(rb.contains(x as int, y as int));
                    assert(lm.contains(qq.0));
                    assert(lm.contains(qq.1));
                    let pa = choose|pa: int| 0 <= pa < lm.len() && lm[pa] == qq.0;
                    let pb = choose|pb: int| 0 <= pb < lm.len() && lm[pb] == qq.1;
                    if pb < pa {
                        assert(lm[pb] < lm[pa]);
                    }
                    assert(first_shared_at(rs[lm[pa] as int], rs[lm[pb] as int], x as int, y as int));
                    assert(out@.contains((lm[pa], lm[pb])));
                }
            }
        }
        c = c + 1;
    }
    proof {
        assert forall|qq: (usize, usize)| is_candidate(rs, qq) implies out@.contains(qq) by {
            let ra = rs[qq.0 as int];
            let rb = rs[qq.1 as int];
            let fx: int = if ra.x0 > rb.x0 {
                ra.x0 as int
            } else {
                rb.x0 as int
            };
            let fy: int = if ra.y0 > rb.y0 {
                ra.y0 as int
            } else {
                rb.y0 as int
            };
            assert(fy * cx + fx < cx * cy) by (nonlinear_arith)
                requires
                    0 <= fx < cx,
                    0 <= fy < cy,
            ;
        }
    }
    out
}

} // verus!
