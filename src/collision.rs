use vstd::prelude::*;

use crate::body::PhysicsObject;
use crate::geometry::{
    dot, dot_double, lemma_mul_bound, norm_sq, sub_exec, vneg, vsub, Vec2,
};
use crate::polygon::{all_in_range, lemma_proj_bounds, proj_max, proj_min, projection_interval};

verus! {

/// Normal of the edge from corner `i` to the next one: the edge turned a
/// quarter turn, not normalized.
pub open spec fn edge_normal(cs: Seq<Vec2>, i: int) -> Vec2 {
    let c1 = cs[i];
    let c2 = cs[(i + 1) % (cs.len() as int)];
    Vec2 { x: (c1.y - c2.y) as i64, y: (c2.x - c1.x) as i64 }
}

pub open spec fn edge_normals(cs: Seq<Vec2>) -> Seq<Vec2> {
    Seq::new(cs.len(), |i: int| edge_normal(cs, i))
}

/// The candidate separating axes of two polygons: all their edge normals.
pub open spec fn sat_axes(a: Seq<Vec2>, b: Seq<Vec2>) -> Seq<Vec2> {
    edge_normals(a) + edge_normals(b)
}

/// `n`, flipped where needed so that it points along `d`.
pub open spec fn oriented(n: Vec2, d: Vec2) -> Vec2 {
    if dot(n, d) < 0 {
        vneg(n)
    } else {
        n
    }
}

/// The projections of `a` and `b` onto `n` do not overlap; touching
/// intervals count as separate.
pub open spec fn separates(a: Seq<Vec2>, b: Seq<Vec2>, n: Vec2) -> bool {
    !(proj_max(a, n) > proj_min(b, n) && proj_max(b, n) > proj_min(a, n))
}

/// Length of the overlap of the projections onto `n`, scaled by `|n|`.
pub open spec fn overlap_len(a: Seq<Vec2>, b: Seq<Vec2>, n: Vec2) -> int {
    let hi = if proj_max(a, n) < proj_max(b, n) {
        proj_max(a, n)
    } else {
        proj_max(b, n)
    };
    let lo = if proj_min(a, n) > proj_min(b, n) {
        proj_min(a, n)
    } else {
        proj_min(b, n)
    };
    hi - lo
}

/// The oriented candidate axis `k` of the pair.
pub open spec fn cand(a: Seq<Vec2>, b: Seq<Vec2>, d: Vec2, k: int) -> Vec2 {
    oriented(sat_axes(a, b)[k], d)
}

pub open spec fn usable(a: Seq<Vec2>, b: Seq<Vec2>, k: int) -> bool {
    0 <= k < sat_axes(a, b).len() && !sat_axes(a, b)[k].is_zero()
}

pub open spec fn ov(a: Seq<Vec2>, b: Seq<Vec2>, d: Vec2, k: int) -> int {
    overlap_len(a, b, cand(a, b, d, k))
}

/// Depth along axis `j` (overlap divided by the axis length) is strictly
/// smaller than along axis `k`; compared exactly through squares.
pub open spec fn shallower(a: Seq<Vec2>, b: Seq<Vec2>, d: Vec2, j: int, k: int) -> bool {
    ov(a, b, d, j) * ov(a, b, d, j) * norm_sq(sat_axes(a, b)[k]) < ov(a, b, d, k) * ov(a, b, d, k)
        * norm_sq(sat_axes(a, b)[j])
}

/// Axis `k` has the smallest depth, and no earlier axis has the same.
pub open spec fn first_best(a: Seq<Vec2>, b: Seq<Vec2>, d: Vec2, k: int) -> bool {
    &&& usable(a, b, k)
    &&& forall|j: int|
        #![trigger usable(a, b, j)]
        usable(a, b, j) ==> (j < k ==> shallower(a, b, d, k, j)) && (j > k ==> !shallower(
            a,
            b,
            d,
            j,
            k,
        ))
}

pub open spec fn has_separating_axis(a: Seq<Vec2>, b: Seq<Vec2>, d: Vec2) -> bool {
    exists|k: int| usable(a, b, k) && separates(a, b, #[trigger] cand(a, b, d, k))
}

pub open spec fn has_usable_axis(a: Seq<Vec2>, b: Seq<Vec2>) -> bool {
    exists|k: int| #[trigger] usable(a, b, k)
}

/// Result of the separating-axis test for polygons `a` and `b`, where `d`
/// points from the first body to the second: `None` where some edge normal
/// separates them (or neither has an edge of nonzero length), else the axis
/// of least penetration, pointing along `d`, and the overlap along it
/// (scaled by the axis length).
pub open spec fn contact(a: Seq<Vec2>, b: Seq<Vec2>, d: Vec2) -> Option<(Vec2, int)> {
    if !has_usable_axis(a, b) || has_separating_axis(a, b, d) {
        None
    } else {
        let k = choose|k: int| first_best(a, b, d, k);
        Some((cand(a, b, d, k), ov(a, b, d, k)))
    }
}

pub proof fn lemma_first_best_unique(a: Seq<Vec2>, b: Seq<Vec2>, d: Vec2, k1: int, k2: int)
    requires
        first_best(a, b, d, k1),
        first_best(a, b, d, k2),
    ensures
        k1 == k2,
{
    if k1 < k2 {
        assert(usable(a, b, k1));
    } else if k2 < k1 {
        assert(usable(a, b, k2));
    }
}

/// Exact comparison of ratios carries over: `a/Nb < b/Nk` and `b/Nj <= c/Nb`
/// give `a/Nj < c/Nk` (all squared depths and norms).
pub proof fn lemma_ratio_trans(a: int, b: int, c: int, nk: int, nb: int, nj: int)
    requires
        a >= 0,
        b >= 0,
        c >= 0,
        nk > 0,
        nb > 0,
        nj > 0,
        a * nb < b * nk,
        b * nj <= c * nb,
    ensures
        a * nj < c * nk,
{
    assert(a * nb * nj < b * nk * nj) by (nonlinear_arith)
        requires
            a * nb < b * nk,
            nj > 0,
    ;
    assert(b * nj * nk <= c * nb * nk) by (nonlinear_arith)
        requires
            b * nj <= c * nb,
            nk > 0,
    ;
    assert(a * nj * nb < c * nk * nb) by (nonlinear_arith)
        requires
            a * nb * nj < b * nk * nj,
            b * nj * nk <= c * nb * nk,
    ;
    assert(a * nj < c * nk) by (nonlinear_arith)
        requires
            a * nj * nb < c * nk * nb,
            nb > 0,
    ;
}

/// `a * a * n`, exactly, for a depth and a squared norm in range.
fn depth_weight(a: i64, n: i64) -> (r: i128)
    requires
        0 <= a <= 4398046511104,
        0 <= n <= 2199023255552,
    ensures
        r == a * a * n,
{
    proof {
        lemma_mul_bound(a as int, a as int, 4398046511104, 4398046511104);
        lemma_mul_bound(a * a, n as int, 19342813113834066795298816int, 2199023255552);
    }
    (a as i128) * (a as i128) * (n as i128)
}

impl PhysicsObject {
    /// The edge normals of the polygon, one per corner, in corner order.
    pub fn get_all_u_axes(&self) -> (r: Vec<Vec2>)
        requires
            self.polygon.wf(),
        ensures
            r@ == edge_normals(self.polygon.corners@),
            forall|i: int| 0 <= i < r@.len() ==> (#[trigger] r@[i]).in_double_range(),
    {
        let corners = &self.polygon.corners;
        let n = corners.len();
        let mut result: Vec<Vec2> = Vec::new();
        let mut i: usize = 0;
        while i < n
            invariant
                n == corners@.len(),
                n >= 2,
                all_in_range(corners@),
                0 <= i <= n,
                result@.len() == i,
                forall|k: int| 0 <= k < i ==> #[trigger] result@[k] == edge_normal(corners@, k),
                forall|k: int| 0 <= k < i ==> (#[trigger] result@[k]).in_double_range(),
            decreases n - i,
        {
            let c1 = corners[i];
            let next = if i + 1 == n {
                0
            } else {
                i + 1
            };
            proof {
                if i + 1 == n {
                    vstd::arithmetic::div_mod::lemma_mod_self_0(n as int);
                } else {
                    vstd::arithmetic::div_mod::lemma_small_mod((i + 1) as nat, n as nat);
                }
            }
            assert(next as int == (i as int + 1) % (n as int));
            let c2 = corners[next];
            result.push(Vec2 { x: c1.y - c2.y, y: c2.x - c1.x });
            i = i + 1;
        }
        assert(result@ =~= edge_normals(corners@));
        result
    }

    /// Separating-axis test against `other`: `None` where the polygons do not
    /// overlap, else the axis of least penetration (pointing from this body
    /// toward `other`) and the overlap along it.
    pub fn get_collision_axis_and_overlap(&self, other: &PhysicsObject) -> (r: Option<(Vec2, i64)>)
        requires
            self.wf(),
            other.wf(),
        ensures
            ({
                let c = contact(
                    self.polygon.corners@,
                    other.polygon.corners@,
                    vsub(other.obj.pos, self.obj.pos),
                );
                &&& r is None <==> c is None
                &&& r is Some ==> (r->0).0 == (c->0).0 && (r->0).1 == (c->0).1
                &&& r is Some ==> (r->0).0.in_double_range() && !(r->0).0.is_zero()
                &&& r is Some ==> 0 <= (r->0).1 <= 4398046511104
            }),
    {
        let ghost a = self.polygon.corners@;
        let ghost b = other.polygon.corners@;
        let mut axes = self.get_all_u_axes();
        let mut more = other.get_all_u_axes();
        axes.append(&mut more);
        assert(axes@ =~= sat_axes(a, b));
        proof {
            crate::body::lemma_pos_in_range(self);
            crate::body::lemma_pos_in_range(other);
        }
        let d = sub_exec(other.obj.pos, self.obj.pos);
        let mut best: Option<(Vec2, i64)> = None;
        let mut best_nsq: i64 = 0;
        let ghost mut bk: int = 0;
        let mut k: usize = 0;
        while k < axes.len()
            invariant
                axes@ == sat_axes(a, b),
                forall|i: int| 0 <= i < axes@.len() ==> (#[trigger] axes@[i]).in_double_range(),
                a == self.polygon.corners@,
                b == other.polygon.corners@,
                self.wf(),
                other.wf(),
                d == vsub(other.obj.pos, self.obj.pos),
                d.in_double_range(),
                0 <= k <= axes@.len(),
                forall|j: int|
                    0 <= j < k && usable(a, b, j) ==> !separates(a, b, #[trigger] cand(a, b, d, j)),
                best is None ==> forall|j: int| 0 <= j < k ==> !#[trigger] usable(a, b, j),
                best is Some ==> {
                    &&& 0 <= bk < k
                    &&& usable(a, b, bk)
                    &&& (best->0).0 == cand(a, b, d, bk)
                    &&& (best->0).1 == ov(a, b, d, bk)
                    &&& best_nsq == norm_sq(axes@[bk])
                    &&& 0 <= ov(a, b, d, bk) <= 4398046511104
                    &&& 0 < best_nsq <= 2199023255552
                    &&& forall|j: int|
                        #![trigger usable(a, b, j)]
                        0 <= j < k && usable(a, b, j) ==> (j < bk ==> shallower(a, b, d, bk, j))
                            && (j > bk ==> !shallower(a, b, d, j, bk))
                },
            decreases axes@.len() - k,
        {
            let n = axes[k];
            if n.x != 0 || n.y != 0 {
                let o = if dot_double(n, d) < 0 {
                    Vec2 { x: -n.x, y: -n.y }
                } else {
                    n
                };
                assert(o == cand(a, b, d, k as int));
                let (min_a, max_a) = projection_interval(&self.polygon.corners, o);
                let (min_b, max_b) = projection_interval(&other.polygon.corners, o);
                if !(max_a > min_b && max_b > min_a) {
                    assert(usable(a, b, k as int) && separates(a, b, cand(a, b, d, k as int)));
                    return None;
                }
                let hi = if max_a < max_b {
                    max_a
                } else {
                    max_b
                };
                let lo = if min_a > min_b {
                    min_a
                } else {
                    min_b
                };
                let depth = hi - lo;
                assert(depth == ov(a, b, d, k as int));
                proof {
                    lemma_mul_bound(n.x as int, n.x as int, 1048576, 1048576);
                    lemma_mul_bound(n.y as int, n.y as int, 1048576, 1048576);
                    lemma_ov_nonneg(a, b, o);
                }
                let nsq = n.x * n.x + n.y * n.y;
                assert(nsq == norm_sq(axes@[k as int]));
                assert(nsq > 0) by (nonlinear_arith)
                    requires
                        nsq == n.x * n.x + n.y * n.y,
                        n.x != 0 || n.y != 0,
                ;
                let replace = match best {
                    None => true,
                    Some((_, best_depth)) => depth_weight(depth, best_nsq) < depth_weight(
                        best_depth,
                        nsq,
                    ),
                };
                if replace {
                    proof {
                        if best is Some {
                            assert forall|j: int|
                                #![trigger usable(a, b, j)]
                                0 <= j < k && usable(a, b, j) implies shallower(
                                a,
                                b,
                                d,
                                k as int,
                                j,
                            ) by {
                                let nj = norm_sq(axes@[j]);
                                let ovj = ov(a, b, d, j);
                                if j == bk {
                                } else {
                                    assert(!separates(a, b, cand(a, b, d, j)));
                                    lemma_ov_nonneg(a, b, cand(a, b, d, j));
                                    lemma_nsq_pos(axes@[j]);
                                    let ovk = depth as int;
                                    let ovb = (best->0).1 as int;
                                    if j < bk {
                                        assert(shallower(a, b, d, bk, j));
                                    } else {
                                        assert(!shallower(a, b, d, j, bk));
                                    }
                                    lemma_sq_nonneg(ovk);
                                    lemma_sq_nonneg(ovb);
                                    lemma_sq_nonneg(ovj);
                                    lemma_ratio_trans(
                                        ovk * ovk,
                                        ovb * ovb,
                                        ovj * ovj,
                                        nsq as int,
                                        best_nsq as int,
                                        nj,
                                    );
                                }
                            }
                        }
                        bk = k as int;
                    }
                    best = Some((o, depth));
                    best_nsq = nsq;
                }
            }
            k = k + 1;
        }
        proof {
            if best is Some {
                assert(first_best(a, b, d, bk));
                assert(has_usable_axis(a, b));
                assert(!has_separating_axis(a, b, d));
                let kk = choose|kk: int| first_best(a, b, d, kk);
                lemma_first_best_unique(a, b, d, kk, bk);
            } else {
                assert(!has_usable_axis(a, b));
            }
        }
        best
    }
}

pub proof fn lemma_sq_nonneg(x: int)
    ensures
        x * x >= 0,
{
    assert(x * x >= 0) by (nonlinear_arith);
}

pub proof fn lemma_nsq_pos(n: Vec2)
    requires
        !n.is_zero(),
    ensures
        norm_sq(n) > 0,
{
    assert(norm_sq(n) > 0) by (nonlinear_arith)
        requires
            n.x != 0 || n.y != 0,
    ;
}

/// Where the projections overlap, the overlap length is not negative.
pub proof fn lemma_ov_nonneg(a: Seq<Vec2>, b: Seq<Vec2>, n: Vec2)
    requires
        a.len() > 0,
        b.len() > 0,
        !separates(a, b, n),
    ensures
        overlap_len(a, b, n) >= 0,
{
    lemma_proj_bounds(a, n);
    lemma_proj_bounds(b, n);
    assert(proj_min(a, n) <= dot(n, a[0]) <= proj_max(a, n));
    assert(proj_min(b, n) <= dot(n, b[0]) <= proj_max(b, n));
}

} // verus!
