use vstd::prelude::*;

use crate::body::PhysicsAddition;
use crate::collision::{
    cand, contact, edge_normal, edge_normals, has_separating_axis, oriented, sat_axes, separates,
    usable,
};
use crate::geometry::{dot, norm_sq, vneg, Vec2};
use crate::grid::{is_candidate, lemma_boxes_meet_in_grid};
use crate::polygon::{all_in_range, boxes_intersect, lemma_proj_bounds, proj_max, proj_min};
use crate::resolve::{
    bounce_terms, correction, first_move, normal_part, second_move, tangent_part, BOUNCE_DEN,
    BOUNCE_NUM,
};
use crate::scene::{broad_phase_of, Scene};

verus! {

/// Projecting onto the reversed axis mirrors the interval.
pub proof fn lemma_proj_neg(cs: Seq<Vec2>, n: Vec2)
    requires
        cs.len() > 0,
        n.in_double_range(),
    ensures
        proj_min(cs, vneg(n)) == -proj_max(cs, n),
        proj_max(cs, vneg(n)) == -proj_min(cs, n),
    decreases cs.len(),
{
    let m = vneg(n);
    assert(dot(m, cs.last()) == -dot(n, cs.last())) by (nonlinear_arith)
        requires
            m.x == -n.x,
            m.y == -n.y,
    ;
    if cs.len() > 1 {
        lemma_proj_neg(cs.drop_last(), n);
    } else {
        assert(cs.last() == cs[0]);
    }
}

/// Separation on an axis does not depend on which way the axis points.
pub proof fn lemma_separates_oriented(a: Seq<Vec2>, b: Seq<Vec2>, n: Vec2, d: Vec2)
    requires
        a.len() > 0,
        b.len() > 0,
        n.in_double_range(),
    ensures
        separates(a, b, oriented(n, d)) == separates(a, b, n),
{
    lemma_proj_neg(a, n);
    lemma_proj_neg(b, n);
}

pub proof fn lemma_edge_normals_in_range(cs: Seq<Vec2>)
    requires
        cs.len() > 0,
        all_in_range(cs),
    ensures
        forall|i: int| 0 <= i < cs.len() ==> (#[trigger] edge_normals(cs)[i]).in_double_range(),
{
    assert forall|i: int| 0 <= i < cs.len() implies (#[trigger] edge_normals(cs)[i]).in_double_range() by {
        let j = (i + 1) % (cs.len() as int);
        assert(cs[i].in_range());
        assert(cs[j].in_range());
        assert(edge_normals(cs)[i] == edge_normal(cs, i));
    }
}

/// Two polygons whose projections onto one of their (nonzero) edge normals
/// are disjoint, or only touch, do not collide: the separating-axis test
/// returns no contact, whatever the direction between the bodies.
pub proof fn lemma_separating_edge_normal_gives_no_contact(
    a: Seq<Vec2>,
    b: Seq<Vec2>,
    d: Vec2,
    k: int,
)
    requires
        a.len() >= 2,
        b.len() >= 2,
        all_in_range(a),
        all_in_range(b),
        0 <= k < sat_axes(a, b).len(),
        !sat_axes(a, b)[k].is_zero(),
        separates(a, b, sat_axes(a, b)[k]),
    ensures
        contact(a, b, d) is None,
{
    lemma_edge_normals_in_range(a);
    lemma_edge_normals_in_range(b);
    let n = sat_axes(a, b)[k];
    if k < a.len() {
        assert(n == edge_normals(a)[k]);
    } else {
        assert(n == edge_normals(b)[k - a.len()]);
    }
    lemma_separates_oriented(a, b, n, d);
    assert(usable(a, b, k) && separates(a, b, cand(a, b, d, k)));
    assert(has_separating_axis(a, b, d));
}

/// Positional correction is split without loss: the second body's move
/// minus the first body's move is the full correction, component by
/// component. A static body takes no part of it, and a dynamic body facing
/// a static one takes all of it.
pub proof fn lemma_moves_add_up_to_correction(
    axis: Vec2,
    depth: int,
    a: PhysicsAddition,
    b: PhysicsAddition,
)
    requires
        !axis.is_zero(),
        0 <= depth <= 4398046511104,
        a.wf(),
        b.wf(),
    ensures
        ({
            let nsq = norm_sq(axis);
            let f = first_move(axis, depth, a, b);
            let s = second_move(axis, depth, a, b);
            &&& !(a is Static && b is Static) ==> s.x - f.x == correction(axis.x as int, depth, nsq)
                && s.y - f.y == correction(axis.y as int, depth, nsq)
            &&& a is Static ==> f.x == 0 && f.y == 0
            &&& a is Dynamic && b is Static ==> s.x == 0 && s.y == 0
        }),
{
    crate::resolve::lemma_correction_bound(axis, depth);
    let nsq = norm_sq(axis);
    crate::resolve::lemma_share_bound(correction(axis.x as int, depth, nsq), a, b);
    crate::resolve::lemma_share_bound(correction(axis.y as int, depth, nsq), a, b);
}

/// A head-on collision of equal masses whose normal velocities are opposite
/// and equal: each body's new normal velocity is the restitution times its
/// old one with the sign swapped, and its tangential velocity is unchanged.
/// Both are stated over the exact new velocity `(n * axis + t * perp(axis)) / den`
/// before it is rounded toward zero to integer units.
pub proof fn lemma_head_on_equal_masses(a: PhysicsAddition, b: PhysicsAddition, axis: Vec2)
    requires
        a is Dynamic,
        b is Dynamic,
        a->mass == b->mass,
        normal_part(b->vel, axis) == -normal_part(a->vel, axis),
    ensures
        ({
            let (n, t, den) = bounce_terms(a, b, axis);
            &&& BOUNCE_DEN * n * norm_sq(axis) == -BOUNCE_NUM * normal_part(a->vel, axis) * den
            &&& t * norm_sq(axis) == tangent_part(a->vel, axis) * den
        }),
        ({
            let (n, t, den) = bounce_terms(b, a, axis);
            &&& BOUNCE_DEN * n * norm_sq(axis) == -BOUNCE_NUM * normal_part(b->vel, axis) * den
            &&& t * norm_sq(axis) == tangent_part(b->vel, axis) * den
        }),
{
    let m = a->mass as int;
    let va = normal_part(a->vel, axis);
    let vb = normal_part(b->vel, axis);
    let ta = tangent_part(a->vel, axis);
    let tb = tangent_part(b->vel, axis);
    let nsq = norm_sq(axis);
    assert(10 * (9 * (va * (m - m) + 2 * m * vb)) * nsq == -9 * va * (10 * (m + m) * nsq))
        by (nonlinear_arith)
        requires
            vb == -va,
    ;
    assert(10 * (9 * (vb * (m - m) + 2 * m * va)) * nsq == -9 * vb * (10 * (m + m) * nsq))
        by (nonlinear_arith)
        requires
            vb == -va,
    ;
    assert(10 * (m + m) * ta * nsq == ta * (10 * (m + m) * nsq)) by (nonlinear_arith);
    assert(10 * (m + m) * tb * nsq == tb * (10 * (m + m) * nsq)) by (nonlinear_arith);
}

/// Broad-phase soundness: two bodies whose bounding boxes intersect are a
/// candidate pair, so every pair list that the broad phase may return holds
/// them, and holds each pair only once.
pub proof fn lemma_broad_phase_sound(s: &Scene, i: usize, j: usize)
    requires
        s.wf(),
        i < j < s.game_objects@.len(),
        boxes_intersect(
            s.game_objects@[i as int].polygon.bounding_box,
            s.game_objects@[j as int].polygon.bounding_box,
        ),
    ensures
        is_candidate(s.cell_ranges_spec(), (i, j)),
        forall|pairs: Seq<(usize, usize)>|
            broad_phase_of(pairs, s.cell_ranges_spec()) ==> pairs.contains((i, j))
                && pairs.no_duplicates(),
{
    let a = s.game_objects@[i as int];
    let b = s.game_objects@[j as int];
    assert(a.wf());
    assert(b.wf());
    lemma_proj_bounds(a.polygon.corners@, crate::polygon::x_axis());
    lemma_proj_bounds(a.polygon.corners@, crate::polygon::y_axis());
    lemma_proj_bounds(b.polygon.corners@, crate::polygon::x_axis());
    lemma_proj_bounds(b.polygon.corners@, crate::polygon::y_axis());
    crate::polygon::lemma_bbox_in_range(a.polygon.corners@);
    crate::polygon::lemma_bbox_in_range(b.polygon.corners@);
    lemma_boxes_meet_in_grid(
        a.polygon.bounding_box,
        b.polygon.bounding_box,
        s.space_partitioning_grid_size.0 as int,
        s.space_partitioning_grid_size.1 as int,
        s.world_size.0 as int,
        s.world_size.1 as int,
    );
}

} // verus!
