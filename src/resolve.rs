use vstd::prelude::*;

use crate::body::{clamp_move, PhysicsAddition, PhysicsObject};
use crate::collision::contact;
use crate::geometry::{
    div_toward_zero, div_toward_zero_exec, dot, dot_exec, lemma_mul_bound, norm_sq, saturate,
    saturate_exec, vadd, vsub, Vec2,
};
use crate::polygon::shifted;

verus! {

/// Restitution, as the fraction `BOUNCE_NUM / BOUNCE_DEN` of the normal
/// velocity that a collision keeps.
pub const BOUNCE_NUM: i64 = 9;

pub const BOUNCE_DEN: i64 = 10;

/// Component of `v` along `axis`, scaled by the axis length.
pub open spec fn normal_part(v: Vec2, axis: Vec2) -> int {
    dot(axis, v)
}

/// Component of `v` across `axis` (along the axis turned a quarter turn),
/// scaled by the axis length.
pub open spec fn tangent_part(v: Vec2, axis: Vec2) -> int {
    dot(Vec2 { x: -axis.y as i64, y: axis.x }, v)
}

/// Velocity with normal part `n / den` and tangential part `t / den`
/// (both in units of the axis length), each component rounded toward zero
/// and saturated at the limit.
pub open spec fn recombined(n: int, t: int, axis: Vec2, den: int) -> Vec2 {
    Vec2 {
        x: saturate(div_toward_zero(n * axis.x - t * axis.y, den)) as i64,
        y: saturate(div_toward_zero(n * axis.y + t * axis.x, den)) as i64,
    }
}

/// Numerators of the new normal and tangential velocity of the dynamic body
/// `me` after hitting `other` along `axis`, and their common denominator.
/// The tangential part is kept; the normal part follows the one-dimensional
/// collision law scaled by the restitution, or is reflected and scaled when
/// `other` is static.
pub open spec fn bounce_terms(me: PhysicsAddition, other: PhysicsAddition, axis: Vec2) -> (
    int,
    int,
    int,
) {
    let m1 = me->mass as int;
    let vn1 = normal_part(me->vel, axis);
    let vt1 = tangent_part(me->vel, axis);
    match other {
        PhysicsAddition::Dynamic { vel, mass, .. } => {
            let m2 = mass as int;
            let vn2 = normal_part(vel, axis);
            (
                BOUNCE_NUM * (vn1 * (m1 - m2) + 2 * m2 * vn2),
                BOUNCE_DEN * (m1 + m2) * vt1,
                BOUNCE_DEN * (m1 + m2) * norm_sq(axis),
            )
        },
        PhysicsAddition::Static => (
            -BOUNCE_NUM * vn1,
            BOUNCE_DEN * vt1,
            BOUNCE_DEN * norm_sq(axis),
        ),
    }
}

/// The physics of `me` after a collision with `other` along `axis`.
pub open spec fn bounced(me: PhysicsAddition, other: PhysicsAddition, axis: Vec2) -> PhysicsAddition {
    match me {
        PhysicsAddition::Dynamic { accel, mass, .. } => {
            let (n, t, den) = bounce_terms(me, other, axis);
            PhysicsAddition::Dynamic { accel, vel: recombined(n, t, axis, den), mass }
        },
        PhysicsAddition::Static => PhysicsAddition::Static,
    }
}

/// One component of the full separating move for a contact: the axis
/// component times overlap over squared axis length, rounded toward zero.
pub open spec fn correction(axis_c: int, depth: int, nsq: int) -> int {
    div_toward_zero(axis_c * depth, nsq)
}

/// The part of a correction component `t` that the first body takes, in
/// proportion to inverse mass: `t * m_b / (m_a + m_b)` between two dynamic
/// bodies, all of it against a static body, none of it when static.
pub open spec fn first_share(t: int, a: PhysicsAddition, b: PhysicsAddition) -> int {
    match (a, b) {
        (PhysicsAddition::Dynamic { mass: ma, .. }, PhysicsAddition::Dynamic { mass: mb, .. }) => {
            div_toward_zero(t * mb, ma + mb)
        },
        (PhysicsAddition::Dynamic { .. }, PhysicsAddition::Static) => t,
        _ => 0,
    }
}

/// The part that the second body takes: the rest of `t`.
pub open spec fn second_share(t: int, a: PhysicsAddition, b: PhysicsAddition) -> int {
    t - first_share(t, a, b)
}

/// The move of the first body: back against the axis by its share.
pub open spec fn first_move(axis: Vec2, depth: int, a: PhysicsAddition, b: PhysicsAddition) -> Vec2 {
    let nsq = norm_sq(axis);
    Vec2 {
        x: -first_share(correction(axis.x as int, depth, nsq), a, b) as i64,
        y: -first_share(correction(axis.y as int, depth, nsq), a, b) as i64,
    }
}

/// The move of the second body: along the axis by its share.
pub open spec fn second_move(axis: Vec2, depth: int, a: PhysicsAddition, b: PhysicsAddition) -> Vec2 {
    let nsq = norm_sq(axis);
    Vec2 {
        x: second_share(correction(axis.x as int, depth, nsq), a, b) as i64,
        y: second_share(correction(axis.y as int, depth, nsq), a, b) as i64,
    }
}

/// `new` is `old` moved rigidly by `d` (clamped at the limit), with `physics`.
pub open spec fn moved_with(
    old: &PhysicsObject,
    new: &PhysicsObject,
    d: Vec2,
    physics: PhysicsAddition,
) -> bool {
    let c = clamp_move(old.polygon.bounding_box, d);
    &&& new.wf()
    &&& new.obj.pos == vadd(old.obj.pos, c)
    &&& new.polygon.corners@ == shifted(old.polygon.corners@, c)
    &&& new.obj.color == old.obj.color
    &&& new.obj.name_tag@ == old.obj.name_tag@
    &&& new.physics == physics
}

/// `a1`, `b1` are `a0`, `b0` after their collision is resolved: nothing
/// changes when both are static or they do not overlap; otherwise each
/// dynamic body moves by its share of the correction along the contact axis
/// and takes its bounced velocity, and a static body stays as it was.
pub open spec fn resolved_pair(
    a0: &PhysicsObject,
    b0: &PhysicsObject,
    a1: &PhysicsObject,
    b1: &PhysicsObject,
) -> bool {
    let a = a0.physics;
    let b = b0.physics;
    let c = contact(a0.polygon.corners@, b0.polygon.corners@, vsub(b0.obj.pos, a0.obj.pos));
    if (a is Static && b is Static) || c is None {
        *a1 == *a0 && *b1 == *b0
    } else {
        let axis = (c->0).0;
        let depth = (c->0).1;
        &&& a is Static ==> *a1 == *a0
        &&& b is Static ==> *b1 == *b0
        &&& a is Dynamic ==> moved_with(a0, a1, first_move(axis, depth, a, b), bounced(a, b, axis))
        &&& b is Dynamic ==> moved_with(
            b0,
            b1,
            second_move(axis, depth, a, b),
            bounced(b, a, axis),
        )
    }
}

/// A quotient rounded toward zero is no larger than a bound `q` on `|p| / d`.
pub proof fn lemma_div_shrink(p: int, q: int, d: int)
    requires
        d > 0,
        q >= 0,
        -(q * d) <= p <= q * d,
    ensures
        -q <= div_toward_zero(p, d) <= q,
{
    vstd::arithmetic::div_mod::lemma_div_multiples_vanish(q, d);
    assert(q * d == d * q) by (nonlinear_arith);
    if p >= 0 {
        vstd::arithmetic::div_mod::lemma_div_is_ordered(p, q * d, d);
        vstd::arithmetic::div_mod::lemma_div_is_ordered(0, p, d);
    } else {
        vstd::arithmetic::div_mod::lemma_div_is_ordered(-p, q * d, d);
        vstd::arithmetic::div_mod::lemma_div_is_ordered(0, -p, d);
    }
}

/// A share of `t` is no larger than `t` itself.
pub proof fn lemma_share_bound(t: int, a: PhysicsAddition, b: PhysicsAddition)
    requires
        a.wf(),
        b.wf(),
    ensures
        t >= 0 ==> 0 <= first_share(t, a, b) <= t,
        t < 0 ==> t <= first_share(t, a, b) <= 0,
{
    if a is Dynamic && b is Dynamic {
        let ma = a->mass as int;
        let mb = b->mass as int;
        let at = if t >= 0 {
            t
        } else {
            -t
        };
        assert(-(at * (ma + mb)) <= t * mb <= at * (ma + mb)) by (nonlinear_arith)
            requires
                at >= 0,
                at == t || at == -t,
                ma >= 1,
                mb >= 1,
        ;
        lemma_div_shrink(t * mb, at, ma + mb);
        if t >= 0 {
            assert(t * mb >= 0) by (nonlinear_arith)
                requires
                    t >= 0,
                    mb >= 1,
            ;
        } else {
            assert(t * mb < 0) by (nonlinear_arith)
                requires
                    t < 0,
                    mb >= 1,
            ;
        }
    }
}

/// A correction component is no larger than the overlap.
pub proof fn lemma_correction_bound(axis: Vec2, depth: int)
    requires
        !axis.is_zero(),
        depth >= 0,
    ensures
        -depth <= correction(axis.x as int, depth, norm_sq(axis)) <= depth,
        -depth <= correction(axis.y as int, depth, norm_sq(axis)) <= depth,
{
    let nsq = norm_sq(axis);
    let x = axis.x as int;
    let y = axis.y as int;
    assert(nsq > 0 && -(depth * nsq) <= x * depth <= depth * nsq && -(depth * nsq) <= y * depth
        <= depth * nsq) by (nonlinear_arith)
        requires
            nsq == x * x + y * y,
            x != 0 || y != 0,
            depth >= 0,
    ;
    lemma_div_shrink(x * depth, depth, nsq);
    lemma_div_shrink(y * depth, depth, nsq);
}

impl PhysicsObject {
    /// Normal and tangential parts of `vel` for the axis `u_axis`, both
    /// scaled by the axis length.
    pub fn unwrap_vec(vel: &Vec2, u_axis: Vec2) -> (r: (i64, i64))
        requires
            vel.in_range(),
            u_axis.in_double_range(),
        ensures
            r.0 == normal_part(*vel, u_axis),
            r.1 == tangent_part(*vel, u_axis),
            -2199023255552 <= r.0 <= 2199023255552,
            -2199023255552 <= r.1 <= 2199023255552,
    {
        let t = Vec2 { x: -u_axis.y, y: u_axis.x };
        (dot_exec(u_axis, *vel), dot_exec(t, *vel))
    }

    /// The velocity with normal part `n / den` and tangential part `t / den`
    /// for the axis `u_axis`.
    pub fn wrap_vec(n: i128, t: i128, u_axis: Vec2, den: i128) -> (r: Vec2)
        requires
            -1180591620717411303424 <= n <= 1180591620717411303424,
            -1180591620717411303424 <= t <= 1180591620717411303424,
            u_axis.in_double_range(),
            den > 0,
        ensures
            r == recombined(n as int, t as int, u_axis, den as int),
            r.in_range(),
    {
        let ax = u_axis.x as i128;
        let ay = u_axis.y as i128;
        proof {
            lemma_mul_bound(n as int, ax as int, 1180591620717411303424, 1048576);
            lemma_mul_bound(n as int, ay as int, 1180591620717411303424, 1048576);
            lemma_mul_bound(t as int, ax as int, 1180591620717411303424, 1048576);
            lemma_mul_bound(t as int, ay as int, 1180591620717411303424, 1048576);
        }
        let x = saturate_exec(div_toward_zero_exec(n * ax - t * ay, den));
        let y = saturate_exec(div_toward_zero_exec(n * ay + t * ax, den));
        Vec2 { x, y }
    }

    /// Resolves a collision with `other`: where the separating-axis test finds
    /// an overlap, each dynamic body is moved apart along the contact axis by
    /// its share of the correction and gets its bounced velocity. A static body
    /// never changes. Nothing happens when both are static or there is no
    /// overlap.
    pub fn resolve_collision_other(&mut self, other: &mut PhysicsObject)
        requires
            old(self).wf(),
            old(other).wf(),
        ensures
            resolved_pair(old(self), old(other), final(self), final(other)),
            old(self).physics is Static ==> final(self).polygon.corners@ == old(
                self,
            ).polygon.corners@,
            old(other).physics is Static ==> final(other).polygon.corners@ == old(
                other,
            ).polygon.corners@,
    {
        if self.physics.is_static() && other.physics.is_static() {
            return;
        }
        let (axis, depth) = match self.get_collision_axis_and_overlap(other) {
            Some(found) => found,
            None => {
                return;
            },
        };
        let a = self.physics;
        let b = other.physics;
        proof {
            lemma_mul_bound(axis.x as int, axis.x as int, 1048576, 1048576);
            lemma_mul_bound(axis.y as int, axis.y as int, 1048576, 1048576);
            lemma_mul_bound(axis.x as int, depth as int, 1048576, 4398046511104);
            lemma_mul_bound(axis.y as int, depth as int, 1048576, 4398046511104);
            crate::collision::lemma_nsq_pos(axis);
            lemma_correction_bound(axis, depth as int);
        }
        let nsq = axis.x * axis.x + axis.y * axis.y;
        let tx = div_toward_zero_exec(axis.x as i128 * depth as i128, nsq as i128) as i64;
        let ty = div_toward_zero_exec(axis.y as i128 * depth as i128, nsq as i128) as i64;
        let sx = first_share_exec(tx, a, b);
        let sy = first_share_exec(ty, a, b);
        proof {
            lemma_share_bound(tx as int, a, b);
            lemma_share_bound(ty as int, a, b);
        }
        if a.is_dynamic() {
            let vel = bounced_velocity(a, b, axis);
            self.move_relative(&Vec2 { x: -sx, y: -sy });
            if let PhysicsAddition::Dynamic { accel, mass, .. } = a {
                self.physics = PhysicsAddition::Dynamic { accel, vel, mass };
            }
        }
        if b.is_dynamic() {
            let vel = bounced_velocity(b, a, axis);
            other.move_relative(&Vec2 { x: tx - sx, y: ty - sy });
            if let PhysicsAddition::Dynamic { accel, mass, .. } = b {
                other.physics = PhysicsAddition::Dynamic { accel, vel, mass };
            }
        }
    }
}

/// The share of the correction component `t` that the first body takes.
fn first_share_exec(t: i64, a: PhysicsAddition, b: PhysicsAddition) -> (r: i64)
    requires
        a.wf(),
        b.wf(),
        -4398046511104 <= t <= 4398046511104,
    ensures
        r == first_share(t as int, a, b),
{
    proof {
        lemma_share_bound(t as int, a, b);
    }
    match (a, b) {
        (PhysicsAddition::Dynamic { mass: ma, .. }, PhysicsAddition::Dynamic { mass: mb, .. }) => {
            proof {
                lemma_mul_bound(t as int, mb as int, 4398046511104, 1048576);
            }
            div_toward_zero_exec(t as i128 * mb as i128, ma as i128 + mb as i128) as i64
        },
        (PhysicsAddition::Dynamic { .. }, PhysicsAddition::Static) => t,
        _ => 0,
    }
}

/// The velocity of the dynamic body `me` after hitting `other` along `axis`.
fn bounced_velocity(me: PhysicsAddition, other: PhysicsAddition, axis: Vec2) -> (r: Vec2)
    requires
        me is Dynamic,
        me.wf(),
        other.wf(),
        axis.in_double_range(),
        !axis.is_zero(),
    ensures
        bounced(me, other, axis) == (PhysicsAddition::Dynamic {
            accel: me->accel,
            vel: r,
            mass: me->mass,
        }),
        r.in_range(),
{
    let (vel1, m1) = match me {
        PhysicsAddition::Dynamic { vel, mass, .. } => (vel, mass as i128),
        PhysicsAddition::Static => (Vec2 { x: 0, y: 0 }, 1),
    };
    let (vn1, vt1) = PhysicsObject::unwrap_vec(&vel1, axis);
    proof {
        lemma_mul_bound(axis.x as int, axis.x as int, 1048576, 1048576);
        lemma_mul_bound(axis.y as int, axis.y as int, 1048576, 1048576);
        crate::collision::lemma_nsq_pos(axis);
    }
    let nsq = (axis.x * axis.x + axis.y * axis.y) as i128;
    match other {
        PhysicsAddition::Dynamic { vel, mass, .. } => {
            let (vn2, _) = PhysicsObject::unwrap_vec(&vel, axis);
            let m2 = mass as i128;
            proof {
                lemma_mul_bound(vn1 as int, m1 - m2, 2199023255552, 1048576);
                lemma_mul_bound(vn2 as int, m2 as int, 2199023255552, 1048576);
                lemma_mul_bound(m1 + m2, vt1 as int, 2097152, 2199023255552);
                lemma_mul_bound(m1 + m2, nsq as int, 2097152, 2199023255552);
                assert((m1 + m2) * nsq > 0) by (nonlinear_arith)
                    requires
                        m1 + m2 > 0,
                        nsq > 0,
                ;
            }
            let n = 9 * (vn1 as i128 * (m1 - m2) + 2 * (m2 * vn2 as i128));
            let t = 10 * ((m1 + m2) * vt1 as i128);
            let den = 10 * ((m1 + m2) * nsq);
            proof {
                assert(2 * (m2 * vn2) == 2 * m2 * vn2) by (nonlinear_arith);
                assert(10 * ((m1 + m2) * vt1) == 10 * (m1 + m2) * vt1) by (nonlinear_arith);
                assert(10 * ((m1 + m2) * nsq) == 10 * (m1 + m2) * nsq) by (nonlinear_arith);
            }
            PhysicsObject::wrap_vec(n, t, axis, den)
        },
        PhysicsAddition::Static => {
            PhysicsObject::wrap_vec(-9 * vn1 as i128, 10 * vt1 as i128, axis, 10 * nsq)
        },
    }
}

} // verus!
