use vstd::prelude::*;

use crate::geometry::{in_limit, saturate, saturate_exec, vadd, Vec2, COORD_LIMIT};
use crate::polygon::{all_in_range, line_corners, shifted, Aabb, Polygon};

verus! {

/// Largest mass a dynamic body may have.
pub const MASS_LIMIT: u64 = 1048576;

/// How a body takes part in the simulation.
#[derive(Clone, Copy, Debug, PartialEq, Eq, Structural)]
pub enum PhysicsAddition {
    /// Moves under its constant acceleration; has a finite positive mass.
    Dynamic { accel: Vec2, vel: Vec2, mass: u64 },
    /// Never moves; behaves as if of infinite mass.
    Static,
}

impl PhysicsAddition {
    pub open spec fn wf(&self) -> bool {
        match *self {
            PhysicsAddition::Dynamic { accel, vel, mass } => accel.in_range() && vel.in_range()
                && 1 <= mass <= MASS_LIMIT,
            PhysicsAddition::Static => true,
        }
    }

    /// The mass of a dynamic body; `None` stands for the infinite mass
    /// (zero inverse mass) of a static one.
    pub fn get_masses(&self) -> (r: Option<u64>)
        ensures
            (*self) is Dynamic ==> r == Some(self->mass),
            (*self) is Static ==> r is None,
    {
        match self {
            PhysicsAddition::Dynamic { mass, .. } => Some(*mass),
            PhysicsAddition::Static => None,
        }
    }

    /// The velocity of a dynamic body, for update in place.
    pub fn get_vel_mut(&mut self) -> (r: Option<&mut Vec2>)
        ensures
            (*old(self)) is Static ==> r is None && *final(self) == *old(self),
            (*old(self)) is Dynamic ==> r is Some && *r->0 == old(self)->vel && *final(self) == (
            PhysicsAddition::Dynamic {
                accel: old(self)->accel,
                vel: *final(r->0),
                mass: old(self)->mass,
            }),
    {
        match self {
            PhysicsAddition::Dynamic { vel, .. } => Some(vel),
            PhysicsAddition::Static => None,
        }
    }

    pub fn is_dynamic(&self) -> (r: bool)
        ensures
            r == ((*self) is Dynamic),
    {
        matches!(self, PhysicsAddition::Dynamic { .. })
    }

    pub fn is_static(&self) -> (r: bool)
        ensures
            r == ((*self) is Static),
    {
        matches!(self, PhysicsAddition::Static)
    }
}

/// Display color, red, green, blue and alpha.
#[derive(Clone, Copy, Debug, PartialEq, Eq, Structural)]
pub struct Color {
    pub r: u8,
    pub g: u8,
    pub b: u8,
    pub a: u8,
}

/// What a body shows: its reference position, color and name.
pub struct GameObject {
    pub pos: Vec2,
    pub color: Color,
    pub name_tag: String,
}

/// Why a body cannot be built.
#[derive(Clone, Copy, Debug, PartialEq, Eq, Structural)]
pub enum BodyError {
    ZeroMass,
    MassTooLarge,
    PositionOutsideShape,
}

pub open spec fn pos_in_box(p: Vec2, bb: Aabb) -> bool {
    bb.min_x <= p.x <= bb.max_x && bb.min_y <= p.y <= bb.max_y
}

/// The part of the move `d` that keeps the box inside the coordinate limit.
pub open spec fn clamp_move(bb: Aabb, d: Vec2) -> Vec2 {
    Vec2 {
        x: clamp_int(d.x as int, -COORD_LIMIT - bb.min_x, COORD_LIMIT - bb.max_x) as i64,
        y: clamp_int(d.y as int, -COORD_LIMIT - bb.min_y, COORD_LIMIT - bb.max_y) as i64,
    }
}

pub open spec fn clamp_int(v: int, lo: int, hi: int) -> int {
    if v < lo {
        lo
    } else if v > hi {
        hi
    } else {
        v
    }
}

/// Velocity after one step of `dt` under constant acceleration,
/// each component saturated at the limit.
pub open spec fn advanced_velocity(vel: Vec2, accel: Vec2, dt: int) -> Vec2 {
    Vec2 {
        x: saturate(vel.x + accel.x * dt) as i64,
        y: saturate(vel.y + accel.y * dt) as i64,
    }
}

pub proof fn lemma_pos_in_range(o: &PhysicsObject)
    requires
        o.wf(),
    ensures
        o.obj.pos.in_range(),
{
    crate::polygon::lemma_bbox_in_range(o.polygon.corners@);
}

/// The segment along which wall `k` of a `w` by `h` world runs: left,
/// bottom, right, top edge.
pub open spec fn wall_ends(w: i64, h: i64, k: int) -> (Vec2, Vec2) {
    if k == 0 {
        (Vec2 { x: 0, y: 0 }, Vec2 { x: 0, y: h })
    } else if k == 1 {
        (Vec2 { x: 0, y: h }, Vec2 { x: w, y: h })
    } else if k == 2 {
        (Vec2 { x: w, y: h }, Vec2 { x: w, y: 0 })
    } else {
        (Vec2 { x: w, y: 0 }, Vec2 { x: 0, y: 0 })
    }
}

/// A body: shape, display data and physical behavior.
pub struct PhysicsObject {
    pub obj: GameObject,
    pub polygon: Polygon,
    pub physics: PhysicsAddition,
}

impl PhysicsObject {
    /// Shape well formed, position inside its box, physics in range.
    pub open spec fn wf(&self) -> bool {
        &&& self.polygon.wf()
        &&& pos_in_box(self.obj.pos, self.polygon.bounding_box)
        &&& self.physics.wf()
    }

    /// The state after a rigid move by `d` (as clamped at the limit).
    pub open spec fn moved_by(old: &PhysicsObject, new: &PhysicsObject, d: Vec2) -> bool {
        let c = clamp_move(old.polygon.bounding_box, d);
        &&& new.wf()
        &&& new.obj.pos == vadd(old.obj.pos, c)
        &&& new.polygon.corners@ == shifted(old.polygon.corners@, c)
        &&& new.obj.color == old.obj.color
        &&& new.obj.name_tag@ == old.obj.name_tag@
        &&& new.physics == old.physics
    }

    /// `new` is `old` after a step of `dt` ticks: a static body stays; a
    /// dynamic one takes its new velocity, then moves by velocity times `dt`.
    pub open spec fn advanced(old: &PhysicsObject, new: &PhysicsObject, dt: int) -> bool {
        match old.physics {
            PhysicsAddition::Static => *new == *old,
            PhysicsAddition::Dynamic { accel, vel, mass } => {
                let v = advanced_velocity(vel, accel, dt);
                let step = Vec2 { x: (v.x * dt) as i64, y: (v.y * dt) as i64 };
                let c = clamp_move(old.polygon.bounding_box, step);
                &&& new.wf()
                &&& new.physics == (PhysicsAddition::Dynamic { accel, vel: v, mass })
                &&& new.obj.pos == vadd(old.obj.pos, c)
                &&& new.polygon.corners@ == shifted(old.polygon.corners@, c)
                &&& new.obj.name_tag@ == old.obj.name_tag@
                &&& new.obj.color == old.obj.color
            },
        }
    }

    /// A dynamic body at rest, accelerated by `gravity`.
    pub fn new(pos: Vec2, mass: u64, gravity: i64, name_tag: String, polygon: Polygon, color: Color) -> (r: Result<PhysicsObject, BodyError>)
        requires
            polygon.wf(),
            in_limit(gravity as int),
        ensures
            mass == 0 ==> r == Err::<PhysicsObject, BodyError>(BodyError::ZeroMass),
            mass > MASS_LIMIT ==> r == Err::<PhysicsObject, BodyError>(BodyError::MassTooLarge),
            1 <= mass <= MASS_LIMIT && !pos_in_box(pos, polygon.bounding_box) ==> r
                == Err::<PhysicsObject, BodyError>(BodyError::PositionOutsideShape),
            1 <= mass <= MASS_LIMIT && pos_in_box(pos, polygon.bounding_box) ==> r is Ok,
            r is Ok ==> {
                let o = r->Ok_0;
                &&& o.wf()
                &&& o.obj.pos == pos
                &&& o.obj.color == color
                &&& o.obj.name_tag@ == name_tag@
                &&& o.polygon.corners@ == polygon.corners@
                &&& o.physics == (PhysicsAddition::Dynamic {
                    accel: Vec2 { x: 0, y: gravity },
                    vel: Vec2 { x: 0, y: 0 },
                    mass,
                })
            },
    {
        if mass == 0 {
            return Err(BodyError::ZeroMass);
        }
        if mass > MASS_LIMIT {
            return Err(BodyError::MassTooLarge);
        }
        let bb = polygon.bounding_box;
        if !(bb.min_x <= pos.x && pos.x <= bb.max_x && bb.min_y <= pos.y && pos.y <= bb.max_y) {
            return Err(BodyError::PositionOutsideShape);
        }
        Ok(
            PhysicsObject {
                obj: GameObject { pos, color, name_tag },
                polygon,
                physics: PhysicsAddition::Dynamic {
                    accel: Vec2 { x: 0, y: gravity },
                    vel: Vec2 { x: 0, y: 0 },
                    mass,
                },
            },
        )
    }

    /// An immovable body with the given shape.
    pub fn generate_ground(pos: Vec2, polygon: Polygon, color: Color) -> (r: Result<
        PhysicsObject,
        BodyError,
    >)
        requires
            polygon.wf(),
        ensures
            !pos_in_box(pos, polygon.bounding_box) ==> r == Err::<PhysicsObject, BodyError>(
                BodyError::PositionOutsideShape,
            ),
            pos_in_box(pos, polygon.bounding_box) ==> r is Ok,
            r is Ok ==> {
                let o = r->Ok_0;
                &&& o.wf()
                &&& o.obj.pos == pos
                &&& o.obj.color == color
                &&& o.polygon.corners@ == polygon.corners@
                &&& o.physics == PhysicsAddition::Static
            },
    {
        let bb = polygon.bounding_box;
        if !(bb.min_x <= pos.x && pos.x <= bb.max_x && bb.min_y <= pos.y && pos.y <= bb.max_y) {
            return Err(BodyError::PositionOutsideShape);
        }
        Ok(
            PhysicsObject {
                obj: GameObject { pos, color, name_tag: "ground_obj".to_owned() },
                polygon,
                physics: PhysicsAddition::Static,
            },
        )
    }

    /// A static wall along the segment from `start` to `end`, positioned at
    /// its midpoint.
    fn static_wall(start: Vec2, end: Vec2, thickness: i64) -> (r: PhysicsObject)
        requires
            start.in_range(),
            end.in_range(),
            start != end,
            0 <= start.x,
            0 <= start.y,
            0 <= end.x,
            0 <= end.y,
            0 <= thickness <= COORD_LIMIT,
            all_in_range(line_corners(start, end, thickness as int)),
        ensures
            r.wf(),
            r.physics is Static,
            r.polygon.corners@ == line_corners(start, end, thickness as int),
            r.obj.pos == (Vec2 {
                x: ((start.x + end.x) / 2) as i64,
                y: ((start.y + end.y) / 2) as i64,
            }),
    {
        let polygon = Polygon::new_polygon_line(start, end, thickness).unwrap();
        proof {
            crate::polygon::lemma_line_midpoint_in_box(start, end, thickness as int);
        }
        PhysicsObject {
            obj: GameObject {
                pos: Vec2 { x: (start.x + end.x) / 2, y: (start.y + end.y) / 2 },
                color: Color { r: 230, g: 41, b: 55, a: 255 },
                name_tag: "wall".to_owned(),
            },
            physics: PhysicsAddition::Static,
            polygon,
        }
    }

    /// Four static walls of half-width `thickness` along the edges of a
    /// `width` by `height` world.
    pub fn generate_walls(width: i64, height: i64, thickness: i64) -> (r: Vec<PhysicsObject>)
        requires
            0 < width,
            0 < height,
            0 <= thickness,
            width + thickness <= COORD_LIMIT,
            height + thickness <= COORD_LIMIT,
        ensures
            r@.len() == 4,
            forall|k: int|
                0 <= k < 4 ==> {
                    let (s, e) = wall_ends(width, height, k);
                    &&& (#[trigger] r@[k]).wf()
                    &&& r@[k].physics is Static
                    &&& r@[k].polygon.corners@ == line_corners(s, e, thickness as int)
                    &&& r@[k].obj.pos == (Vec2 {
                        x: ((s.x + e.x) / 2) as i64,
                        y: ((s.y + e.y) / 2) as i64,
                    })
                },
    {
        let mut result: Vec<PhysicsObject> = Vec::new();
        let o = Vec2 { x: 0, y: 0 };
        let top_left = Vec2 { x: 0, y: height };
        let top_right = Vec2 { x: width, y: height };
        let bottom_right = Vec2 { x: width, y: 0 };
        proof {
            crate::polygon::lemma_axis_line_offset(o, top_left, thickness as int);
            crate::polygon::lemma_axis_line_offset(top_left, top_right, thickness as int);
            crate::polygon::lemma_axis_line_offset(top_right, bottom_right, thickness as int);
            crate::polygon::lemma_axis_line_offset(bottom_right, o, thickness as int);
        }
        result.push(PhysicsObject::static_wall(o, top_left, thickness));
        result.push(PhysicsObject::static_wall(top_left, top_right, thickness));
        result.push(PhysicsObject::static_wall(top_right, bottom_right, thickness));
        result.push(PhysicsObject::static_wall(bottom_right, o, thickness));
        result
    }

    /// Rigid move of position and every corner by `added_pos`, clamped so that
    /// the body stays inside the coordinate limit.
    pub fn move_relative(&mut self, added_pos: &Vec2)
        requires
            old(self).wf(),
        ensures
            PhysicsObject::moved_by(old(self), final(self), *added_pos),
    {
        proof {
            crate::polygon::lemma_bbox_in_range(self.polygon.corners@);
            crate::polygon::lemma_proj_bounds(self.polygon.corners@, crate::polygon::x_axis());
            crate::polygon::lemma_proj_bounds(self.polygon.corners@, crate::polygon::y_axis());
        }
        let bb = self.polygon.bounding_box;
        let c = clamp_move_exec(bb, *added_pos);
        self.obj.pos = Vec2 { x: self.obj.pos.x + c.x, y: self.obj.pos.y + c.y };
        proof {
            assert forall|i: int| 0 <= i < self.polygon.corners@.len() implies crate::geometry::sum_in_range(
                #[trigger] self.polygon.corners@[i],
                c,
            ) by {
                crate::polygon::lemma_proj_bounds(self.polygon.corners@, crate::polygon::x_axis());
                crate::polygon::lemma_proj_bounds(self.polygon.corners@, crate::polygon::y_axis());
                assert(crate::geometry::dot(crate::polygon::x_axis(), self.polygon.corners@[i])
                    == self.polygon.corners@[i].x);
                assert(crate::geometry::dot(crate::polygon::y_axis(), self.polygon.corners@[i])
                    == self.polygon.corners@[i].y);
            }
        }
        self.polygon.move_relative(&c);
        proof {
            crate::polygon::lemma_shifted_bbox(old(self).polygon.corners@, c);
        }
    }

    /// Semi-implicit Euler step of `delta_time` ticks for a dynamic body:
    /// velocity first, then the move by the new velocity. A static body stays.
    pub fn update_move(&mut self, delta_time: u32)
        requires
            old(self).wf(),
        ensures
            PhysicsObject::advanced(old(self), final(self), delta_time as int),
    {
        match self.physics {
            PhysicsAddition::Dynamic { accel, vel, mass } => {
                let dt = delta_time as i128;
                proof {
                    crate::geometry::lemma_mul_bound(accel.x as int, dt as int, 524288, 4294967295);
                    crate::geometry::lemma_mul_bound(accel.y as int, dt as int, 524288, 4294967295);
                }
                let vx = saturate_exec(vel.x as i128 + accel.x as i128 * dt);
                let vy = saturate_exec(vel.y as i128 + accel.y as i128 * dt);
                let new_vel = Vec2 { x: vx, y: vy };
                self.physics = PhysicsAddition::Dynamic { accel, vel: new_vel, mass };
                proof {
                    crate::geometry::lemma_mul_bound(vx as int, dt as int, 524288, 4294967295);
                    crate::geometry::lemma_mul_bound(vy as int, dt as int, 524288, 4294967295);
                }
                let step = Vec2 { x: vx * delta_time as i64, y: vy * delta_time as i64 };
                self.move_relative(&step);
            },
            PhysicsAddition::Static => {},
        }
    }
}

/// The part of the move `d` that keeps the box inside the coordinate limit.
pub fn clamp_move_exec(bb: Aabb, d: Vec2) -> (r: Vec2)
    requires
        in_limit(bb.min_x as int),
        in_limit(bb.min_y as int),
        in_limit(bb.max_x as int),
        in_limit(bb.max_y as int),
        bb.min_x <= bb.max_x,
        bb.min_y <= bb.max_y,
    ensures
        r == clamp_move(bb, d),
        r.in_double_range(),
{
    let lo_x = -COORD_LIMIT - bb.min_x;
    let hi_x = COORD_LIMIT - bb.max_x;
    let lo_y = -COORD_LIMIT - bb.min_y;
    let hi_y = COORD_LIMIT - bb.max_y;
    let x = if d.x < lo_x {
        lo_x
    } else if d.x > hi_x {
        hi_x
    } else {
        d.x
    };
    let y = if d.y < lo_y {
        lo_y
    } else if d.y > hi_y {
        hi_y
    } else {
        d.y
    };
    Vec2 { x, y }
}

} // verus!
