use rust_game_engine::body::{BodyError, Color, PhysicsAddition, PhysicsObject};
use rust_game_engine::geometry::Vec2;
use rust_game_engine::grid::CellRange;
use rust_game_engine::polygon::{isqrt, GeometryError, Polygon};
use rust_game_engine::scene::Scene;

const BLACK: Color = Color { r: 0, g: 0, b: 0, a: 255 };

fn v(x: i64, y: i64) -> Vec2 {
    Vec2::new(x, y)
}

fn rect(x0: i64, y0: i64, x1: i64, y1: i64) -> Polygon {
    Polygon::from_corners(vec![v(x0, y0), v(x1, y0), v(x1, y1), v(x0, y1)]).unwrap()
}

fn dynamic_box(x0: i64, y0: i64, x1: i64, y1: i64, mass: u64, gravity: i64) -> PhysicsObject {
    let pos = v((x0 + x1) / 2, (y0 + y1) / 2);
    PhysicsObject::new(pos, mass, gravity, "box".to_string(), rect(x0, y0, x1, y1), BLACK).unwrap()
}

fn static_box(x0: i64, y0: i64, x1: i64, y1: i64) -> PhysicsObject {
    let pos = v((x0 + x1) / 2, (y0 + y1) / 2);
    PhysicsObject::generate_ground(pos, rect(x0, y0, x1, y1), BLACK).unwrap()
}

fn set_vel(o: &mut PhysicsObject, vel: Vec2) {
    if let Some(slot) = o.physics.get_vel_mut() {
        *slot = vel;
    }
}

fn vel_of(o: &PhysicsObject) -> Vec2 {
    match o.physics {
        PhysicsAddition::Dynamic { vel, .. } => vel,
        PhysicsAddition::Static => panic!("static body has no velocity"),
    }
}

#[test]
fn from_corners_computes_tight_bounding_box() {
    let p = Polygon::from_corners(vec![v(3, -2), v(10, 4), v(-5, 7)]).unwrap();
    assert_eq!(p.bounding_box.min_x, -5);
    assert_eq!(p.bounding_box.max_x, 10);
    assert_eq!(p.bounding_box.min_y, -2);
    assert_eq!(p.bounding_box.max_y, 7);
}

#[test]
fn from_corners_rejects_too_few_corners() {
    assert!(matches!(Polygon::from_corners(vec![v(1, 1)]), Err(GeometryError::TooFewCorners)));
    assert!(matches!(Polygon::from_corners(vec![]), Err(GeometryError::TooFewCorners)));
}

#[test]
fn from_corners_rejects_out_of_range() {
    let r = Polygon::from_corners(vec![v(0, 0), v(524_289, 0), v(0, 5)]);
    assert!(matches!(r, Err(GeometryError::OutOfRange)));
}

#[test]
fn move_relative_shifts_corners_and_box() {
    let mut p = rect(0, 0, 10, 10);
    p.move_relative(&v(5, -3));
    assert_eq!(p.corners, vec![v(5, -3), v(15, -3), v(15, 7), v(5, 7)]);
    assert_eq!(p.bounding_box.min_x, 5);
    assert_eq!(p.bounding_box.max_y, 7);
}

#[test]
fn integer_square_root() {
    assert_eq!(isqrt(0), 0);
    assert_eq!(isqrt(1), 1);
    assert_eq!(isqrt(15), 3);
    assert_eq!(isqrt(16), 4);
    assert_eq!(isqrt(1_000_000_000_000), 1_000_000);
}

#[test]
fn polygon_line_thickens_axis_parallel_segment() {
    let p = Polygon::new_polygon_line(v(0, 0), v(0, 100), 2).unwrap();
    assert_eq!(p.corners, vec![v(2, 100), v(2, 0), v(-2, 0), v(-2, 100)]);
}

#[test]
fn polygon_line_thickens_diagonal_segment() {
    // direction (30, 40) has length 50; the offset is (-40, 30) * 5 / 50
    let p = Polygon::new_polygon_line(v(0, 0), v(30, 40), 5).unwrap();
    assert_eq!(p.corners, vec![v(34, 37), v(4, -3), v(-4, 3), v(26, 43)]);
}

#[test]
fn polygon_line_rejects_degenerate_segment() {
    let r = Polygon::new_polygon_line(v(7, 7), v(7, 7), 1);
    assert!(matches!(r, Err(GeometryError::DegenerateSegment)));
}

#[test]
fn body_construction_errors() {
    let p = rect(0, 0, 10, 10);
    let r = PhysicsObject::new(v(5, 5), 0, 10, "x".to_string(), p, BLACK);
    assert!(matches!(r, Err(BodyError::ZeroMass)));
    let p = rect(0, 0, 10, 10);
    let r = PhysicsObject::new(v(5, 5), 2_000_000, 10, "x".to_string(), p, BLACK);
    assert!(matches!(r, Err(BodyError::MassTooLarge)));
    let p = rect(0, 0, 10, 10);
    let r = PhysicsObject::new(v(50, 5), 3, 10, "x".to_string(), p, BLACK);
    assert!(matches!(r, Err(BodyError::PositionOutsideShape)));
    let p = rect(0, 0, 10, 10);
    let r = PhysicsObject::generate_ground(v(-1, 5), p, BLACK);
    assert!(matches!(r, Err(BodyError::PositionOutsideShape)));
}

#[test]
fn new_body_is_dynamic_at_rest() {
    let o = dynamic_box(0, 0, 10, 10, 7, 3);
    assert!(o.physics.is_dynamic());
    assert!(!o.physics.is_static());
    assert_eq!(o.physics.get_masses(), Some(7));
    assert_eq!(o.physics, PhysicsAddition::Dynamic { accel: v(0, 3), vel: v(0, 0), mass: 7 });
    assert_eq!(o.obj.name_tag, "box");
    let g = static_box(0, 0, 10, 10);
    assert!(g.physics.is_static());
    assert_eq!(g.physics.get_masses(), None);
    assert_eq!(g.obj.name_tag, "ground_obj");
}

#[test]
fn get_vel_mut_updates_dynamic_only() {
    let mut o = dynamic_box(0, 0, 10, 10, 7, 3);
    set_vel(&mut o, v(4, -2));
    assert_eq!(vel_of(&o), v(4, -2));
    let mut g = static_box(0, 0, 10, 10);
    assert!(g.physics.get_vel_mut().is_none());
}

#[test]
fn update_move_is_semi_implicit_euler() {
    let mut o = dynamic_box(0, 0, 10, 10, 1, 3);
    set_vel(&mut o, v(2, 1));
    o.update_move(2);
    // velocity (2, 1 + 3 * 2) = (2, 7); move (4, 14)
    assert_eq!(vel_of(&o), v(2, 7));
    assert_eq!(o.obj.pos, v(9, 19));
    assert_eq!(o.polygon.corners, vec![v(4, 14), v(14, 14), v(14, 24), v(4, 24)]);
}

#[test]
fn update_move_leaves_static_body() {
    let mut g = static_box(0, 0, 10, 10);
    g.update_move(5);
    assert_eq!(g.polygon.corners, vec![v(0, 0), v(10, 0), v(10, 10), v(0, 10)]);
    assert_eq!(g.obj.pos, v(5, 5));
}

#[test]
fn moves_stop_at_the_coordinate_limit() {
    let mut o = dynamic_box(524_000, 0, 524_200, 10, 1, 0);
    o.move_relative(&v(1000, 0));
    assert_eq!(o.polygon.bounding_box.max_x, 524_288);
    assert_eq!(o.polygon.bounding_box.min_x, 524_088);
}

#[test]
fn velocity_saturates_at_the_limit() {
    let mut o = dynamic_box(0, 0, 10, 10, 1, 524_288);
    o.update_move(4);
    assert_eq!(vel_of(&o), v(0, 524_288));
}

#[test]
fn unwrap_and_wrap_vectors() {
    let (n, t) = PhysicsObject::unwrap_vec(&v(3, 4), v(0, 2));
    assert_eq!((n, t), (8, -6));
    // normal 8 and tangent -6 in units of |axis| = 2, divided by |axis|^2 = 4
    assert_eq!(PhysicsObject::wrap_vec(8, -6, v(0, 2), 4), v(3, 4));
    // rounding toward zero
    assert_eq!(PhysicsObject::wrap_vec(-7, 0, v(1, 0), 2), v(-3, 0));
}

#[test]
fn edge_normals_of_square() {
    let o = dynamic_box(0, 0, 10, 10, 1, 0);
    let axes = o.get_all_u_axes();
    assert_eq!(axes, vec![v(0, 10), v(-10, 0), v(0, -10), v(10, 0)]);
}

#[test]
fn separated_polygons_do_not_collide() {
    let a = dynamic_box(0, 0, 10, 10, 1, 0);
    let b = dynamic_box(20, 0, 30, 10, 1, 0);
    assert_eq!(a.get_collision_axis_and_overlap(&b), None);
    let tri = PhysicsObject::new(
        v(30, 25),
        1,
        0,
        "t".to_string(),
        Polygon::from_corners(vec![v(20, 20), v(40, 20), v(30, 35)]).unwrap(),
        BLACK,
    )
    .unwrap();
    assert_eq!(a.get_collision_axis_and_overlap(&tri), None);
}

#[test]
fn touching_polygons_do_not_collide() {
    let a = dynamic_box(0, 0, 10, 10, 1, 0);
    let b = dynamic_box(10, 0, 20, 10, 1, 0);
    assert_eq!(a.get_collision_axis_and_overlap(&b), None);
}

#[test]
fn least_penetration_axis_is_the_x_axis() {
    // squares of side 10 overlapping by 3 on x, level on y
    let a = dynamic_box(0, 0, 10, 10, 1, 0);
    let b = dynamic_box(7, 0, 17, 10, 1, 0);
    let (axis, overlap) = a.get_collision_axis_and_overlap(&b).unwrap();
    assert_eq!(axis, v(10, 0));
    assert_eq!(overlap, 30);
    // depth is overlap over axis length
    assert_eq!(overlap / 10, 3);
}

#[test]
fn contact_axis_points_from_first_to_second() {
    let a = dynamic_box(7, 0, 17, 10, 1, 0);
    let b = dynamic_box(0, 0, 10, 10, 1, 0);
    let (axis, overlap) = a.get_collision_axis_and_overlap(&b).unwrap();
    assert_eq!(axis, v(-10, 0));
    assert_eq!(overlap, 30);
}

#[test]
fn mass_proportional_separation() {
    // A of mass 1 and B of mass 3 overlap by 4 along (1, 0)
    let mut a = dynamic_box(0, 0, 10, 10, 1, 0);
    let mut b = dynamic_box(6, 0, 16, 10, 3, 0);
    a.resolve_collision_other(&mut b);
    assert_eq!(a.polygon.corners, vec![v(-3, 0), v(7, 0), v(7, 10), v(-3, 10)]);
    assert_eq!(b.polygon.corners, vec![v(7, 0), v(17, 0), v(17, 10), v(7, 10)]);
    assert_eq!(a.obj.pos, v(2, 5));
    assert_eq!(b.obj.pos, v(12, 5));
    assert_eq!(a.get_collision_axis_and_overlap(&b), None);
}

#[test]
fn static_body_is_never_moved() {
    let mut a = dynamic_box(0, 0, 10, 10, 5, 0);
    let mut g = static_box(0, 8, 50, 20);
    set_vel(&mut a, v(0, 10));
    a.resolve_collision_other(&mut g);
    assert_eq!(g.polygon.corners, vec![v(0, 8), v(50, 8), v(50, 20), v(0, 20)]);
    assert_eq!(g.obj.pos, v(25, 14));
    // the dynamic body takes the whole correction of 2 and bounces
    assert_eq!(a.polygon.bounding_box.max_y, 8);
    assert_eq!(vel_of(&a), v(0, -9));
}

#[test]
fn static_first_body_is_never_moved() {
    let mut g = static_box(0, 8, 50, 20);
    let mut a = dynamic_box(0, 0, 10, 10, 5, 0);
    g.resolve_collision_other(&mut a);
    assert_eq!(g.polygon.corners, vec![v(0, 8), v(50, 8), v(50, 20), v(0, 20)]);
    assert_eq!(a.polygon.bounding_box.max_y, 8);
}

#[test]
fn two_static_bodies_are_left_alone() {
    let mut g = static_box(0, 0, 10, 10);
    let mut h = static_box(5, 5, 15, 15);
    g.resolve_collision_other(&mut h);
    assert_eq!(g.polygon.corners, vec![v(0, 0), v(10, 0), v(10, 10), v(0, 10)]);
    assert_eq!(h.polygon.corners, vec![v(5, 5), v(15, 5), v(15, 15), v(5, 15)]);
}

#[test]
fn head_on_equal_masses_bounce_with_restitution() {
    let mut a = dynamic_box(0, 0, 10, 10, 5, 0);
    let mut b = dynamic_box(8, 0, 18, 10, 5, 0);
    set_vel(&mut a, v(10, 3));
    set_vel(&mut b, v(-10, 7));
    a.resolve_collision_other(&mut b);
    // normal speeds 10 become 9 with the sign swapped; tangents kept
    assert_eq!(vel_of(&a), v(-9, 3));
    assert_eq!(vel_of(&b), v(9, 7));
}

#[test]
fn unequal_masses_follow_the_collision_law() {
    let mut a = dynamic_box(0, 0, 10, 10, 1, 0);
    let mut b = dynamic_box(8, 0, 18, 10, 3, 0);
    set_vel(&mut a, v(40, 0));
    set_vel(&mut b, v(0, 0));
    a.resolve_collision_other(&mut b);
    // v1' = 40 * (1 - 3) / 4 * 0.9 = -18, v2' = 2 * 1 * 40 / 4 * 0.9 = 18
    assert_eq!(vel_of(&a), v(-18, 0));
    assert_eq!(vel_of(&b), v(18, 0));
}

#[test]
fn walls_line_the_world() {
    let walls = PhysicsObject::generate_walls(1000, 600, 1);
    assert_eq!(walls.len(), 4);
    assert!(walls.iter().all(|w| w.physics.is_static()));
    assert_eq!(walls[0].polygon.corners, vec![v(1, 600), v(1, 0), v(-1, 0), v(-1, 600)]);
    assert_eq!(walls[1].polygon.corners, vec![v(1000, 599), v(0, 599), v(0, 601), v(1000, 601)]);
    assert_eq!(walls[0].obj.pos, v(0, 300));
    assert_eq!(walls[2].obj.pos, v(1000, 300));
}

#[test]
fn cell_positions_follow_the_bounding_box() {
    let mut s = Scene::new(1000, 1000);
    s.add_game_object(dynamic_box(150, 250, 420, 260, 1, 0));
    s.add_game_object(dynamic_box(-50, -50, 10, 10, 1, 0));
    s.add_game_object(dynamic_box(990, 995, 1000, 1000, 1, 0));
    let cells = |i: usize| s.game_objects[i].get_cell_positions((10, 10), (1000, 1000));
    assert_eq!(cells(0), CellRange { x0: 1, x1: 4, y0: 2, y1: 2 });
    assert_eq!(cells(1), CellRange { x0: 0, x1: 0, y0: 0, y1: 0 });
    assert_eq!(cells(2), CellRange { x0: 9, x1: 9, y0: 9, y1: 9 });
}

#[test]
fn broad_phase_finds_intersecting_boxes_once() {
    let mut s = Scene::new(1000, 1000);
    // a long body spanning many cells, overlapping two small ones
    s.add_game_object(dynamic_box(0, 500, 1000, 520, 1, 0));
    s.add_game_object(dynamic_box(100, 510, 130, 540, 1, 0));
    s.add_game_object(dynamic_box(700, 490, 730, 505, 1, 0));
    s.add_game_object(dynamic_box(100, 100, 130, 130, 1, 0));
    s.add_game_object(dynamic_box(600, 470, 890, 500, 1, 0));
    let mut pairs = s.get_possible_collisions();
    pairs.sort();
    let mut dedup = pairs.clone();
    dedup.dedup();
    assert_eq!(pairs, dedup);
    for p in [(0, 1), (0, 2), (2, 4), (0, 4)] {
        assert!(pairs.contains(&p), "missing {:?}", p);
    }
    assert!(pairs.iter().all(|&(i, j)| i != 3 && j != 3));
    assert!(pairs.iter().all(|&(i, j)| i < j));
}

#[test]
fn narrow_phase_keeps_only_overlaps() {
    let mut s = Scene::new(1000, 1000);
    s.add_game_object(dynamic_box(0, 0, 10, 10, 1, 0));
    s.add_game_object(dynamic_box(5, 5, 15, 15, 1, 0));
    s.add_game_object(dynamic_box(40, 40, 50, 50, 1, 0));
    let real = s.filter_real_collisions(vec![(0, 2), (0, 1), (1, 2)]);
    assert_eq!(real, vec![(0, 1)]);
}

#[test]
fn resolve_collisions_uses_disjoint_pairs() {
    let mut s = Scene::new(1000, 1000);
    s.add_game_object(dynamic_box(0, 0, 10, 10, 1, 0));
    s.add_game_object(dynamic_box(6, 0, 16, 10, 3, 0));
    s.resolve_collisions(&vec![(0, 1)]);
    assert_eq!(s.game_objects[0].obj.pos, v(2, 5));
    assert_eq!(s.game_objects[1].obj.pos, v(12, 5));
}

#[test]
fn first_object_can_be_moved() {
    let mut s = Scene::new(1000, 1000);
    s.add_game_object(dynamic_box(0, 0, 10, 10, 1, 0));
    s.get_first_object_mut().move_relative(&v(3, 4));
    assert_eq!(s.game_objects[0].obj.pos, v(8, 9));
}

#[test]
fn frame_drops_body_onto_ground() {
    let mut s = Scene::new(100_000, 100_000);
    s.add_game_object(dynamic_box(0, 0, 100, 100, 10, 10));
    s.add_game_object(static_box(-500, 150, 500, 200));
    for _ in 0..20 {
        s.frame_logic(1);
    }
    // the body has reached the ground and does not fall through
    let bottom = s.game_objects[0].polygon.bounding_box.max_y;
    assert!(bottom > 100);
    assert!(bottom <= 150 + 10);
}

#[test]
fn body_resting_on_ground_does_not_sink() {
    let gravity: i64 = 10;
    let mut s = Scene::new(100_000, 100_000);
    s.add_game_object(dynamic_box(0, 50, 100, 150, 10, gravity));
    s.add_game_object(static_box(-500, 150, 500, 200));
    // one step under gravity sinks the body by at most gravity * dt * dt
    for _ in 0..500 {
        s.frame_logic(1);
        let bottom = s.game_objects[0].polygon.bounding_box.max_y;
        assert!(bottom <= 150 + gravity, "sank to {}", bottom);
        assert!(bottom >= 150 - gravity, "rose to {}", bottom);
    }
}

#[test]
fn scene_starts_empty_with_ten_by_ten_grid() {
    let s = Scene::new(1080, 720);
    assert_eq!(s.game_objects.len(), 0);
    assert_eq!(s.space_partitioning_grid_size, (10, 10));
    assert_eq!(s.world_size, (1080, 720));
}
