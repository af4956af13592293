use verlet_sim::vec2::Vec2;
use verlet_sim::world::World;
use verlet_sim::geometry::Color;
use verlet_sim::SimError;

fn red() -> Color {
    Color { r: 255, g: 0, b: 0, a: 255 }
}

fn dist_from_origin(p: Vec2) -> f64 {
    ((p.x as f64) * (p.x as f64) + (p.y as f64) * (p.y as f64)).sqrt()
}

fn zero_gravity_world() -> World {
    World::with_config(
        Vec2 { x: 0, y: 0 },
        58982,
        Vec2 { x: 0, y: 0 },
        1310,
        red(),
        1000,
        1000,
    )
    .unwrap()
}

#[test]
fn integration_stability_single_body_at_rest() {
    let mut w = zero_gravity_world();
    w.add_obj_at(Vec2 { x: 1234, y: -4321 });
    for _ in 0..50 {
        w.update(1092).unwrap();
    }
    let p = w.body_position(0);
    assert_eq!(p, Vec2 { x: 1234, y: -4321 });
    let q = w.body_previous_position(0);
    assert_eq!(q, Vec2 { x: 1234, y: -4321 });
}

#[test]
fn gravity_accumulation_matches_closed_form() {
    let mut w = World::new();
    w.add_obj_at(Vec2 { x: 0, y: 0 });
    // One step of gravity contributes a displacement of
    // trunc(trunc(-32768 * 1092 / 65536) * 1092 / 65536) = -9 units;
    // after k steps from rest the total is -9 * k * (k + 1) / 2.
    for _ in 0..10 {
        w.update(1092).unwrap();
    }
    let p = w.body_position(0);
    assert_eq!(p.x, 0);
    assert_eq!(p.y, -9 * 55);
    let q = w.body_previous_position(0);
    assert_eq!(q.y, -9 * 45);
}

#[test]
fn boundary_containment_after_steps() {
    let mut w = World::new();
    w.add_obj_at(Vec2 { x: 20000, y: 50000 });
    for step in 0..300 {
        w.update(1092).unwrap();
        let d = dist_from_origin(w.body_position(0));
        assert!(d <= 58983.0, "escaped at step {}: {}", step, d);
    }
}

#[test]
fn collision_steady_state_distance() {
    let mut w = zero_gravity_world();
    w.add_obj_at(Vec2 { x: -500, y: 0 });
    w.add_obj_at(Vec2 { x: 500, y: 0 });
    for _ in 0..50 {
        w.update(1092).unwrap();
    }
    let a = w.body_position(0);
    let b = w.body_position(1);
    let dx = (b.x - a.x) as f64;
    let dy = (b.y - a.y) as f64;
    let d = (dx * dx + dy * dy).sqrt();
    assert!(d >= 2620.0 - 4.0, "still overlapping: {}", d);
}

#[test]
fn separation_symmetry_exact() {
    let mut w = zero_gravity_world();
    w.add_obj_at(Vec2 { x: -500, y: 0 });
    w.add_obj_at(Vec2 { x: 500, y: 0 });
    w.update(1092).unwrap();
    // Overlap 2620 - 1000 = 1620; each body moves half of it, 810.
    assert_eq!(w.body_position(0), Vec2 { x: -1310, y: 0 });
    assert_eq!(w.body_position(1), Vec2 { x: 1310, y: 0 });
}

#[test]
fn coincident_centers_separate_along_fixed_axis() {
    let mut w = zero_gravity_world();
    w.add_obj_at(Vec2 { x: 700, y: -300 });
    w.add_obj_at(Vec2 { x: 700, y: -300 });
    w.update(1092).unwrap();
    // Sum of radii 2620; each body moves half of it along the x axis.
    assert_eq!(w.body_position(0), Vec2 { x: 700 - 1310, y: -300 });
    assert_eq!(w.body_position(1), Vec2 { x: 700 + 1310, y: -300 });
}

#[test]
fn broad_phase_equals_brute_force() {
    let mut w = zero_gravity_world();
    for i in 0..80i64 {
        let x = (i * 7919) % 40000 - 20000;
        let y = (i * 104729) % 40000 - 20000;
        w.add_obj_at(Vec2 { x, y });
    }
    let naive = w.colliding_pairs_naive();
    let mut grid = w.colliding_pairs();
    grid.sort();
    grid.dedup();
    assert!(!naive.is_empty(), "population has no collisions to compare");
    assert_eq!(grid, naive);
}

#[test]
fn spawn_order_is_kept_in_snapshot() {
    let mut w = zero_gravity_world();
    w.add_obj_at(Vec2 { x: 100, y: 200 });
    w.add_obj_at(Vec2 { x: -300, y: 400 });
    assert_eq!(w.citizens_number(), 2);
    let snap = w.snapshot_for_render();
    assert_eq!(snap.len(), 12);
    // The first template vertex is (0, radius), translated by the position.
    assert_eq!(snap[0], Vec2 { x: 100, y: 200 + 1310 });
    assert_eq!(snap[6], Vec2 { x: -300, y: 400 + 1310 });
}

#[test]
fn falling_body_comes_to_rest_on_boundary() {
    let mut w = World::new();
    w.add_obj_at(Vec2 { x: 0, y: 55705 });
    for _ in 0..120 {
        w.update(1092).unwrap();
    }
    // After 120 steps the body has fallen 9 * 120 * 121 / 2 = 65340 units
    // and is still in free fall short of the rim.
    let p = w.body_position(0);
    assert_eq!(p, Vec2 { x: 0, y: 55705 - 65340 });
    // Further steps bring it to the rim, where it is clamped.
    for _ in 0..120 {
        w.update(1092).unwrap();
    }
    let p = w.body_position(0);
    assert_eq!(p.x, 0);
    let d = dist_from_origin(p);
    assert!((d - 58982.0).abs() <= 4.0, "not resting on the boundary: {}", d);
}

#[test]
fn invalid_timestep_is_rejected_without_mutation() {
    let mut w = World::new();
    w.add_obj_at(Vec2 { x: 10, y: 20 });
    assert_eq!(w.update(0), Err(SimError::InvalidTimestep));
    assert_eq!(w.update(-5), Err(SimError::InvalidTimestep));
    assert_eq!(w.update(3000), Err(SimError::InvalidTimestep));
    assert_eq!(w.body_position(0), Vec2 { x: 10, y: 20 });
}

#[test]
fn world_config_is_validated() {
    let r = World::with_config(Vec2 { x: 0, y: 0 }, 0, Vec2 { x: 0, y: 0 }, 10, red(), 100, 100);
    assert_eq!(r.err(), Some(SimError::InvalidGeometry));
    let r = World::with_config(Vec2 { x: 0, y: 0 }, 100, Vec2 { x: 0, y: 0 }, 0, red(), 100, 100);
    assert_eq!(r.err(), Some(SimError::InvalidGeometry));
}

#[test]
fn citizens_number_counts_spawns() {
    let mut w = World::new();
    assert_eq!(w.citizens_number(), 0);
    for i in 0..7i64 {
        w.add_obj_at(Vec2 { x: i * 5000, y: 0 });
    }
    assert_eq!(w.citizens_number(), 7);
}

#[test]
fn to_gl_coords_rescales_and_flips() {
    let w = World::new();
    let c = w.to_gl_coords(Vec2 { x: 500, y: 500 });
    assert_eq!(c, Vec2 { x: 0, y: 0 });
    let c = w.to_gl_coords(Vec2 { x: 0, y: 0 });
    assert_eq!(c, Vec2 { x: -65536, y: 65536 });
    let c = w.to_gl_coords(Vec2 { x: 1000, y: 1000 });
    assert_eq!(c, Vec2 { x: 65536, y: -65536 });
    let c = w.to_gl_coords(Vec2 { x: 250, y: 750 });
    assert_eq!(c, Vec2 { x: -32768, y: -32768 });
}

#[test]
fn empty_world_steps_without_effect() {
    let mut w = World::new();
    assert_eq!(w.update(2184), Ok(()));
    assert_eq!(w.citizens_number(), 0);
    assert!(w.snapshot_for_render().is_empty());
    assert!(w.index_data().is_empty());
    assert!(w.colliding_pairs().is_empty());
    assert!(w.colliding_pairs_naive().is_empty());
}

#[test]
fn timer_steps_are_capped() {
    let mut t = verlet_sim::timer::Timer::new();
    let dt = t.dt_fixed();
    assert!(dt >= 0);
    assert!(dt <= 2184);
    assert_eq!(verlet_sim::timer::millis_to_dt(0), 0);
    assert_eq!(verlet_sim::timer::millis_to_dt(16), 16 * 65536 / 1000);
    assert_eq!(verlet_sim::timer::millis_to_dt(5000), 2184);
    assert_eq!(verlet_sim::timer::millis_to_dt(34), 2184);
}
