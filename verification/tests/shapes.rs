use verlet_sim::vec2::Vec2;
use verlet_sim::geometry::{Shape, Color, circle_indices};
use verlet_sim::world::World;
use verlet_sim::SimError;

fn blue() -> Color {
    Color { r: 0, g: 0, b: 255, a: 255 }
}

#[test]
fn polygon_wraps_points_unchanged() {
    let pts = vec![Vec2 { x: 1, y: 2 }, Vec2 { x: -3, y: 4 }, Vec2 { x: 5, y: -6 }];
    let s = Shape::polygon(pts.clone(), blue()).unwrap();
    assert_eq!(s.vertices, pts);
    assert_eq!(s.color, blue());
}

#[test]
fn polygon_rejects_empty_point_list() {
    let r = Shape::polygon(Vec::new(), blue());
    assert_eq!(r.err(), Some(SimError::InvalidGeometry));
}

#[test]
fn circle_has_six_vertices_from_rotation() {
    let s = Shape::circle(1310, blue()).unwrap();
    assert_eq!(s.vertices.len(), 6);
    assert_eq!(s.vertices[0], Vec2 { x: 0, y: 1310 });
    // One application of the fixed-point rotation by a sixth of a turn:
    // x = trunc(32768 * 0 / 65536) - trunc(56756 * 1310 / 65536) = -1134,
    // y = trunc(56756 * 0 / 65536) + trunc(32768 * 1310 / 65536) = 655.
    assert_eq!(s.vertices[1], Vec2 { x: -1134, y: 655 });
    // Each vertex stays near the circle of the given radius.
    for v in &s.vertices {
        let d = ((v.x as f64).powi(2) + (v.y as f64).powi(2)).sqrt();
        assert!((d - 1310.0).abs() < 4.0, "vertex off the circle: {}", d);
    }
}

#[test]
fn circle_rejects_degenerate_radius() {
    assert_eq!(Shape::circle(0, blue()).err(), Some(SimError::InvalidGeometry));
    assert_eq!(Shape::circle(-7, blue()).err(), Some(SimError::InvalidGeometry));
}

#[test]
fn rectangle_corners() {
    let s = Shape::rectangle(10, 6, blue()).unwrap();
    assert_eq!(s.vertices.len(), 4);
    assert_eq!(s.vertices[0], Vec2 { x: 3, y: -5 });
    assert_eq!(s.vertices[1], Vec2 { x: -3, y: -5 });
    assert_eq!(s.vertices[2], Vec2 { x: -3, y: 5 });
    assert_eq!(s.vertices[3], Vec2 { x: 3, y: 5 });
}

#[test]
fn rectangle_rejects_degenerate_sides() {
    assert_eq!(Shape::rectangle(0, 5, blue()).err(), Some(SimError::InvalidGeometry));
    assert_eq!(Shape::rectangle(5, -1, blue()).err(), Some(SimError::InvalidGeometry));
}

#[test]
fn circle_index_pattern() {
    let idx = circle_indices();
    assert_eq!(idx, vec![0, 1, 2, 0, 2, 3, 0, 3, 4, 0, 4, 5]);
}

#[test]
fn index_data_shifts_by_six_per_body() {
    let mut w = World::new();
    w.add_obj_at(Vec2 { x: 0, y: 0 });
    w.add_obj_at(Vec2 { x: 5000, y: 0 });
    let idx = w.index_data();
    assert_eq!(idx.len(), 24);
    assert_eq!(
        idx,
        vec![
            0, 1, 2, 0, 2, 3, 0, 3, 4, 0, 4, 5,
            6, 7, 8, 6, 8, 9, 6, 9, 10, 6, 10, 11,
        ]
    );
}

#[test]
fn snapshot_translates_template_by_position() {
    let mut w = World::new();
    w.add_obj_at(Vec2 { x: 1000, y: -2000 });
    let tpl = Shape::circle(1310, Color { r: 255, g: 0, b: 0, a: 255 }).unwrap();
    let snap = w.snapshot_for_render();
    assert_eq!(snap.len(), 6);
    for k in 0..6 {
        assert_eq!(snap[k].x, tpl.vertices[k].x + 1000);
        assert_eq!(snap[k].y, tpl.vertices[k].y - 2000);
    }
}
