use scanner::geometry::{Point, Ray, Triangle};
use scanner::terrain::{ray_triangle_collision, TriangleTable, Voxel, World, SURFACE_THRESHOLD};
use std::cell::Cell;

fn edge_ends(e: u8) -> (u8, u8) {
    if e < 4 {
        (e, (e + 1) % 4)
    } else if e < 8 {
        (e, 4 + (e - 3) % 4)
    } else {
        (e - 8, e - 4)
    }
}

fn crossed(c: usize, e: u8) -> bool {
    let (a, b) = edge_ends(e);
    ((c >> a) & 1) != ((c >> b) & 1)
}

/// A table that is valid: a flat quad for the configuration whose four
/// lower corners lie below the threshold, elsewhere one triangle on the
/// first three crossed edges.
fn test_rows() -> Vec<Vec<u8>> {
    let mut rows = Vec::new();
    for c in 0..256usize {
        if c == 0 || c == 255 {
            rows.push(Vec::new());
        } else if c == 15 {
            rows.push(vec![8, 9, 10, 8, 10, 11]);
        } else {
            let edges: Vec<u8> = (0..12u8).filter(|&e| crossed(c, e)).take(3).collect();
            rows.push(edges);
        }
    }
    rows
}

type Field = fn(i64, i64, i64) -> u32;

fn table() -> TriangleTable {
    TriangleTable::from_rows(test_rows()).expect("valid table")
}

fn test_world() -> World<Field> {
    World::new(table(), ground as Field)
}

/// Solid below y = 0 (in voxel units), empty above.
fn ground(_x: i64, y: i64, _z: i64) -> u32 {
    if y <= 0 {
        0
    } else {
        65536
    }
}

fn p(x: i64, y: i64, z: i64) -> Point {
    Point::new(x, y, z)
}

#[test]
fn table_rejects_wrong_shapes() {
    let mut short = test_rows();
    short.pop();
    assert!(TriangleTable::from_rows(short).is_none());
    let mut bad_edge = test_rows();
    bad_edge[3] = vec![0, 1, 12];
    assert!(TriangleTable::from_rows(bad_edge).is_none());
    let mut partial = test_rows();
    partial[7] = vec![0, 1];
    assert!(TriangleTable::from_rows(partial).is_none());
    let mut full_nonempty = test_rows();
    full_nonempty[255] = vec![0, 1, 2];
    assert!(TriangleTable::from_rows(full_nonempty).is_none());
    let mut empty_mixed = test_rows();
    empty_mixed[5] = Vec::new();
    assert!(TriangleTable::from_rows(empty_mixed).is_none());
    // configuration 1: only corner 0 is below, so edge 1 (corners 1 and 2) is not crossed
    let mut uncrossed = test_rows();
    uncrossed[1] = vec![0, 3, 1];
    assert!(TriangleTable::from_rows(uncrossed).is_none());
    assert!(TriangleTable::from_rows(test_rows()).is_some());
}

#[test]
fn extraction_interpolates_crossing() {
    let mut w = test_world();
    let tris = w.voxel_triangles(Voxel { x: 0, y: 0, z: 0 });
    assert_eq!(tris.len(), 2);
    assert_eq!(tris[0], Triangle { a: p(0, 512, 0), b: p(0, 512, 1024), c: p(1024, 512, 1024) });
    assert_eq!(tris[1], Triangle { a: p(0, 512, 0), b: p(1024, 512, 1024), c: p(1024, 512, 0) });
}

#[test]
fn extraction_is_cached() {
    let calls = Cell::new(0u32);
    let field = |x: i64, y: i64, z: i64| {
        calls.set(calls.get() + 1);
        ground(x, y, z)
    };
    let mut w = World::new(table(), field);
    let first = w.voxel_triangles(Voxel { x: 3, y: 0, z: -2 });
    assert_eq!(calls.get(), 8);
    let second = w.voxel_triangles(Voxel { x: 3, y: 0, z: -2 });
    assert_eq!(calls.get(), 8);
    assert_eq!(first, second);
}

#[test]
fn uniform_voxels_have_no_surface() {
    let mut w = test_world();
    assert!(w.voxel_triangles(Voxel { x: 0, y: 4, z: 0 }).is_empty());
    assert!(w.voxel_triangles(Voxel { x: 0, y: -3, z: 0 }).is_empty());
    assert!(!w.voxel_triangles(Voxel { x: 0, y: 0, z: 0 }).is_empty());
    let slanted = |x: i64, _y: i64, _z: i64| if x <= 0 { 0 } else { 65536 };
    let mut w2 = World::new(table(), slanted);
    let tris = w2.voxel_triangles(Voxel { x: 0, y: 0, z: 0 });
    assert_eq!(tris.len(), 1);
    // the crossing lies halfway along the x edges
    assert_eq!(tris[0].a.x, 512);
}

#[test]
fn threshold_is_the_middle_sample() {
    assert_eq!(SURFACE_THRESHOLD, 32768);
}

#[test]
fn parallel_ray_misses_triangle() {
    let t = Triangle { a: p(0, 512, 0), b: p(0, 512, 1024), c: p(1024, 512, 1024) };
    let ray = Ray { pos: p(-500, 512, 700), dir: p(1, 0, 0) };
    assert_eq!(ray_triangle_collision(&ray, &t), None);
}

#[test]
fn perpendicular_ray_hits_triangle() {
    let t = Triangle { a: p(0, 512, 0), b: p(0, 512, 1024), c: p(1024, 512, 1024) };
    let ray = Ray { pos: p(300, 527, 600), dir: p(0, -1, 0) };
    let (num, den) = ray_triangle_collision(&ray, &t).expect("hit");
    assert!(den > 0);
    assert_eq!(num, 15 * den);
    let away = Ray { pos: p(300, 527, 600), dir: p(0, 1, 0) };
    assert_eq!(ray_triangle_collision(&away, &t), None);
    let outside = Ray { pos: p(900, 527, 100), dir: p(0, -1, 0) };
    assert_eq!(ray_triangle_collision(&outside, &t), None);
}

#[test]
fn raycast_respects_max_distance() {
    let mut w = test_world();
    let ray = Ray { pos: p(300, 527, 600), dir: p(0, -1, 0) };
    assert_eq!(w.raycast(ray, 10), None);
    assert_eq!(w.raycast(ray, 20), Some(p(300, 512, 600)));
    assert_eq!(w.raycast(ray, -1), Some(p(300, 512, 600)));
}

#[test]
fn raycast_hits_in_origin_voxel() {
    // nothing is cached yet: the origin voxel must be extracted and hit
    let mut w = test_world();
    let ray = Ray { pos: p(300, 700, 600), dir: p(0, -3, 0) };
    assert_eq!(w.raycast(ray, 0), Some(p(300, 512, 600)));
}

#[test]
fn raycast_walks_down_to_surface() {
    let mut w = test_world();
    let ray = Ray { pos: p(300, 5000, 600), dir: p(0, -1024, 0) };
    assert_eq!(w.raycast(ray, -1), Some(p(300, 512, 600)));
    let slanted = Ray { pos: p(100, 3000, 600), dir: p(100, -1000, 0) };
    let hit = w.raycast(slanted, -1).expect("hit");
    assert_eq!(hit.y, 512);
    assert_eq!(hit.x, 348);
}

#[test]
fn raycast_parallel_to_surface_misses() {
    let mut w = test_world();
    let ray = Ray { pos: p(-500, 512, 700), dir: p(1, 0, 0) };
    assert_eq!(w.raycast(ray, -1), None);
}

#[test]
fn raycast_with_zero_direction_misses() {
    let mut w = test_world();
    let ray = Ray { pos: p(300, 5000, 600), dir: p(0, 0, 0) };
    assert_eq!(w.raycast(ray, -1), None);
}

#[test]
fn retrieve_is_idempotent() {
    let mut w = test_world();
    let first = w.retrieve_triangles(p(300, 300, 300), 100);
    assert_eq!(first.len(), 18);
    let second = w.retrieve_triangles(p(300, 300, 300), 100);
    assert_eq!(first, second);
    let single = w.retrieve_triangles(p(300, 300, 300), 0);
    assert_eq!(single.len(), 2);
    let none = w.retrieve_triangles(p(300, 300, 300), -2000);
    assert!(none.is_empty());
}

#[test]
fn collide_hits_slope_triangle() {
    let w = test_world();
    let ray = Ray { pos: p(512, 2000, 300), dir: p(0, -1, 0) };
    assert_eq!(w.collide(ray), Some(p(512, 1748, 300)));
    let up = Ray { pos: p(512, 2000, 300), dir: p(0, 1, 0) };
    assert_eq!(w.collide(up), Some(p(512, 2772, 300)));
    // the slopes' normals point along (0, -1, -1): this ray runs parallel to them
    let along = Ray { pos: p(512, 2000, 300), dir: p(1, 0, 0) };
    assert_eq!(w.collide(along), None);
}
