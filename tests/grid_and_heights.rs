use procedural_generation::heightmap::{HeightMap, Point3, Vector3, UNITS_PER_CELL};
use procedural_generation::meshing::heightmap_to_grid_mesh;

fn ramp(w: usize, h: usize) -> HeightMap {
    let mut hm = HeightMap::new(w, h);
    for x in 0..w {
        for y in 0..h {
            hm.set_height(x, y, (x * 10 + y * 100) as i32);
        }
    }
    hm
}

#[test]
fn new_heightmap_is_flat_at_zero() {
    let hm = HeightMap::new(3, 2);
    assert_eq!(hm.dim(), (3, 2));
    for x in 0..3 {
        for y in 0..2 {
            assert_eq!(hm.height_at(x, y), 0);
        }
    }
}

#[test]
fn set_height_changes_one_sample() {
    let mut hm = HeightMap::new(3, 3);
    hm.set_height(1, 2, 42);
    assert_eq!(hm.height_at(1, 2), 42);
    assert_eq!(hm.height_at(2, 1), 0);
}

#[test]
fn vertex_positions_are_centred() {
    let hm = ramp(5, 3);
    let half = UNITS_PER_CELL / 2;
    assert_eq!(hm.vertex_at(0, 0), Point3 { x: -5 * half, y: 0, z: -3 * half });
    assert_eq!(hm.vertex_at(4, 2), Point3 { x: 3 * half, y: 240, z: half });
}

#[test]
fn normals_follow_the_slopes() {
    let hm = ramp(5, 3);
    let up = 2 * UNITS_PER_CELL as i128;
    // inside: central differences, doubled
    assert_eq!(hm.normal_at(2, 1), Vector3 { x: -20, y: up, z: -200 });
    // at the edges: one-sided differences, doubled
    assert_eq!(hm.normal_at(0, 0), Vector3 { x: -20, y: up, z: -200 });
    assert_eq!(hm.normal_at(4, 2), Vector3 { x: -20, y: up, z: -200 });
}

#[test]
fn flat_normal_points_up() {
    let hm = HeightMap::new(3, 3);
    assert_eq!(hm.normal_at(1, 1), Vector3 { x: 0, y: 2 * UNITS_PER_CELL as i128, z: 0 });
}

#[test]
fn grid_mesh_has_two_triangles_per_cell() {
    let hm = ramp(3, 4);
    let mesh = heightmap_to_grid_mesh(hm);
    assert_eq!(mesh.vertices.len(), 12);
    assert_eq!(mesh.normals.len(), 12);
    assert_eq!(mesh.triangles.len(), 6 * 2 * 3);
    assert_eq!(&mesh.triangles[0..6], &[0, 4, 5, 0, 5, 1]);
    // cell (1, 2)
    assert_eq!(&mesh.triangles[30..36], &[6, 10, 11, 6, 11, 7]);
    assert_eq!(mesh.vertices[7], ramp(3, 4).vertex_at(1, 3));
    for &i in &mesh.triangles {
        assert!((i as usize) < mesh.vertices.len());
    }
}

#[test]
fn pixels_are_grey_levels_row_by_row() {
    let mut hm = HeightMap::new(2, 2);
    hm.set_height(1, 0, UNITS_PER_CELL as i32);
    hm.set_height(0, 1, -5);
    hm.set_height(1, 1, UNITS_PER_CELL as i32 / 2);
    let bytes = procedural_generation::image::array_to_pixels(&hm);
    assert_eq!(
        bytes,
        vec![0, 0, 0, 0, 255, 255, 255, 255, 0, 0, 0, 0, 127, 127, 127, 127]
    );
}

#[test]
fn pixels_clip_high_elevations() {
    let mut hm = HeightMap::new(1, 1);
    hm.set_height(0, 0, 3 * UNITS_PER_CELL as i32);
    assert_eq!(procedural_generation::image::array_to_pixels(&hm), vec![255; 4]);
}
