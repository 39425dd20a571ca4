use procedural_generation::heightmap::{HeightMap, UNITS_PER_CELL};
use procedural_generation::meshing::{heightmap_to_rtin_mesh, MeshError, TerrainMeshData};
use procedural_generation::rtin::Triangle;
use procedural_generation::tile::Tile;

const ONE: i32 = UNITS_PER_CELL as i32;

fn filled(side: usize, value: i32) -> HeightMap {
    let mut hm = HeightMap::new(side, side);
    for x in 0..side {
        for y in 0..side {
            hm.set_height(x, y, value);
        }
    }
    hm
}

fn spike() -> HeightMap {
    let mut hm = HeightMap::new(5, 5);
    hm.set_height(2, 2, 10 * ONE);
    hm
}

fn assert_valid(mesh: &TerrainMeshData) {
    assert_eq!(mesh.triangles.len() % 3, 0);
    assert_eq!(mesh.normals.len(), mesh.vertices.len());
    for &i in &mesh.triangles {
        assert!((i as usize) < mesh.vertices.len());
    }
    for n in &mesh.normals {
        assert!(n.y > 0);
    }
    for i in 0..mesh.vertices.len() {
        for j in i + 1..mesh.vertices.len() {
            assert_ne!(mesh.vertices[i], mesh.vertices[j]);
        }
    }
}

#[test]
fn flat_field_gives_two_triangles() {
    let mesh = heightmap_to_rtin_mesh(filled(5, ONE), 0).unwrap();
    assert_eq!(mesh.triangles.len(), 6);
    assert_eq!(mesh.vertices.len(), 4);
    assert_valid(&mesh);
    let mut corners: Vec<(i64, i64)> = mesh.vertices.iter().map(|p| (p.x, p.z)).collect();
    corners.sort();
    let half = UNITS_PER_CELL / 2;
    let lo = -5 * half;
    let hi = 3 * half;
    assert_eq!(corners, vec![(lo, lo), (lo, hi), (hi, lo), (hi, hi)]);
    for p in &mesh.vertices {
        assert_eq!(p.y, UNITS_PER_CELL);
    }
}

#[test]
fn spike_refines_only_around_it() {
    let mesh = heightmap_to_rtin_mesh(spike(), ONE / 2).unwrap();
    let triangles = mesh.triangles.len() / 3;
    assert!(triangles > 2);
    assert!(triangles < 2 * 4 * 4);
    assert_valid(&mesh);
    assert!(mesh.vertices.iter().any(|p| p.y == 10 * UNITS_PER_CELL));
}

#[test]
fn negative_tolerance_gives_full_resolution() {
    let mesh = heightmap_to_rtin_mesh(spike(), -1).unwrap();
    assert_eq!(mesh.triangles.len() / 3, 2 * 4 * 4);
    assert_eq!(mesh.vertices.len(), 25);
    assert_valid(&mesh);
}

#[test]
fn large_tolerance_gives_the_roots() {
    let mesh = heightmap_to_rtin_mesh(spike(), 100 * ONE).unwrap();
    assert_eq!(mesh.triangles.len(), 6);
    assert_eq!(mesh.vertices.len(), 4);
    assert_eq!(mesh.triangles, vec![0, 1, 2, 1, 0, 3]);
    assert_valid(&mesh);
}

#[test]
fn tolerance_equal_to_error_does_not_split() {
    // the centre deviates by 10 cells from the flat diagonals
    let coarse = heightmap_to_rtin_mesh(spike(), 10 * ONE).unwrap();
    assert_eq!(coarse.triangles.len(), 6);
    let fine = heightmap_to_rtin_mesh(spike(), 10 * ONE - 1).unwrap();
    assert!(fine.triangles.len() > 6);
}

#[test]
fn smallest_grid_meshes() {
    let mesh = heightmap_to_rtin_mesh(filled(2, 3), 0).unwrap();
    assert_eq!(mesh.triangles.len(), 6);
    assert_eq!(mesh.vertices.len(), 4);
}

#[test]
fn non_square_is_rejected() {
    let hm = HeightMap::new(5, 4);
    assert_eq!(heightmap_to_rtin_mesh(hm, 0).unwrap_err(), MeshError::InvalidDimensions);
}

#[test]
fn side_not_power_of_two_plus_one_is_rejected() {
    assert_eq!(heightmap_to_rtin_mesh(filled(6, 0), 0).unwrap_err(), MeshError::InvalidDimensions);
    assert_eq!(heightmap_to_rtin_mesh(filled(1, 0), 0).unwrap_err(), MeshError::InvalidDimensions);
    assert_eq!(heightmap_to_rtin_mesh(filled(0, 0), 0).unwrap_err(), MeshError::InvalidDimensions);
}

#[test]
fn tile_meshes_match_the_function() {
    let tile = Tile::new(spike()).unwrap();
    let a = tile.get_mesh(ONE / 2);
    let b = heightmap_to_rtin_mesh(spike(), ONE / 2).unwrap();
    assert_eq!(a.vertices, b.vertices);
    assert_eq!(a.triangles, b.triangles);
    assert_eq!(a.normals, b.normals);
}

#[test]
fn flat_normals_point_straight_up() {
    let mesh = heightmap_to_rtin_mesh(filled(3, 7), -1).unwrap();
    for n in &mesh.normals {
        assert_eq!(n.x, 0);
        assert_eq!(n.z, 0);
        assert!(n.y > 0);
    }
}

#[test]
fn spike_errors_sit_at_midpoints() {
    let tile = Tile::new(spike()).unwrap();
    // the roots' hypotenuse passes the spike at its midpoint
    assert_eq!(tile.error_at(2, 2), 20 * ONE as i64);
    // the edges' midpoints inherit the deviations below them
    assert_eq!(tile.error_at(2, 0), 10 * ONE as i64);
    assert_eq!(tile.error_at(3, 1), 10 * ONE as i64);
    // corners are no midpoint of anything
    assert_eq!(tile.error_at(0, 0), 0);
    assert_eq!(tile.error_at(4, 4), 0);
}

#[test]
fn parent_errors_cover_their_children() {
    let mut hm = HeightMap::new(9, 9);
    for x in 0..9 {
        for y in 0..9 {
            hm.set_height(x, y, ((x * 37 + y * 91) % 23) as i32 * 1000 - 11000);
        }
    }
    let tile = Tile::new(hm).unwrap();
    for id in 2..8 * 8 {
        let t = Triangle::from_id(id, 8);
        let m = t.midpoint();
        let l = t.to_left_child().midpoint();
        let r = t.to_right_child().midpoint();
        assert!(tile.error_at(m.x, m.y) >= tile.error_at(l.x, l.y));
        assert!(tile.error_at(m.x, m.y) >= tile.error_at(r.x, r.y));
    }
}

#[test]
fn flat_field_has_no_error() {
    let tile = Tile::new(filled(9, 5 * ONE)).unwrap();
    for x in 0..9 {
        for y in 0..9 {
            assert_eq!(tile.error_at(x, y), 0);
        }
    }
}
