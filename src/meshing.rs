//! The mesh handed to a renderer.
use vstd::prelude::*;
pub use crate::tile::heightmap_to_rtin_mesh;
use crate::heightmap::{HeightMap, Point3, Vector3, MAX_EXTENT};
use vstd::arithmetic::div_mod::lemma_fundamental_div_mod_converse;

verus! {

/// Vertex positions, one normal direction per vertex, and triangles as
/// triples of vertex indices.
#[derive(Debug)]
pub struct TerrainMeshData {
    pub vertices: Vec<Point3>,
    pub triangles: Vec<u32>,
    pub normals: Vec<Vector3>,
}

/// Why a heightfield cannot be meshed.
#[derive(Clone, Copy, Debug, PartialEq, Eq, Structural)]
pub enum MeshError {
    /// The grid is not square, or its side is not `2^k + 1` for a tile no
    /// larger than the largest one supported.
    InvalidDimensions,
}

impl TerrainMeshData {
    /// Indices come in triples, each naming a vertex, and there is one normal
    /// per vertex.
    pub open spec fn valid(&self) -> bool {
        &&& self.triangles@.len() % 3 == 0
        &&& self.normals@.len() == self.vertices@.len()
        &&& forall|j: int|
            0 <= j < self.triangles@.len() ==> (self.triangles@[j] as int) < self.vertices@.len()
    }
}

/// Entry `j` of the index list of the grid mesh over a grid `height` samples
/// high: cell `(x, y)` is the triangles `(x, y), (x + 1, y), (x + 1, y + 1)`
/// and `(x, y), (x + 1, y + 1), (x, y + 1)`, cells in the order of their number
/// `x * (height - 1) + y`, each sample `(x, y)` numbered `x * height + y`.
pub open spec fn grid_entry(j: int, height: int) -> int {
    let c = j / 6;
    let x = c / (height - 1);
    let y = c % (height - 1);
    let k = j % 6;
    if k == 0 || k == 3 {
        x * height + y
    } else if k == 1 {
        (x + 1) * height + y
    } else if k == 2 || k == 4 {
        (x + 1) * height + y + 1
    } else {
        x * height + y + 1
    }
}

/// The mesh with a vertex at every sample and two triangles in every cell,
/// with the surface normal of the heightfield at each vertex.
pub fn heightmap_to_grid_mesh(terrain: HeightMap) -> (r: TerrainMeshData)
    requires
        terrain.wf(),
        terrain.width() >= 2,
        terrain.height() >= 2,
    ensures
        r.valid(),
        r.vertices@.len() == terrain.width() * terrain.height(),
        forall|k: int|
            0 <= k < r.vertices@.len() ==> #[trigger] r.vertices@[k] == terrain.position(
                k / terrain.height() as int,
                k % terrain.height() as int,
            ) && (r.normals@[k].x as int, r.normals@[k].y as int, r.normals@[k].z as int)
                == terrain.surface_normal(k / terrain.height() as int, k % terrain.height() as int),
        r.triangles@.len() == 6 * (terrain.width() - 1) * (terrain.height() - 1),
        forall|j: int|
            0 <= j < r.triangles@.len() ==> #[trigger] r.triangles@[j] as int == grid_entry(j, terrain.height() as int),
{
    let (w, h) = terrain.dim();
    let mut vertices: Vec<Point3> = Vec::new();
    let mut normals: Vec<Vector3> = Vec::new();
    let mut x: usize = 0;
    while x < w
        invariant
            terrain.wf(),
            w == terrain.width(),
            h == terrain.height(),
            w >= 2,
            h >= 2,
            x <= w,
            vertices@.len() == x * h,
            normals@.len() == x * h,
            forall|k: int|
                0 <= k < vertices@.len() ==> #[trigger] vertices@[k] == terrain.position(k / h as int, k % h as int)
                    && (normals@[k].x as int, normals@[k].y as int, normals@[k].z as int)
                    == terrain.surface_normal(k / h as int, k % h as int),
        decreases w - x,
    {
        let mut y: usize = 0;
        while y < h
            invariant
                terrain.wf(),
                w == terrain.width(),
                h == terrain.height(),
                w >= 2,
                h >= 2,
                x < w,
                y <= h,
                vertices@.len() == x * h + y,
                normals@.len() == x * h + y,
                forall|k: int|
                    0 <= k < vertices@.len() ==> #[trigger] vertices@[k] == terrain.position(k / h as int, k % h as int)
                        && (normals@[k].x as int, normals@[k].y as int, normals@[k].z as int)
                        == terrain.surface_normal(k / h as int, k % h as int),
            decreases h - y,
        {
            proof {
                lemma_fundamental_div_mod_converse(x * h + y, h as int, x as int, y as int);
            }
            vertices.push(terrain.vertex_at(x, y));
            normals.push(terrain.normal_at(x, y));
            y = y + 1;
        }
        proof {
            assert(x * h + h == (x + 1) * h) by (nonlinear_arith);
        }
        x = x + 1;
    }
    let mut triangles: Vec<u32> = Vec::new();
    proof {
        terrain.lemma_extent_bounds();
    }
    assert(w * h <= MAX_EXTENT * MAX_EXTENT) by (nonlinear_arith)
        requires w <= MAX_EXTENT, h <= MAX_EXTENT;
    let mut x: usize = 0;
    while x + 1 < w
        invariant
            w == terrain.width(),
            h == terrain.height(),
            w >= 2,
            h >= 2,
            w <= MAX_EXTENT,
            h <= MAX_EXTENT,
            w * h <= MAX_EXTENT * MAX_EXTENT,
            x + 1 <= w,
            triangles@.len() == 6 * (x * (h - 1)),
            forall|j: int| 0 <= j < triangles@.len() ==> #[trigger] triangles@[j] as int == grid_entry(j, h as int),
        decreases w - x,
    {
        let mut y: usize = 0;
        while y + 1 < h
            invariant
                w == terrain.width(),
                h == terrain.height(),
                w >= 2,
                h >= 2,
                w <= MAX_EXTENT,
                h <= MAX_EXTENT,
                w * h <= MAX_EXTENT * MAX_EXTENT,
                x + 1 < w,
                y + 1 <= h,
                triangles@.len() == 6 * (x * (h - 1) + y),
                forall|j: int| 0 <= j < triangles@.len() ==> #[trigger] triangles@[j] as int == grid_entry(j, h as int),
            decreases h - y,
        {
            let ghost c = x * (h - 1) + y;
            proof {
                lemma_fundamental_div_mod_converse(c, h - 1, x as int, y as int);
                assert((x + 1) * h + y + 1 <= w * h) by (nonlinear_arith)
                    requires x + 1 < w, y + 1 < h;
                assert((x + 1) * h == x * h + h) by (nonlinear_arith);
                assert(x * h >= 0) by (nonlinear_arith) requires x >= 0, h >= 0;
            }
            let i00 = (x * h + y) as u32;
            let i10 = ((x + 1) * h + y) as u32;
            let i11 = ((x + 1) * h + y + 1) as u32;
            let i01 = (x * h + y + 1) as u32;
            triangles.push(i00);
            triangles.push(i10);
            triangles.push(i11);
            triangles.push(i00);
            triangles.push(i11);
            triangles.push(i01);
            proof {
                assert forall|j: int| 0 <= j < triangles@.len() implies #[trigger] triangles@[j] as int
                    == grid_entry(j, h as int) by {
                    if j >= 6 * c {
                        assert(j / 6 == c);
                    }
                }
            }
            y = y + 1;
        }
        proof {
            assert(x * (h - 1) + (h - 1) == (x + 1) * (h - 1)) by (nonlinear_arith);
        }
        x = x + 1;
    }
    proof {
        assert(6 * ((w - 1) * (h - 1)) == 6 * (w - 1) * (h - 1)) by (nonlinear_arith);
        assert forall|j: int| 0 <= j < triangles@.len() implies (triangles@[j] as int) < vertices@.len() by {
            assert(triangles@[j] as int == grid_entry(j, h as int));
            let c = j / 6;
            let cx = c / (h - 1);
            let cy = c % (h - 1);
            assert(0 <= c < (w - 1) * (h - 1));
            assert(0 <= cx < w - 1 && 0 <= cy < h - 1) by (nonlinear_arith)
                requires 0 <= c < (w - 1) * (h - 1), h >= 2, cx == c / (h - 1), cy == c % (h - 1);
            assert((cx + 1) * h + cy + 1 < w * h) by (nonlinear_arith)
                requires cx + 1 < w, cy + 1 < h, cx >= 0, cy >= 0;
            assert((cx + 1) * h == cx * h + h) by (nonlinear_arith);
            assert(cx * h >= 0) by (nonlinear_arith) requires cx >= 0, h >= 0;
            let hi = h as int;
            let top = (cx + 1) * hi + cy + 1;
            assert(top < w * h);
        }
    }
    TerrainMeshData { vertices, triangles, normals }
}

} // verus!
