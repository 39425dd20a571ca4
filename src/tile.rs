//! A heightfield together with the error of every triangle of its hierarchy,
//! and the meshes extracted from the two.
use vstd::prelude::*;
use crate::grid::{ErrorGrid, IndexGrid, error_cells, error_extent, index_cells, index_extent};
use crate::heightmap::{HeightMap, Point3, Vector3};
use crate::meshing::{MeshError, TerrainMeshData};
use crate::rtin::{
    Coord, Triangle, MAX_TILE_SIZE, abs, is_pow2, valid_tile, tri_of_id, bottom_left_root,
    top_right_root, bottom_left_spec, top_right_spec, lemma_children_valid,
};

verus! {

/// The elevation at a grid coordinate.
pub open spec fn elev(hm: HeightMap, c: Coord) -> int {
    hm.elevation(c.x as int, c.y as int)
}

/// Twice the vertical distance between the middle of the hypotenuse, as the
/// triangle interpolates it, and the elevation stored there.
pub open spec fn deviation(hm: HeightMap, t: Triangle) -> int {
    abs(elev(hm, t.a) + elev(hm, t.b) - 2 * elev(hm, t.mid()))
}

pub open spec fn max3(a: int, b: int, c: int) -> int {
    let ab = if a > b { a } else { b };
    if ab > c { ab } else { c }
}

/// The error table after one triangle: its own deviation, and for a parent
/// also the errors of its two children, are folded into its midpoint.
pub open spec fn error_step(e: Seq<i64>, hm: HeightMap, t: Triangle, size: int, parent: bool) -> Seq<i64> {
    let m = t.mid().cell(size);
    let own = if e[m] > deviation(hm, t) { e[m] as int } else { deviation(hm, t) };
    let v = if parent {
        max3(own, e[t.left().mid().cell(size)] as int, e[t.right().mid().cell(size)] as int)
    } else {
        own
    };
    if 0 <= m < e.len() {
        e.update(m, v as i64)
    } else {
        e
    }
}

/// The error table once the `k` triangles of largest id, finest first, have
/// been folded in. Ids below `tile * tile` are parents.
pub open spec fn error_sweep(hm: HeightMap, tile: int, k: nat) -> Seq<i64>
    decreases k,
{
    if k == 0 {
        Seq::new(((tile + 1) * (tile + 1)) as nat, |i: int| 0i64)
    } else {
        let id = 2 * tile * tile - k;
        error_step(
            error_sweep(hm, tile, (k - 1) as nat),
            hm,
            tri_of_id(id as nat, tile),
            tile + 1,
            id < tile * tile,
        )
    }
}

/// The error table of a heightfield whose side is `tile + 1`: every one of the
/// `2 * tile^2 - 2` triangles of the hierarchy folded in, finest first.
pub open spec fn error_field(hm: HeightMap, tile: int) -> Seq<i64> {
    error_sweep(hm, tile, (2 * tile * tile - 2) as nat)
}

/// A square heightfield whose side is one more than a supported tile.
pub open spec fn meshable(hm: HeightMap) -> bool {
    hm.width() == hm.height() && valid_tile(hm.width() - 1)
}

/// Whether `k` is a power of two.
fn power_of_two(k: usize) -> (r: bool)
    ensures
        r == is_pow2(k as int),
{
    if k == 0 {
        return false;
    }
    let mut m = k;
    while m > 1 && m % 2 == 0
        invariant
            m >= 1,
            is_pow2(m as int) == is_pow2(k as int),
        decreases m,
    {
        m = m / 2;
    }
    m == 1
}

/// A heightfield with the error of each triangle of its hierarchy, kept at the
/// midpoint of the triangle's hypotenuse in twice the elevation units.
pub struct Tile {
    terrain: HeightMap,
    errors: ErrorGrid,
}

impl Tile {
    pub closed spec fn terrain_spec(&self) -> HeightMap {
        self.terrain
    }

    pub closed spec fn errors_spec(&self) -> Seq<i64> {
        error_cells(self.errors)
    }

    pub closed spec fn errors_square(&self) -> bool {
        error_extent(self.errors) == (self.terrain.width(), self.terrain.width())
    }

    pub open spec fn tile(&self) -> int {
        self.terrain_spec().width() - 1
    }

    pub open spec fn wf(&self) -> bool {
        &&& self.terrain_spec().wf()
        &&& meshable(self.terrain_spec())
        &&& self.errors_spec() == error_field(self.terrain_spec(), self.tile())
        &&& self.errors_square()
    }

    /// The error kept at `(x, y)`: twice the largest deviation of the
    /// triangles whose hypotenuse has its midpoint there, their descendants
    /// included.
    pub fn error_at(&self, x: usize, y: usize) -> (r: i64)
        requires
            self.wf(),
            x <= self.tile(),
            y <= self.tile(),
        ensures
            r == self.errors_spec()[x * (self.tile() + 1) + y],
    {
        self.errors.get(Coord { x, y }.idx())
    }

    /// Computes the error field of `terrain`, which must be square with a side
    /// of `2^k + 1`.
    pub fn new(terrain: HeightMap) -> (r: Result<Tile, MeshError>)
        requires
            terrain.wf(),
        ensures
            meshable(terrain) <==> r is Ok,
            r is Ok ==> r->Ok_0.wf() && r->Ok_0.terrain_spec() == terrain,
            r is Err ==> r->Err_0 == MeshError::InvalidDimensions,
    {
        let (width, height) = terrain.dim();
        if width != height || width < 2 || width - 1 > MAX_TILE_SIZE || !power_of_two(width - 1) {
            return Err(MeshError::InvalidDimensions);
        }
        let size = width;
        let tile = width - 1;
        assert(tile * tile <= MAX_TILE_SIZE * MAX_TILE_SIZE) by (nonlinear_arith)
            requires tile <= MAX_TILE_SIZE;
        assert(tile * tile >= 1) by (nonlinear_arith)
            requires tile >= 1;
        let sq = tile * tile;
        let total = 2 * sq - 2;
        assert(size * size <= (MAX_TILE_SIZE + 1) * (MAX_TILE_SIZE + 1)) by (nonlinear_arith)
            requires size <= MAX_TILE_SIZE + 1;
        let mut errors = ErrorGrid::zeros(size, size);
        proof {
            assert(error_cells(errors) =~= error_sweep(terrain, tile as int, 0));
            assert(2 * tile * tile == 2 * sq) by (nonlinear_arith)
                requires sq == tile * tile;
        }
        let mut i: usize = total;
        while i > 0
            invariant
                terrain.wf(),
                meshable(terrain),
                size == terrain.width(),
                tile == size - 1,
                1 <= tile <= MAX_TILE_SIZE,
                sq == tile * tile,
                sq <= MAX_TILE_SIZE * MAX_TILE_SIZE,
                total == 2 * sq - 2,
                i <= total,
                error_cells(errors) == error_sweep(terrain, tile as int, (total - i) as nat),
                error_extent(errors) == (size as nat, size as nat),
            decreases i,
        {
            i = i - 1;
            let id = i + 2;
            let tri = Triangle::from_id(id, tile);
            let ha = terrain.height_at(tri.a.x, tri.a.y) as i64;
            let hb = terrain.height_at(tri.b.x, tri.b.y) as i64;
            let m = tri.midpoint();
            let hm = terrain.height_at(m.x, m.y) as i64;
            let d = ha + hb - 2 * hm;
            let dev = if d < 0 { -d } else { d };
            proof {
                lemma_cell_range(m, size as int);
                lemma_sweep_len(terrain, tile as int, (total - i - 1) as nat);
            }
            let mut v = errors.get(m.idx());
            if dev > v {
                v = dev;
            }
            if id < sq {
                let l = errors.get(tri.left_child_idx());
                let r = errors.get(tri.right_child_idx());
                if l > v {
                    v = l;
                }
                if r > v {
                    v = r;
                }
            }
            errors.set(m.idx(), v);
            proof {
                assert(2 * tile * tile == 2 * sq) by (nonlinear_arith)
                    requires sq == tile * tile;
            }
        }
        Ok(Tile { terrain, errors })
    }
}

/// Whether extraction splits `t`: it is no leaf, and the error at its
/// midpoint is above `max_error` (the table holds errors doubled).
pub open spec fn splits(t: Triangle, errors: Seq<i64>, size: int, max_error: int) -> bool {
    !t.is_leaf() && errors[t.mid().cell(size)] > 2 * max_error
}

/// The triangles of the mesh under `t`, in the order of a depth-first walk
/// that visits the left child first.
pub open spec fn leaves(t: Triangle, tile: int, errors: Seq<i64>, max_error: int) -> Seq<Triangle>
    decreases t.measure(),
    via leaves_decreases
{
    if t.valid(tile) && splits(t, errors, tile + 1, max_error) {
        leaves(t.left(), tile, errors, max_error) + leaves(t.right(), tile, errors, max_error)
    } else {
        seq![t]
    }
}

#[via_fn]
proof fn leaves_decreases(t: Triangle, tile: int, errors: Seq<i64>, max_error: int) {
    if t.valid(tile) && splits(t, errors, tile + 1, max_error) {
        lemma_children_valid(t, tile);
    }
}

/// The triangles of the mesh over the whole square: those under the
/// bottom-left root, then those under the top-right root.
pub open spec fn mesh_leaves(tile: int, errors: Seq<i64>, max_error: int) -> Seq<Triangle> {
    leaves(bottom_left_spec(tile), tile, errors, max_error) + leaves(
        top_right_spec(tile),
        tile,
        errors,
        max_error,
    )
}

/// The corners of the triangles, three by three.
pub open spec fn corners(ts: Seq<Triangle>) -> Seq<Coord> {
    Seq::new(3 * ts.len(), |j: int| ts[j / 3].corner(j % 3))
}

/// The elements of `s` in the order of their first occurrence.
pub open spec fn distinct(s: Seq<Coord>) -> Seq<Coord>
    decreases s.len(),
{
    if s.len() == 0 {
        Seq::empty()
    } else {
        let d = distinct(s.drop_last());
        if d.contains(s.last()) {
            d
        } else {
            d.push(s.last())
        }
    }
}

/// The cross product of the edges `a - b` and `a - c` of `t`, placed in the
/// heightfield.
pub open spec fn face_normal(hm: HeightMap, t: Triangle) -> (int, int, int) {
    let pa = hm.position(t.a.x as int, t.a.y as int);
    let pb = hm.position(t.b.x as int, t.b.y as int);
    let pc = hm.position(t.c.x as int, t.c.y as int);
    let (ux, uy, uz) = (pa.x - pb.x, pa.y - pb.y, pa.z - pb.z);
    let (wx, wy, wz) = (pa.x - pc.x, pa.y - pc.y, pa.z - pc.z);
    (uy * wz - uz * wy, uz * wx - ux * wz, ux * wy - uy * wx)
}

pub open spec fn has_corner(t: Triangle, c: Coord) -> bool {
    t.a == c || t.b == c || t.c == c
}

/// The sum of the face normals of the first `n` triangles that have `c` as a corner.
pub open spec fn normal_total(hm: HeightMap, ts: Seq<Triangle>, n: nat, c: Coord) -> (int, int, int)
    decreases n,
{
    if n == 0 || n > ts.len() {
        (0, 0, 0)
    } else {
        let rest = normal_total(hm, ts, (n - 1) as nat, c);
        if has_corner(ts[n - 1], c) {
            let f = face_normal(hm, ts[n - 1]);
            (rest.0 + f.0, rest.1 + f.1, rest.2 + f.2)
        } else {
            rest
        }
    }
}

pub open spec fn triple(v: Vector3) -> (int, int, int) {
    (v.x as int, v.y as int, v.z as int)
}

/// `m` is the mesh of the triangles `ts` over `hm`: one vertex per distinct
/// corner in order of first use, each triangle as the indices of its corners
/// `a`, `b`, `c`, and at each vertex the sum of the face normals around it.
pub open spec fn describes(m: TerrainMeshData, hm: HeightMap, ts: Seq<Triangle>) -> bool {
    let cs = corners(ts);
    let vs = distinct(cs);
    &&& m.vertices@.len() == vs.len()
    &&& m.normals@.len() == vs.len()
    &&& forall|v: int| 0 <= v < vs.len() ==> m.vertices@[v] == hm.position(vs[v].x as int, vs[v].y as int)
    &&& forall|v: int| 0 <= v < vs.len() ==> triple(#[trigger] m.normals@[v]) == normal_total(hm, ts, ts.len(), vs[v])
    &&& m.triangles@.len() == 3 * ts.len()
    &&& forall|j: int|
        0 <= j < m.triangles@.len() ==> (m.triangles@[j] as int) < vs.len() && vs[m.triangles@[j] as int]
            == cs[j]
}

/// The leaves under a triangle of the hierarchy are triangles of the hierarchy,
/// at least one and no more than twice its area.
pub proof fn lemma_leaves(t: Triangle, tile: int, errors: Seq<i64>, max_error: int)
    requires
        t.valid(tile),
    ensures
        1 <= leaves(t, tile, errors, max_error).len() <= t.area2(),
        forall|i: int|
            0 <= i < leaves(t, tile, errors, max_error).len() ==> #[trigger] leaves(t, tile, errors, max_error)[i].valid(tile),
    decreases t.measure(),
{
    let p = t.p();
    let q = t.q();
    assert(p * p + q * q >= 1) by (nonlinear_arith)
        requires p != 0 || q != 0;
    if splits(t, errors, tile + 1, max_error) {
        lemma_children_valid(t, tile);
        lemma_leaves(t.left(), tile, errors, max_error);
        lemma_leaves(t.right(), tile, errors, max_error);
        let l = leaves(t.left(), tile, errors, max_error);
        let r = leaves(t.right(), tile, errors, max_error);
        assert forall|i: int| 0 <= i < (l + r).len() implies #[trigger] (l + r)[i].valid(tile) by {
            if i >= l.len() {
                assert((l + r)[i] == r[i - l.len()]);
            }
        }
    }
}

proof fn lemma_distinct(s: Seq<Coord>)
    ensures
        distinct(s).no_duplicates(),
        distinct(s).len() <= s.len(),
        forall|c: Coord| distinct(s).contains(c) <==> s.contains(c),
    decreases s.len(),
{
    if s.len() > 0 {
        let t = s.drop_last();
        lemma_distinct(t);
        let d = distinct(t);
        let x = s.last();
        assert forall|c: Coord| distinct(s).contains(c) <==> s.contains(c) by {
            if d.contains(c) {
                let j = choose|j: int| 0 <= j < d.len() && d[j] == c;
                if !d.contains(x) {
                    assert(d.push(x)[j] == c);
                }
            }
            if t.contains(c) {
                let j = choose|j: int| 0 <= j < t.len() && t[j] == c;
                assert(s[j] == c);
            }
            if c == x {
                assert(s[s.len() - 1] == c);
                if !d.contains(x) {
                    assert(d.push(x)[d.len() as int] == c);
                }
            }
            if s.contains(c) && c != x {
                let j = choose|j: int| 0 <= j < s.len() && s[j] == c;
                assert(t[j] == c);
            }
            if distinct(s).contains(c) && !d.contains(c) {
                let j = choose|j: int| 0 <= j < distinct(s).len() && distinct(s)[j] == c;
                assert(c == x);
            }
        }
    }
}

proof fn lemma_sweep_len(hm: HeightMap, tile: int, k: nat)
    requires
        tile >= 0,
    ensures
        error_sweep(hm, tile, k).len() == (tile + 1) * (tile + 1),
    decreases k,
{
    assert((tile + 1) * (tile + 1) >= 0) by (nonlinear_arith);
    if k > 0 {
        lemma_sweep_len(hm, tile, (k - 1) as nat);
    }
}

proof fn lemma_cell_range(c: Coord, size: int)
    requires
        c.x < size,
        c.y < size,
    ensures
        0 <= c.cell(size) < size * size,
{
    let (x, y) = (c.x as int, c.y as int);
    assert(0 <= x * size + y < size * size) by (nonlinear_arith)
        requires 0 <= x < size, 0 <= y < size;
}

proof fn lemma_cell_injective(c1: Coord, c2: Coord, size: int)
    requires
        c1.x < size,
        c1.y < size,
        c2.x < size,
        c2.y < size,
        c1.cell(size) == c2.cell(size),
    ensures
        c1 == c2,
{
    let (x1, y1, x2, y2) = (c1.x as int, c1.y as int, c2.x as int, c2.y as int);
    if x1 < x2 {
        assert(x1 * size + y1 < x2 * size + y2) by (nonlinear_arith)
            requires x1 + 1 <= x2, 0 <= y1 < size, 0 <= y2;
    } else if x2 < x1 {
        assert(x2 * size + y2 < x1 * size + y1) by (nonlinear_arith)
            requires x2 + 1 <= x1, 0 <= y2 < size, 0 <= y1;
    }
}

/// The mesh under construction: the table that gives each grid position its
/// vertex number plus one (zero while it has none), and the output so far.
struct TileMeshData {
    indices: IndexGrid,
    vertices: Vec<Point3>,
    normal_sums: Vec<Vector3>,
    triangles: Vec<u32>,
    coords: Ghost<Seq<Coord>>,
}

impl TileMeshData {
    /// The table and the vertices agree with the grid positions in `coords`.
    spec fn consistent(&self, hm: HeightMap, size: int) -> bool {
        let vs = self.coords@;
        &&& index_extent(self.indices) == (size as nat, size as nat)
        &&& index_cells(self.indices).len() == size * size
        &&& vs.no_duplicates()
        &&& self.vertices@.len() == vs.len()
        &&& self.normal_sums@.len() == vs.len()
        &&& forall|v: int|
            0 <= v < vs.len() ==> #[trigger] vs[v].x < size && vs[v].y < size && self.vertices@[v]
                == hm.position(vs[v].x as int, vs[v].y as int) && index_cells(self.indices)[vs[v].cell(size)] == v
                + 1
        &&& forall|k: int|
            0 <= k < size * size ==> #[trigger] index_cells(self.indices)[k] == 0 || (1 <= index_cells(self.indices)[k]
                <= vs.len() && vs[index_cells(self.indices)[k] - 1].cell(size) == k)
    }

    /// The first `i` triangles of `ts` have been emitted.
    spec fn emitted(&self, hm: HeightMap, ts: Seq<Triangle>, i: nat) -> bool {
        let cs = corners(ts);
        let vs = self.coords@;
        &&& vs == distinct(cs.take(3 * i as int))
        &&& self.triangles@.len() == 3 * i
        &&& forall|j: int|
            0 <= j < 3 * i ==> (#[trigger] self.triangles@[j] as int) < vs.len() && vs[self.triangles@[j] as int] == cs[j]
        &&& forall|v: int|
            0 <= v < vs.len() ==> triple(#[trigger] self.normal_sums@[v]) == normal_total(hm, ts, i, vs[v])
    }
}

impl Tile {
    /// Appends the triangles of the mesh under `t`, splitting where the error
    /// at the midpoint exceeds `max_error`.
    fn collect_leaves(&self, t: Triangle, max_error: i32, out: &mut Vec<Triangle>)
        requires
            self.wf(),
            t.valid(self.tile()),
        ensures
            final(out)@ == old(out)@ + leaves(t, self.tile(), self.errors_spec(), max_error as int),
        decreases t.measure(),
    {
        if t.not_leaf() && self.errors.get(t.midpoint().idx()) > 2 * (max_error as i64) {
            proof {
                lemma_children_valid(t, self.tile());
            }
            self.collect_leaves(t.to_left_child(), max_error, out);
            self.collect_leaves(t.to_right_child(), max_error, out);
            proof {
                assert(out@ =~= old(out)@ + leaves(t, self.tile(), self.errors_spec(), max_error as int));
            }
        } else {
            out.push(t);
        }
    }
}

impl Tile {
    /// The vertex number of grid position `c`, adding a vertex for it when it
    /// has none yet.
    fn vertex_index(&self, d: &mut TileMeshData, c: Coord) -> (r: usize)
        requires
            self.wf(),
            old(d).consistent(self.terrain_spec(), self.tile() + 1),
            old(d).coords@.len() < 0x7000_0000,
            c.within(self.tile()),
        ensures
            final(d).consistent(self.terrain_spec(), self.tile() + 1),
            final(d).coords@ == if old(d).coords@.contains(c) {
                old(d).coords@
            } else {
                old(d).coords@.push(c)
            },
            r < final(d).coords@.len(),
            final(d).coords@[r as int] == c,
            final(d).triangles@ == old(d).triangles@,
            forall|v: int|
                0 <= v < old(d).coords@.len() ==> final(d).normal_sums@[v] == old(d).normal_sums@[v],
            !old(d).coords@.contains(c) ==> triple(final(d).normal_sums@[old(d).coords@.len() as int])
                == (0int, 0int, 0int),
    {
        let size = self.terrain.dim().0;
        let ghost cell = c.cell(size as int);
        proof {
            lemma_cell_range(c, size as int);
        }
        let k = d.indices.get(c.idx());
        if k != 0 {
            proof {
                lemma_cell_injective(d.coords@[k - 1], c, size as int);
                assert(d.coords@.contains(c));
            }
            k - 1
        } else {
            let ghost vs = d.coords@;
            proof {
                if vs.contains(c) {
                    let v = choose|v: int| 0 <= v < vs.len() && vs[v] == c;
                    assert(index_cells(d.indices)[vs[v].cell(size as int)] == v + 1);
                }
            }
            let n = d.vertices.len();
            let p = self.terrain.vertex_at(c.x, c.y);
            d.vertices.push(p);
            d.normal_sums.push(Vector3 { x: 0, y: 0, z: 0 });
            d.indices.set(c.idx(), n + 1);
            d.coords = Ghost(vs.push(c));
            proof {
                let hm = self.terrain_spec();
                let nvs = d.coords@;
                assert forall|v: int| 0 <= v < nvs.len() implies #[trigger] nvs[v].x < size && nvs[v].y
                    < size && d.vertices@[v] == hm.position(nvs[v].x as int, nvs[v].y as int)
                    && index_cells(d.indices)[nvs[v].cell(size as int)] == v + 1 by {
                    lemma_cell_range(nvs[v], size as int);
                    if v < vs.len() {
                        if vs[v].cell(size as int) == cell {
                            lemma_cell_injective(vs[v], c, size as int);
                            assert(vs.contains(c));
                        }
                    }
                }
                assert forall|k: int| 0 <= k < size * size implies #[trigger] index_cells(d.indices)[k] == 0 || (1
                    <= index_cells(d.indices)[k] <= nvs.len() && nvs[index_cells(d.indices)[k] - 1].cell(size as int) == k) by {
                    if k != cell {
                        assert(index_cells(d.indices)[k] == index_cells(old(d).indices)[k]);
                    }
                }
            }
            n
        }
    }
}

/// A bound on each component of a face normal.
pub open spec fn face_bound() -> int {
    0x10_0000_0000_0000_0000
}

proof fn lemma_product_bound(a: int, b: int)
    requires
        -0x2_0000_0000 <= a <= 0x2_0000_0000,
        -0x2_0000_0000 <= b <= 0x2_0000_0000,
    ensures
        -0x4_0000_0000_0000_0000 <= a * b <= 0x4_0000_0000_0000_0000,
{
    if a >= 0 && b >= 0 {
        assert(a * b <= 0x2_0000_0000 * 0x2_0000_0000) by (nonlinear_arith)
            requires 0 <= a <= 0x2_0000_0000, 0 <= b <= 0x2_0000_0000;
        assert(a * b >= 0) by (nonlinear_arith) requires a >= 0, b >= 0;
    } else if a >= 0 {
        assert((-b) * a <= 0x2_0000_0000 * 0x2_0000_0000) by (nonlinear_arith)
            requires 0 <= a <= 0x2_0000_0000, 0 <= -b <= 0x2_0000_0000;
        assert((-b) * a >= 0) by (nonlinear_arith) requires a >= 0, -b >= 0;
        assert(a * b == -((-b) * a)) by (nonlinear_arith);
    } else if b >= 0 {
        assert((-a) * b <= 0x2_0000_0000 * 0x2_0000_0000) by (nonlinear_arith)
            requires 0 <= -a <= 0x2_0000_0000, 0 <= b <= 0x2_0000_0000;
        assert((-a) * b >= 0) by (nonlinear_arith) requires -a >= 0, b >= 0;
        assert(a * b == -((-a) * b)) by (nonlinear_arith);
    } else {
        assert((-a) * (-b) <= 0x2_0000_0000 * 0x2_0000_0000) by (nonlinear_arith)
            requires 0 <= -a <= 0x2_0000_0000, 0 <= -b <= 0x2_0000_0000;
        assert((-a) * (-b) >= 0) by (nonlinear_arith) requires -a >= 0, -b >= 0;
        assert(a * b == (-a) * (-b)) by (nonlinear_arith);
    }
}

/// The positions of a heightfield that can be meshed fit comfortably in 32 bits.
proof fn lemma_position_bound(hm: HeightMap, c: Coord)
    requires
        hm.wf(),
        meshable(hm),
        c.within(hm.width() - 1),
    ensures
        -0x4000_0000 <= hm.position(c.x as int, c.y as int).x <= 0x4000_0000,
        -0x1_0000_0000 <= hm.position(c.x as int, c.y as int).y <= 0x1_0000_0000,
        -0x4000_0000 <= hm.position(c.x as int, c.y as int).z <= 0x4000_0000,
{
    hm.lemma_elevation_bounds(c.x as int, c.y as int);
}

proof fn lemma_face_bound(hm: HeightMap, t: Triangle)
    requires
        hm.wf(),
        meshable(hm),
        t.within(hm.width() - 1),
    ensures
        abs(face_normal(hm, t).0) <= face_bound(),
        abs(face_normal(hm, t).1) <= face_bound(),
        abs(face_normal(hm, t).2) <= face_bound(),
{
    lemma_position_bound(hm, t.a);
    lemma_position_bound(hm, t.b);
    lemma_position_bound(hm, t.c);
    let pa = hm.position(t.a.x as int, t.a.y as int);
    let pb = hm.position(t.b.x as int, t.b.y as int);
    let pc = hm.position(t.c.x as int, t.c.y as int);
    let (ux, uy, uz) = (pa.x - pb.x, pa.y - pb.y, pa.z - pb.z);
    let (wx, wy, wz) = (pa.x - pc.x, pa.y - pc.y, pa.z - pc.z);
    lemma_product_bound(uy, wz);
    lemma_product_bound(uz, wy);
    lemma_product_bound(uz, wx);
    lemma_product_bound(ux, wz);
    lemma_product_bound(ux, wy);
    lemma_product_bound(uy, wx);
}

proof fn lemma_total_bound(hm: HeightMap, ts: Seq<Triangle>, n: nat, c: Coord)
    requires
        hm.wf(),
        meshable(hm),
        n <= ts.len(),
        forall|j: int| 0 <= j < ts.len() ==> #[trigger] ts[j].within(hm.width() - 1),
    ensures
        abs(normal_total(hm, ts, n, c).0) <= n * face_bound(),
        abs(normal_total(hm, ts, n, c).1) <= n * face_bound(),
        abs(normal_total(hm, ts, n, c).2) <= n * face_bound(),
    decreases n,
{
    if n > 0 {
        lemma_total_bound(hm, ts, (n - 1) as nat, c);
        lemma_face_bound(hm, ts[n - 1]);
    }
}

proof fn lemma_total_zero(hm: HeightMap, ts: Seq<Triangle>, n: nat, c: Coord)
    requires
        n <= ts.len(),
        forall|j: int| 0 <= j < n ==> !has_corner(#[trigger] ts[j], c),
    ensures
        normal_total(hm, ts, n, c) == (0int, 0int, 0int),
    decreases n,
{
    if n > 0 {
        lemma_total_zero(hm, ts, (n - 1) as nat, c);
    }
}

/// A corner of one of the first `i` triangles occurs among their corners.
proof fn lemma_corner_taken(ts: Seq<Triangle>, i: int, n: int, j: int, m: int)
    requires
        0 <= j < i,
        3 * i <= n <= 3 * ts.len(),
        0 <= m < 3,
    ensures
        corners(ts).take(n).contains(ts[j].corner(m)),
{
    let k = 3 * j + m;
    assert(k / 3 == j && k % 3 == m);
    assert(corners(ts).take(n)[k] == ts[j].corner(m));
}

proof fn lemma_distinct_step(s: Seq<Coord>, n: int)
    requires
        0 <= n < s.len(),
    ensures
        distinct(s.take(n + 1)) == if distinct(s.take(n)).contains(s[n]) {
            distinct(s.take(n))
        } else {
            distinct(s.take(n)).push(s[n])
        },
{
    assert(s.take(n + 1).drop_last() =~= s.take(n));
}

impl Tile {
    /// Emits triangle `i` of `ts`: its corners become vertices where they are
    /// not yet, its face normal is added at each corner, and its three vertex
    /// numbers are appended.
    #[verifier::spinoff_prover]
    #[verifier::rlimit(60)]
    fn process_triangle(&self, d: &mut TileMeshData, t: Triangle, ts: Ghost<Seq<Triangle>>, i: Ghost<nat>)
        requires
            self.wf(),
            old(d).consistent(self.terrain_spec(), self.tile() + 1),
            old(d).emitted(self.terrain_spec(), ts@, i@),
            i@ < ts@.len() <= 0x2000_0000,
            ts@[i@ as int] == t,
            forall|j: int| 0 <= j < ts@.len() ==> #[trigger] ts@[j].valid(self.tile()),
        ensures
            final(d).consistent(self.terrain_spec(), self.tile() + 1),
            final(d).emitted(self.terrain_spec(), ts@, i@ + 1),
    {
        let ghost hm = self.terrain_spec();
        let ghost tile = self.tile();
        let ghost cs = corners(ts@);
        let ghost n: int = 3 * i@ as int;
        let ghost old_sums = d.normal_sums@;
        let ghost old_tris = d.triangles@;
        proof {
            assert(ts@[i@ as int].valid(tile));
            lemma_distinct(cs.take(n));
            assert(cs[n] == t.a && cs[n + 1] == t.b && cs[n + 2] == t.c);
        }
        let ghost vs0 = d.coords@;
        let ia = self.vertex_index(d, t.a);
        proof {
            lemma_distinct_step(cs, n);
            assert(cs.take(n + 1)[n] == t.a);
            lemma_distinct(cs.take(n + 1));
        }
        let ghost vs1 = d.coords@;
        let ib = self.vertex_index(d, t.b);
        proof {
            lemma_distinct_step(cs, n + 1);
            lemma_distinct(cs.take(n + 2));
        }
        let ghost vs2 = d.coords@;
        let ic = self.vertex_index(d, t.c);
        proof {
            lemma_distinct_step(cs, n + 2);
            lemma_distinct(cs.take(n + 3));
        }
        let ghost vs3 = d.coords@;
        let pa = d.vertices[ia];
        let pb = d.vertices[ib];
        let pc = d.vertices[ic];
        proof {
            assert(vs3[ia as int] == t.a && vs3[ib as int] == t.b && vs3[ic as int] == t.c);
            assert(pa == hm.position(t.a.x as int, t.a.y as int));
            assert(pb == hm.position(t.b.x as int, t.b.y as int));
            assert(pc == hm.position(t.c.x as int, t.c.y as int));
            lemma_position_bound(hm, t.a);
            lemma_position_bound(hm, t.b);
            lemma_position_bound(hm, t.c);
            lemma_face_bound(hm, t);
            let pa = hm.position(t.a.x as int, t.a.y as int);
            let pb = hm.position(t.b.x as int, t.b.y as int);
            let pc = hm.position(t.c.x as int, t.c.y as int);
            lemma_product_bound(pa.y - pb.y, pa.z - pc.z);
            lemma_product_bound(pa.z - pb.z, pa.y - pc.y);
            lemma_product_bound(pa.z - pb.z, pa.x - pc.x);
            lemma_product_bound(pa.x - pb.x, pa.z - pc.z);
            lemma_product_bound(pa.x - pb.x, pa.y - pc.y);
            lemma_product_bound(pa.y - pb.y, pa.x - pc.x);
        }
        let (ux, uy, uz) = (
            pa.x as i128 - pb.x as i128,
            pa.y as i128 - pb.y as i128,
            pa.z as i128 - pb.z as i128,
        );
        let (wx, wy, wz) = (
            pa.x as i128 - pc.x as i128,
            pa.y as i128 - pc.y as i128,
            pa.z as i128 - pc.z as i128,
        );
        let normal = Vector3 { x: uy * wz - uz * wy, y: uz * wx - ux * wz, z: ux * wy - uy * wx };
        proof {
            assert(triple(normal) == face_normal(hm, t));
            // the sums before this triangle: old ones carried over, new ones zero
            assert forall|v: int| 0 <= v < vs3.len() implies triple(#[trigger] d.normal_sums@[v])
                == normal_total(hm, ts@, i@, vs3[v]) by {
                if v >= vs0.len() {
                    assert forall|j: int| 0 <= j < i@ implies !has_corner(#[trigger] ts@[j], vs3[v]) by {
                        if has_corner(ts@[j], vs3[v]) {
                            let m: int = if ts@[j].a == vs3[v] { 0 } else if ts@[j].b == vs3[v] { 1 } else { 2 };
                            lemma_corner_taken(ts@, i@ as int, n, j, m);
                            assert(vs0.contains(vs3[v]));
                            let w = choose|w: int| 0 <= w < vs0.len() && vs0[w] == vs3[v];
                            assert(vs3[w] == vs3[v]);
                        }
                    }
                    lemma_total_zero(hm, ts@, i@, vs3[v]);
                }
            }
            assert forall|j: int| 0 <= j < ts@.len() implies #[trigger] ts@[j].within(hm.width() - 1) by {
                assert(ts@[j].valid(tile));
            }
            lemma_total_bound(hm, ts@, i@, t.a);
            lemma_total_bound(hm, ts@, i@, t.b);
            lemma_total_bound(hm, ts@, i@, t.c);
            assert(i@ * face_bound() <= 0x2000_0000 * face_bound()) by (nonlinear_arith)
                requires i@ <= 0x2000_0000;
            assert(t.a != t.b && t.b != t.c && t.a != t.c);
        }
        let sa = d.normal_sums[ia];
        d.normal_sums.set(ia, Vector3 { x: sa.x + normal.x, y: sa.y + normal.y, z: sa.z + normal.z });
        let sb = d.normal_sums[ib];
        d.normal_sums.set(ib, Vector3 { x: sb.x + normal.x, y: sb.y + normal.y, z: sb.z + normal.z });
        let sc = d.normal_sums[ic];
        d.normal_sums.set(ic, Vector3 { x: sc.x + normal.x, y: sc.y + normal.y, z: sc.z + normal.z });
        proof {
            assert(ia < 0x8000_0000 && ib < 0x8000_0000 && ic < 0x8000_0000);
        }
        d.triangles.push(ia as u32);
        d.triangles.push(ib as u32);
        d.triangles.push(ic as u32);
        proof {
            let vs = d.coords@;
            assert(cs.take(n + 3).len() == n + 3);
            assert forall|v: int| 0 <= v < vs.len() implies triple(#[trigger] d.normal_sums@[v])
                == normal_total(hm, ts@, i@ + 1, vs[v]) by {
                if vs[v] == t.a {
                    assert(v == ia);
                } else if vs[v] == t.b {
                    assert(v == ib);
                } else if vs[v] == t.c {
                    assert(v == ic);
                }
            }
            assert forall|j: int| 0 <= j < 3 * (i@ + 1) implies (#[trigger] d.triangles@[j] as int)
                < vs.len() && vs[d.triangles@[j] as int] == cs[j] by {
                if j < n {
                    assert(d.triangles@[j] == old_tris[j]);
                }
            }
        }
    }
}

/// The two roots are triangles of the hierarchy.
pub proof fn lemma_roots_valid(tile: int)
    requires
        valid_tile(tile),
    ensures
        bottom_left_spec(tile).valid(tile),
        top_right_spec(tile).valid(tile),
        bottom_left_spec(tile).area2() == tile * tile,
        top_right_spec(tile).area2() == tile * tile,
{
    assert((-tile) * (-tile) == tile * tile) by (nonlinear_arith);
}

impl Tile {
    /// The mesh whose triangles split wherever the error at a midpoint
    /// exceeds `max_error`.
    pub fn get_mesh(&self, max_error: i32) -> (r: TerrainMeshData)
        requires
            self.wf(),
        ensures
            r.valid(),
            describes(
                r,
                self.terrain_spec(),
                mesh_leaves(self.tile(), self.errors_spec(), max_error as int),
            ),
    {
        let size = self.terrain.dim().0;
        let tile = size - 1;
        let ghost hm = self.terrain_spec();
        let mut ts: Vec<Triangle> = Vec::new();
        let bl = bottom_left_root(tile);
        let tr = top_right_root(tile);
        proof {
            lemma_roots_valid(tile as int);
        }
        self.collect_leaves(bl, max_error, &mut ts);
        self.collect_leaves(tr, max_error, &mut ts);
        proof {
            let e = self.errors_spec();
            let m = max_error as int;
            lemma_leaves(bl, tile as int, e, m);
            lemma_leaves(tr, tile as int, e, m);
            assert(ts@ =~= mesh_leaves(tile as int, e, m));
            let l = leaves(bl, tile as int, e, m);
            let r = leaves(tr, tile as int, e, m);
            assert forall|j: int| 0 <= j < ts@.len() implies #[trigger] ts@[j].valid(tile as int) by {
                if j >= l.len() {
                    assert(ts@[j] == r[j - l.len()]);
                }
            }
            assert(tile * tile <= MAX_TILE_SIZE * MAX_TILE_SIZE) by (nonlinear_arith)
                requires tile <= MAX_TILE_SIZE;
            lemma_sweep_len(hm, tile as int, (2 * tile * tile - 2) as nat);
        }
        assert(size * size <= (MAX_TILE_SIZE + 1) * (MAX_TILE_SIZE + 1)) by (nonlinear_arith)
            requires size <= MAX_TILE_SIZE + 1;
        let mut d = TileMeshData {
            indices: IndexGrid::zeros(size, size),
            vertices: Vec::new(),
            normal_sums: Vec::new(),
            triangles: Vec::new(),
            coords: Ghost(Seq::empty()),
        };
        proof {
            assert(corners(ts@).take(0) =~= Seq::<Coord>::empty());
        }
        let mut i: usize = 0;
        while i < ts.len()
            invariant
                self.wf(),
                size == self.tile() + 1,
                i <= ts@.len() <= 0x2000_0000,
                forall|j: int| 0 <= j < ts@.len() ==> #[trigger] ts@[j].valid(self.tile()),
                d.consistent(hm, size as int),
                d.emitted(hm, ts@, i as nat),
                hm == self.terrain_spec(),
            decreases ts@.len() - i,
        {
            self.process_triangle(&mut d, ts[i], Ghost(ts@), Ghost(i as nat));
            i = i + 1;
        }
        proof {
            assert(corners(ts@).take(3 * ts@.len() as int) =~= corners(ts@));
        }
        TerrainMeshData { vertices: d.vertices, triangles: d.triangles, normals: d.normal_sums }
    }
}

/// The adaptive mesh of `terrain`: the triangles of the hierarchy split
/// wherever the error at a midpoint exceeds `max_error`. Fails when the
/// terrain is not square with a side of `2^k + 1`.
pub fn heightmap_to_rtin_mesh(terrain: HeightMap, max_error: i32) -> (r: Result<TerrainMeshData, MeshError>)
    requires
        terrain.wf(),
    ensures
        meshable(terrain) <==> r is Ok,
        r is Err ==> r->Err_0 == MeshError::InvalidDimensions,
        r is Ok ==> r->Ok_0.valid() && describes(
            r->Ok_0,
            terrain,
            mesh_leaves(
                terrain.width() - 1,
                error_field(terrain, terrain.width() - 1),
                max_error as int,
            ),
        ),
{
    match Tile::new(terrain) {
        Ok(tile) => Ok(tile.get_mesh(max_error)),
        Err(e) => Err(e),
    }
}

proof fn lemma_full_leaves(t: Triangle, tile: int, errors: Seq<i64>, max_error: int)
    requires
        valid_tile(tile),
        t.valid(tile),
        errors.len() == (tile + 1) * (tile + 1),
        forall|k: int| 0 <= k < errors.len() ==> #[trigger] errors[k] > 2 * max_error,
    ensures
        leaves(t, tile, errors, max_error).len() == t.area2(),
    decreases t.measure(),
{
    lemma_cell_range(t.mid(), tile + 1);
    if t.is_leaf() {
        let p = t.p();
        let q = t.q();
        if p == 0 {
            assert(q == 1 || q == -1);
            assert(q * q == 1) by (nonlinear_arith) requires q == 1 || q == -1;
        } else {
            assert(q == 0);
            assert(p == 1 || p == -1);
            assert(p * p == 1) by (nonlinear_arith) requires p == 1 || p == -1;
        }
        assert(t.area2() == 1);
        assert(!splits(t, errors, tile + 1, max_error));
        assert(leaves(t, tile, errors, max_error) == seq![t]);
    } else {
        lemma_children_valid(t, tile);
        lemma_full_leaves(t.left(), tile, errors, max_error);
        lemma_full_leaves(t.right(), tile, errors, max_error);
        assert(splits(t, errors, tile + 1, max_error));
        assert(leaves(t, tile, errors, max_error) == leaves(t.left(), tile, errors, max_error) + leaves(
            t.right(),
            tile,
            errors,
            max_error,
        ));
    }
}

/// With a negative tolerance every triangle is split down to the leaves: the
/// mesh has two triangles in every cell of the grid.
pub proof fn lemma_full_resolution(terrain: HeightMap, max_error: i32, mesh: TerrainMeshData)
    requires
        terrain.wf(),
        meshable(terrain),
        max_error < 0,
        describes(
            mesh,
            terrain,
            mesh_leaves(
                terrain.width() - 1,
                error_field(terrain, terrain.width() - 1),
                max_error as int,
            ),
        ),
    ensures
        mesh.triangles@.len() == 6 * (terrain.width() - 1) * (terrain.width() - 1),
{
    let tile = terrain.width() - 1;
    let e = error_field(terrain, tile);
    assert(tile * tile <= MAX_TILE_SIZE * MAX_TILE_SIZE) by (nonlinear_arith)
        requires tile <= MAX_TILE_SIZE, tile >= 0;
    lemma_sweep_len(terrain, tile, (2 * tile * tile - 2) as nat);
    lemma_errors_nonneg(terrain, tile, (2 * tile * tile - 2) as nat);
    lemma_roots_valid(tile);
    lemma_full_leaves(bottom_left_spec(tile), tile, e, max_error as int);
    lemma_full_leaves(top_right_spec(tile), tile, e, max_error as int);
    assert(3 * (2 * (tile * tile)) == 6 * tile * tile) by (nonlinear_arith);
}

proof fn lemma_deviation_bound(hm: HeightMap, t: Triangle)
    ensures
        0 <= deviation(hm, t) <= 0x4_0000_0000,
{
    hm.lemma_elevations_i32(t.a.x as int, t.a.y as int);
    hm.lemma_elevations_i32(t.b.x as int, t.b.y as int);
    hm.lemma_elevations_i32(t.mid().x as int, t.mid().y as int);
}

proof fn lemma_errors_nonneg(hm: HeightMap, tile: int, k: nat)
    ensures
        forall|i: int| 0 <= i < error_sweep(hm, tile, k).len() ==> #[trigger] error_sweep(hm, tile, k)[i] >= 0,
    decreases k,
{
    if k > 0 {
        lemma_errors_nonneg(hm, tile, (k - 1) as nat);
        let id = 2 * tile * tile - k;
        let t = tri_of_id(id as nat, tile);
        lemma_deviation_bound(hm, t);
        let e = error_sweep(hm, tile, (k - 1) as nat);
        let m = t.mid().cell(tile + 1);
        if 0 <= m < e.len() {
            assert(e[m] >= 0);
            let l = e[t.left().mid().cell(tile + 1)] as int;
            let r = e[t.right().mid().cell(tile + 1)] as int;
            assert(l <= i64::MAX && r <= i64::MAX);
        }
    }
}

/// With a tolerance no smaller than any error, nothing is split: the mesh is
/// the two root triangles over the four corners of the grid.
pub proof fn lemma_coarsest_mesh(terrain: HeightMap, max_error: i32, mesh: TerrainMeshData)
    requires
        terrain.wf(),
        meshable(terrain),
        forall|k: int|
            0 <= k < error_field(terrain, terrain.width() - 1).len() ==> #[trigger] error_field(
                terrain,
                terrain.width() - 1,
            )[k] <= 2 * max_error,
        describes(
            mesh,
            terrain,
            mesh_leaves(
                terrain.width() - 1,
                error_field(terrain, terrain.width() - 1),
                max_error as int,
            ),
        ),
    ensures
        mesh.triangles@.len() == 6,
        mesh.vertices@.len() == 4,
{
    let tile = terrain.width() - 1;
    let e = error_field(terrain, tile);
    let bl = bottom_left_spec(tile);
    let tr = top_right_spec(tile);
    assert(tile * tile <= MAX_TILE_SIZE * MAX_TILE_SIZE) by (nonlinear_arith)
        requires tile <= MAX_TILE_SIZE, tile >= 0;
    lemma_sweep_len(terrain, tile, (2 * tile * tile - 2) as nat);
    lemma_roots_valid(tile);
    lemma_cell_range(bl.mid(), tile + 1);
    lemma_cell_range(tr.mid(), tile + 1);
    assert(leaves(bl, tile, e, max_error as int) == seq![bl]);
    assert(leaves(tr, tile, e, max_error as int) == seq![tr]);
    let ts = mesh_leaves(tile, e, max_error as int);
    assert(ts =~= seq![bl, tr]);
    let cs = corners(ts);
    let o = Coord { x: 0, y: 0 };
    let f = Coord { x: tile as usize, y: tile as usize };
    let r = Coord { x: tile as usize, y: 0 };
    let u = Coord { x: 0, y: tile as usize };
    assert(cs[0] == o && cs[1] == f && cs[2] == r && cs[3] == f && cs[4] == o && cs[5] == u);
    assert(cs.take(0) =~= Seq::<Coord>::empty());
    lemma_distinct_step(cs, 0);
    assert(distinct(cs.take(1)) =~= seq![o]);
    lemma_distinct_step(cs, 1);
    assert(!seq![o].contains(f)) by {
        assert(seq![o][0] != f);
    }
    assert(distinct(cs.take(2)) =~= seq![o, f]);
    lemma_distinct_step(cs, 2);
    assert(!seq![o, f].contains(r)) by {
        assert(seq![o, f][0] != r && seq![o, f][1] != r);
    }
    assert(distinct(cs.take(3)) =~= seq![o, f, r]);
    lemma_distinct_step(cs, 3);
    assert(seq![o, f, r][1] == f);
    assert(distinct(cs.take(4)) =~= seq![o, f, r]);
    lemma_distinct_step(cs, 4);
    assert(seq![o, f, r][0] == o);
    assert(distinct(cs.take(5)) =~= seq![o, f, r]);
    lemma_distinct_step(cs, 5);
    assert(!seq![o, f, r].contains(u)) by {
        let s3 = seq![o, f, r];
        assert(s3[0] != u && s3[1] != u && s3[2] != u);
    }
    assert(distinct(cs.take(6)) =~= seq![o, f, r, u]);
    assert(cs.take(6) =~= cs);
}

proof fn lemma_face_up(hm: HeightMap, t: Triangle)
    requires
        hm.wf(),
        meshable(hm),
        t.valid(hm.width() - 1),
    ensures
        face_normal(hm, t).1 > 0,
{
    lemma_position_bound(hm, t.a);
    lemma_position_bound(hm, t.b);
    lemma_position_bound(hm, t.c);
    let p = t.p();
    let q = t.q();
    let f = face_normal(hm, t);
    let pa = hm.position(t.a.x as int, t.a.y as int);
    let pb = hm.position(t.b.x as int, t.b.y as int);
    let pc = hm.position(t.c.x as int, t.c.y as int);
    let (ux, uz) = (pa.x - pb.x, pa.z - pb.z);
    let (wx, wz) = (pa.x - pc.x, pa.z - pc.z);
    assert(ux == 65536 * (p - q) && uz == 65536 * (q + p));
    assert(wx == 65536 * p && wz == 65536 * q);
    assert(uz * wx - ux * wz == 65536 * 65536 * (p * p + q * q)) by (nonlinear_arith)
        requires ux == 65536 * (p - q), uz == 65536 * (q + p), wx == 65536 * p, wz == 65536 * q;
    assert(p * p + q * q > 0) by (nonlinear_arith)
        requires p != 0 || q != 0;
    assert(f.1 == uz * wx - ux * wz);
    assert(uz * wx - ux * wz > 0) by (nonlinear_arith)
        requires uz * wx - ux * wz == 65536 * 65536 * (p * p + q * q), p * p + q * q > 0;
}

proof fn lemma_total_up(hm: HeightMap, ts: Seq<Triangle>, n: nat, c: Coord, j: int)
    requires
        hm.wf(),
        meshable(hm),
        n <= ts.len(),
        forall|i: int| 0 <= i < ts.len() ==> #[trigger] ts[i].valid(hm.width() - 1),
        0 <= j < n,
        has_corner(ts[j], c),
    ensures
        normal_total(hm, ts, n, c).1 > 0,
    decreases n,
{
    lemma_face_up(hm, ts[n - 1]);
    if j < n - 1 {
        lemma_total_up(hm, ts, (n - 1) as nat, c, j);
    } else {
        lemma_total_nonneg(hm, ts, (n - 1) as nat, c);
    }
}

proof fn lemma_total_nonneg(hm: HeightMap, ts: Seq<Triangle>, n: nat, c: Coord)
    requires
        hm.wf(),
        meshable(hm),
        n <= ts.len(),
        forall|i: int| 0 <= i < ts.len() ==> #[trigger] ts[i].valid(hm.width() - 1),
    ensures
        normal_total(hm, ts, n, c).1 >= 0,
    decreases n,
{
    if n > 0 {
        lemma_face_up(hm, ts[n - 1]);
        lemma_total_nonneg(hm, ts, (n - 1) as nat, c);
    }
}

/// Every vertex of an extracted mesh has a normal that points up, so none
/// vanishes and each can be scaled to unit length.
pub proof fn lemma_normals_point_up(terrain: HeightMap, max_error: i32, mesh: TerrainMeshData)
    requires
        terrain.wf(),
        meshable(terrain),
        describes(
            mesh,
            terrain,
            mesh_leaves(
                terrain.width() - 1,
                error_field(terrain, terrain.width() - 1),
                max_error as int,
            ),
        ),
    ensures
        forall|v: int| 0 <= v < mesh.normals@.len() ==> #[trigger] mesh.normals@[v].y > 0,
{
    let tile = terrain.width() - 1;
    let e = error_field(terrain, tile);
    let m = max_error as int;
    let bl = bottom_left_spec(tile);
    let tr = top_right_spec(tile);
    let ts = mesh_leaves(tile, e, m);
    lemma_roots_valid(tile);
    lemma_leaves(bl, tile, e, m);
    lemma_leaves(tr, tile, e, m);
    let l = leaves(bl, tile, e, m);
    assert forall|j: int| 0 <= j < ts.len() implies #[trigger] ts[j].valid(tile) by {
        if j >= l.len() {
            assert(ts[j] == leaves(tr, tile, e, m)[j - l.len()]);
        }
    }
    let cs = corners(ts);
    let vs = distinct(cs);
    lemma_distinct(cs);
    assert forall|v: int| 0 <= v < mesh.normals@.len() implies #[trigger] mesh.normals@[v].y > 0 by {
        assert(vs.contains(vs[v]));
        assert(cs.contains(vs[v]));
        let k = choose|k: int| 0 <= k < cs.len() && cs[k] == vs[v];
        let j = k / 3;
        assert(0 <= k / 3 < ts.len()) by (nonlinear_arith)
            requires 0 <= k < 3 * ts.len();
        assert(cs[k] == ts[j].corner(k % 3));
        assert(has_corner(ts[j], vs[v]));
        lemma_total_up(terrain, ts, ts.len(), vs[v], j);
        assert(triple(mesh.normals@[v]) == normal_total(terrain, ts, ts.len(), vs[v]));
    }
}

} // verus!
