//! The right-triangulated irregular network (RTIN): an implicit binary
//! hierarchy of right triangles over a square grid of side `2^k + 1`, the
//! error of each triangle, and the extraction of an adaptive mesh from it.
use vstd::prelude::*;

verus! {

/// The largest tile (side of the grid less one) that meshing accepts.
pub const MAX_TILE_SIZE: usize = 16384;

/// A position in the grid.
#[derive(Clone, Copy, Debug, PartialEq, Eq, Structural)]
pub struct Coord {
    pub x: usize,
    pub y: usize,
}

/// A right triangle of the hierarchy: `a` and `b` end the hypotenuse, `c` is
/// the corner with the right angle.
#[derive(Clone, Copy, Debug, PartialEq, Eq, Structural)]
pub struct Triangle {
    pub a: Coord,
    pub b: Coord,
    pub c: Coord,
}

pub open spec fn abs(v: int) -> int {
    if v < 0 {
        -v
    } else {
        v
    }
}

pub open spec fn is_pow2(k: int) -> bool
    decreases k,
{
    if k <= 0 {
        false
    } else if k == 1 {
        true
    } else {
        k % 2 == 0 && is_pow2(k / 2)
    }
}

/// A grid of side `tile + 1` that the hierarchy can cover.
pub open spec fn valid_tile(tile: int) -> bool {
    1 <= tile <= MAX_TILE_SIZE && is_pow2(tile)
}

impl Coord {
    pub open spec fn within(self, tile: int) -> bool {
        self.x <= tile && self.y <= tile
    }

    /// The position of this coordinate in a row-major table of side `size`.
    pub open spec fn cell(self, size: int) -> int {
        self.x * size + self.y
    }

    pub open spec fn distance(self, o: Coord) -> int {
        abs(self.x - o.x) + abs(self.y - o.y)
    }

    /// Its index into a grid: `[x, y]`.
    pub fn idx(&self) -> (r: [usize; 2])
        ensures
            r[0] == self.x,
            r[1] == self.y,
    {
        [self.x, self.y]
    }

    /// The number of unit steps along the axes from `self` to `other`.
    pub fn manhattan_distance(&self, other: &Coord) -> (r: usize)
        requires
            self.within(MAX_TILE_SIZE as int),
            other.within(MAX_TILE_SIZE as int),
        ensures
            r == self.distance(*other),
    {
        let dx = if self.x >= other.x {
            self.x - other.x
        } else {
            other.x - self.x
        };
        let dy = if self.y >= other.y {
            self.y - other.y
        } else {
            other.y - self.y
        };
        dx + dy
    }
}

/// The triangle below the diagonal from `(0, 0)` to `(tile, tile)`.
pub open spec fn bottom_left_spec(tile: int) -> Triangle {
    Triangle {
        a: Coord { x: 0, y: 0 },
        b: Coord { x: tile as usize, y: tile as usize },
        c: Coord { x: tile as usize, y: 0 },
    }
}

/// The triangle above the diagonal from `(tile, tile)` to `(0, 0)`.
pub open spec fn top_right_spec(tile: int) -> Triangle {
    Triangle {
        a: Coord { x: tile as usize, y: tile as usize },
        b: Coord { x: 0, y: 0 },
        c: Coord { x: 0, y: tile as usize },
    }
}

/// The root triangle covering the half of the square below its diagonal.
pub fn bottom_left_root(tile_size: usize) -> (r: Triangle)
    ensures
        r == bottom_left_spec(tile_size as int),
{
    Triangle {
        a: Coord { x: 0, y: 0 },
        b: Coord { x: tile_size, y: tile_size },
        c: Coord { x: tile_size, y: 0 },
    }
}

/// The root triangle covering the half of the square above its diagonal.
pub fn top_right_root(tile_size: usize) -> (r: Triangle)
    ensures
        r == top_right_spec(tile_size as int),
{
    Triangle {
        a: Coord { x: tile_size, y: tile_size },
        b: Coord { x: 0, y: 0 },
        c: Coord { x: 0, y: tile_size },
    }
}

impl Triangle {
    /// The leg from the right angle to `a`, along x.
    pub open spec fn p(self) -> int {
        self.a.x - self.c.x
    }

    /// The leg from the right angle to `a`, along y.
    pub open spec fn q(self) -> int {
        self.a.y - self.c.y
    }

    pub open spec fn within(self, tile: int) -> bool {
        self.a.within(tile) && self.b.within(tile) && self.c.within(tile)
    }

    /// A triangle of the hierarchy: inside the grid, `b - c` is `a - c` turned
    /// a quarter, and the legs run along the axes or along the diagonals with a
    /// power-of-two length.
    pub open spec fn valid(self, tile: int) -> bool {
        let p = self.p();
        let q = self.q();
        &&& self.within(tile)
        &&& self.b.x - self.c.x == q
        &&& self.b.y - self.c.y == -p
        &&& ((q == 0 && is_pow2(abs(p))) || (p == 0 && is_pow2(abs(q))) || (abs(p) == abs(q)
            && is_pow2(abs(p))))
    }

    /// The smallest triangles, whose legs are one cell long.
    pub open spec fn is_leaf(self) -> bool {
        self.a.distance(self.c) == 1
    }

    /// Falls by at least a quarter from a triangle to each of its children.
    pub open spec fn measure(self) -> nat {
        let p = abs(self.p());
        let q = abs(self.q());
        (p + q + if p > q {
            p
        } else {
            q
        }) as nat
    }

    /// Twice the area of the triangle, in cells.
    pub open spec fn area2(self) -> int {
        self.p() * self.p() + self.q() * self.q()
    }

    pub open spec fn mid(self) -> Coord {
        Coord {
            x: ((self.a.x + self.b.x) / 2) as usize,
            y: ((self.a.y + self.b.y) / 2) as usize,
        }
    }

    pub open spec fn left(self) -> Triangle {
        Triangle { a: self.c, b: self.a, c: self.mid() }
    }

    pub open spec fn right(self) -> Triangle {
        Triangle { a: self.b, b: self.c, c: self.mid() }
    }

    /// The child picked by one bit of a triangle id: `1` for the left one.
    pub open spec fn child(self, bit: int) -> Triangle {
        if bit == 1 {
            self.left()
        } else {
            self.right()
        }
    }

    pub open spec fn corner(self, k: int) -> Coord {
        if k == 0 {
            self.a
        } else if k == 1 {
            self.b
        } else {
            self.c
        }
    }

    /// The midpoint of the hypotenuse.
    pub fn midpoint(&self) -> (r: Coord)
        requires
            self.within(MAX_TILE_SIZE as int),
        ensures
            r == self.mid(),
    {
        Coord { x: (self.a.x + self.b.x) / 2, y: (self.a.y + self.b.y) / 2 }
    }

    /// The midpoint of the left child's hypotenuse, as an index into a grid.
    pub fn left_child_idx(&self) -> (r: [usize; 2])
        requires
            self.within(MAX_TILE_SIZE as int),
        ensures
            r[0] == self.left().mid().x,
            r[1] == self.left().mid().y,
    {
        [(self.a.x + self.c.x) / 2, (self.a.y + self.c.y) / 2]
    }

    /// The midpoint of the right child's hypotenuse, as an index into a grid.
    pub fn right_child_idx(&self) -> (r: [usize; 2])
        requires
            self.within(MAX_TILE_SIZE as int),
        ensures
            r[0] == self.right().mid().x,
            r[1] == self.right().mid().y,
    {
        [(self.b.x + self.c.x) / 2, (self.b.y + self.c.y) / 2]
    }

    /// Whether the triangle can still be split.
    pub fn not_leaf(&self) -> (r: bool)
        requires
            self.within(MAX_TILE_SIZE as int),
        ensures
            r == !self.is_leaf(),
    {
        self.a.manhattan_distance(&self.c) > 1 || self.a.manhattan_distance(&self.c) == 0
    }

    /// The child whose right angle sits at the midpoint and whose hypotenuse
    /// runs from the old right angle to `a`.
    pub fn to_left_child(self) -> (r: Triangle)
        requires
            self.within(MAX_TILE_SIZE as int),
        ensures
            r == self.left(),
    {
        let m = self.midpoint();
        Triangle { a: self.c, b: self.a, c: m }
    }

    /// The child whose right angle sits at the midpoint and whose hypotenuse
    /// runs from `b` to the old right angle.
    pub fn to_right_child(self) -> (r: Triangle)
        requires
            self.within(MAX_TILE_SIZE as int),
        ensures
            r == self.right(),
    {
        let m = self.midpoint();
        Triangle { a: self.b, b: self.c, c: m }
    }
}

/// A triangle of the hierarchy that is no leaf splits into two triangles of
/// the hierarchy, each with half its area and a smaller measure.
pub proof fn lemma_children_valid(t: Triangle, tile: int)
    requires
        t.valid(tile),
        !t.is_leaf(),
    ensures
        t.left().valid(tile),
        t.right().valid(tile),
        t.left().measure() < t.measure(),
        t.right().measure() < t.measure(),
        2 * t.left().area2() == t.area2(),
        2 * t.right().area2() == t.area2(),
        (t.a.x + t.b.x) % 2 == 0,
        (t.a.y + t.b.y) % 2 == 0,
{
    let p = t.p();
    let q = t.q();
    if q == 0 && is_pow2(abs(p)) {
        assert(abs(p) != 1);
        assert(is_pow2(abs(p) / 2));
    } else if p == 0 && is_pow2(abs(q)) {
        assert(abs(q) != 1);
        assert(is_pow2(abs(q) / 2));
    } else {
        assert(abs(p) == abs(q));
    }
    let l = t.left();
    let r = t.right();
    assert(l.p() == -(p + q) / 2);
    assert(l.q() == (p - q) / 2);
    assert(r.p() == (q - p) / 2);
    assert(r.q() == -(p + q) / 2);
    let lp = l.p();
    let lq = l.q();
    let rp = r.p();
    let rq = r.q();
    assert(2 * (lp * lp + lq * lq) == p * p + q * q) by (nonlinear_arith)
        requires 2 * lp == -(p + q), 2 * lq == p - q;
    assert(2 * (rp * rp + rq * rq) == p * p + q * q) by (nonlinear_arith)
        requires 2 * rp == q - p, 2 * rq == -(p + q);
}

/// The triangle that the bits of `path` reach from `t`, lowest bit first, up to
/// its highest set bit.
pub open spec fn descend(t: Triangle, path: nat) -> Triangle
    decreases path,
{
    if path / 2 <= 1 {
        t
    } else {
        descend(t.child(((path / 2) % 2) as int), path / 2)
    }
}

/// The triangle with the given id: the lowest bit picks the root, the bits
/// above it the path down from that root.
pub open spec fn tri_of_id(id: nat, tile: int) -> Triangle {
    let root = if id % 2 == 1 {
        bottom_left_spec(tile)
    } else {
        top_right_spec(tile)
    };
    descend(root, id)
}

impl Triangle {
    /// The triangle with id `id` in the hierarchy over a tile of `tile_size` cells.
    pub fn from_id(id: usize, tile_size: usize) -> (r: Triangle)
        requires
            tile_size <= MAX_TILE_SIZE,
        ensures
            r == tri_of_id(id as nat, tile_size as int),
            r.within(tile_size as int),
    {
        let mut tri = if id % 2 == 1 {
            bottom_left_root(tile_size)
        } else {
            top_right_root(tile_size)
        };
        let mut cur = id;
        while cur / 2 > 1
            invariant
                tile_size <= MAX_TILE_SIZE,
                tri.within(tile_size as int),
                descend(tri, cur as nat) == tri_of_id(id as nat, tile_size as int),
            decreases cur,
        {
            cur = cur / 2;
            tri = if cur % 2 == 1 {
                tri.to_left_child()
            } else {
                tri.to_right_child()
            };
        }
        tri
    }
}

} // verus!
