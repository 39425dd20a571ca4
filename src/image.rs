//! A heightfield seen as a greyscale picture.
use vstd::prelude::*;
use vstd::arithmetic::div_mod::lemma_fundamental_div_mod_converse;
use crate::heightmap::{HeightMap, MAX_EXTENT, UNITS_PER_CELL, clamp_spec};

verus! {

/// The grey level of an elevation: `[0, UNITS_PER_CELL]` spread over `[0, 255]`,
/// what lies outside clipped first.
pub open spec fn grey(elevation: int) -> int {
    clamp_spec(elevation, 0, UNITS_PER_CELL as int) * 255 / (UNITS_PER_CELL as int)
}

/// The pixel that byte `j` of the picture of a `width`-wide field belongs to,
/// as `(x, y)`: pixels run along x first, four bytes each.
pub open spec fn pixel_of(j: int, width: int) -> (int, int) {
    ((j / 4) % width, (j / 4) / width)
}

/// The picture of the heightfield: row after row (`y`), pixel after pixel
/// (`x`), four equal bytes holding the grey level of the elevation.
pub fn array_to_pixels(terrain: &HeightMap) -> (r: Vec<u8>)
    requires
        terrain.wf(),
    ensures
        r@.len() == 4 * terrain.width() * terrain.height(),
        forall|j: int|
            0 <= j < r@.len() ==> #[trigger] r@[j] as int == grey(
                terrain.elevation(
                    pixel_of(j, terrain.width() as int).0,
                    pixel_of(j, terrain.width() as int).1,
                ),
            ),
{
    let (w, h) = terrain.dim();
    proof {
        terrain.lemma_extent_bounds();
    }
    let mut bytes: Vec<u8> = Vec::new();
    let mut y: usize = 0;
    while y < h
        invariant
            terrain.wf(),
            w == terrain.width(),
            h == terrain.height(),
            w <= MAX_EXTENT,
            y <= h,
            bytes@.len() == 4 * (y * w),
            forall|j: int|
                0 <= j < bytes@.len() ==> #[trigger] bytes@[j] as int == grey(
                    terrain.elevation(pixel_of(j, w as int).0, pixel_of(j, w as int).1),
                ),
        decreases h - y,
    {
        let mut x: usize = 0;
        while x < w
            invariant
                terrain.wf(),
                w == terrain.width(),
                h == terrain.height(),
                w <= MAX_EXTENT,
                y < h,
                x <= w,
                bytes@.len() == 4 * (y * w + x),
                forall|j: int|
                    0 <= j < bytes@.len() ==> #[trigger] bytes@[j] as int == grey(
                        terrain.elevation(pixel_of(j, w as int).0, pixel_of(j, w as int).1),
                    ),
            decreases w - x,
        {
            let v = terrain.height_at(x, y) as i64;
            let c: i64 = if v < 0 {
                0
            } else if v > UNITS_PER_CELL {
                UNITS_PER_CELL
            } else {
                v
            };
            assert(c * 255 <= UNITS_PER_CELL * 255) by (nonlinear_arith)
                requires c <= UNITS_PER_CELL;
            assert(c * 255 >= 0) by (nonlinear_arith)
                requires c >= 0;
            let g = c * 255 / UNITS_PER_CELL;
            assert(g <= 255) by (nonlinear_arith)
                requires g == c * 255 / (UNITS_PER_CELL as int), 0 <= c * 255 <= UNITS_PER_CELL * 255;
            let ghost p = y * w + x;
            proof {
                lemma_fundamental_div_mod_converse(p, w as int, y as int, x as int);
            }
            let ghost start = bytes@.len();
            bytes.push(g as u8);
            bytes.push(g as u8);
            bytes.push(g as u8);
            bytes.push(g as u8);
            proof {
                assert forall|j: int| 0 <= j < bytes@.len() implies #[trigger] bytes@[j] as int == grey(
                    terrain.elevation(pixel_of(j, w as int).0, pixel_of(j, w as int).1),
                ) by {
                    if j >= start {
                        assert(j / 4 == p);
                    }
                }
            }
            x = x + 1;
        }
        proof {
            assert(y * w + w == (y + 1) * w) by (nonlinear_arith);
        }
        y = y + 1;
    }
    proof {
        assert(4 * (h * w) == 4 * w * h) by (nonlinear_arith);
    }
    bytes
}

} // verus!
