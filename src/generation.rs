//! Terrain from layered noise, and the adjustments made to a heightfield
//! before it is meshed.
use vstd::prelude::*;
use crate::heightmap::{HeightMap, MAX_EXTENT, UNITS_PER_CELL, clamp_spec};

verus! {

/// The number of noise layers summed into a terrain.
pub const OCTAVES: usize = 8;

/// The sample value that stands for a noise value of one.
pub const NOISE_ONE: i32 = 32768;

/// The weight of octave `o`, scaled so that the finest weight is one:
/// octave `o` counts half as much as octave `o - 1`.
pub open spec fn octave_weight(o: int) -> int
    decreases o,
{
    if o <= 0 {
        128
    } else {
        octave_weight(o - 1) / 2
    }
}

/// The weighted sum of the first `n` octaves at sample `k`.
pub open spec fn octave_sum(octaves: Seq<Vec<i32>>, k: int, n: int) -> int
    decreases n,
{
    if n <= 0 {
        0
    } else {
        octave_sum(octaves, k, n - 1) + octave_weight(n - 1) * octaves[n - 1]@[k]
    }
}

/// The largest magnitude of a weighted sum: every octave at one.
pub open spec fn max_magnitude() -> int {
    255 * NOISE_ONE
}

/// A weighted sum taken from `[-max, max]` to `[0, 1]`, in elevation units.
pub open spec fn normalized(sum: int) -> int {
    (sum + max_magnitude()) * UNITS_PER_CELL / (2 * max_magnitude())
}

/// Samples of the octaves of a `width` by `height` terrain: `OCTAVES` layers,
/// each with the sample of `(x, y)` at `x * height + y`, each in
/// `[-NOISE_ONE, NOISE_ONE]`.
pub open spec fn valid_octaves(octaves: Seq<Vec<i32>>, width: int, height: int) -> bool {
    &&& octaves.len() == OCTAVES
    &&& forall|o: int|
        0 <= o < OCTAVES ==> (#[trigger] octaves[o])@.len() == width * height && forall|k: int|
            0 <= k < width * height ==> -NOISE_ONE <= #[trigger] octaves[o]@[k] <= NOISE_ONE
}

/// `hm` is the terrain built from `octaves`.
pub open spec fn generated(hm: HeightMap, width: int, height: int, octaves: Seq<Vec<i32>>) -> bool {
    &&& hm.wf()
    &&& hm.width() == width
    &&& hm.height() == height
    &&& forall|x: int, y: int|
        hm.in_bounds(x, y) ==> #[trigger] hm.elevation(x, y) == normalized(
            octave_sum(octaves, x * height + y, OCTAVES as int),
        )
}

/// The sum of the weights of the first `n` octaves.
pub open spec fn weight_total(n: int) -> int
    decreases n,
{
    if n <= 0 {
        0
    } else {
        weight_total(n - 1) + octave_weight(n - 1)
    }
}

proof fn lemma_octave_weights()
    ensures
        forall|o: int| 0 <= o < OCTAVES ==> 1 <= #[trigger] octave_weight(o) <= 128,
        forall|n: int| 0 <= n <= OCTAVES ==> 0 <= #[trigger] weight_total(n) <= 255,
        weight_total(OCTAVES as int) == 255,
{
    assert(octave_weight(0) == 128);
    assert(octave_weight(1) == 64);
    assert(octave_weight(2) == 32);
    assert(octave_weight(3) == 16);
    assert(octave_weight(4) == 8);
    assert(octave_weight(5) == 4);
    assert(octave_weight(6) == 2);
    assert(octave_weight(7) == 1);
    assert(weight_total(0) == 0);
    assert(weight_total(1) == 128);
    assert(weight_total(2) == 192);
    assert(weight_total(3) == 224);
    assert(weight_total(4) == 240);
    assert(weight_total(5) == 248);
    assert(weight_total(6) == 252);
    assert(weight_total(7) == 254);
    assert(weight_total(8) == 255);
}

proof fn lemma_octave_sum_bound(octaves: Seq<Vec<i32>>, width: int, height: int, k: int, n: int)
    requires
        valid_octaves(octaves, width, height),
        0 <= k < width * height,
        0 <= n <= OCTAVES,
    ensures
        -NOISE_ONE * weight_total(n) <= octave_sum(octaves, k, n) <= NOISE_ONE * weight_total(n),
    decreases n,
{
    if n > 0 {
        lemma_octave_sum_bound(octaves, width, height, k, n - 1);
        lemma_octave_weights();
        let w = octave_weight(n - 1);
        let s = octaves[n - 1]@[k] as int;
        assert(-NOISE_ONE * w <= w * s <= NOISE_ONE * w) by (nonlinear_arith)
            requires -NOISE_ONE <= s <= NOISE_ONE, w >= 0;
    }
}

/// The elevation of a terrain sample from its weighted sum, in `[0, UNITS_PER_CELL]`.
fn normalize_sum(sum: i64) -> (r: i32)
    requires
        -max_magnitude() <= sum <= max_magnitude(),
    ensures
        r == normalized(sum as int),
        0 <= r <= UNITS_PER_CELL,
{
    let shifted: i64 = sum + 255 * NOISE_ONE as i64;
    assert(shifted * UNITS_PER_CELL <= 2 * max_magnitude() * UNITS_PER_CELL) by (nonlinear_arith)
        requires shifted <= 2 * max_magnitude();
    assert(shifted * UNITS_PER_CELL >= 0) by (nonlinear_arith)
        requires shifted >= 0;
    let r = shifted * UNITS_PER_CELL / (2 * 255 * NOISE_ONE as i64);
    assert(r <= UNITS_PER_CELL) by (nonlinear_arith)
        requires r == shifted * UNITS_PER_CELL / (2 * max_magnitude()), shifted <= 2 * max_magnitude();
    r as i32
}

/// The terrain of `width` by `height` samples whose elevation at `(x, y)` is
/// the weighted sum of the octaves there, taken from `[-max, max]` to `[0, 1]`
/// (one cell's worth of elevation units). The result depends on the samples
/// alone.
pub fn terrain_from_octaves(width: usize, height: usize, octaves: &Vec<Vec<i32>>) -> (r: HeightMap)
    requires
        width <= MAX_EXTENT,
        height <= MAX_EXTENT,
        valid_octaves(octaves@, width as int, height as int),
    ensures
        generated(r, width as int, height as int, octaves@),
        forall|x: int, y: int| r.in_bounds(x, y) ==> 0 <= #[trigger] r.elevation(x, y) <= UNITS_PER_CELL,
{
    let mut hm = HeightMap::new(width, height);
    let mut x: usize = 0;
    while x < width
        invariant
            hm.wf(),
            hm.width() == width,
            hm.height() == height,
            width <= MAX_EXTENT,
            height <= MAX_EXTENT,
            x <= width,
            valid_octaves(octaves@, width as int, height as int),
            forall|i: int, j: int|
                hm.in_bounds(i, j) && i < x ==> #[trigger] hm.elevation(i, j) == normalized(
                    octave_sum(octaves@, i * height + j, OCTAVES as int),
                ),
        decreases width - x,
    {
        let mut y: usize = 0;
        while y < height
            invariant
                hm.wf(),
                hm.width() == width,
                hm.height() == height,
                width <= MAX_EXTENT,
                height <= MAX_EXTENT,
                x < width,
                y <= height,
                valid_octaves(octaves@, width as int, height as int),
                forall|i: int, j: int|
                    hm.in_bounds(i, j) && (i < x || (i == x && j < y)) ==> #[trigger] hm.elevation(i, j)
                        == normalized(octave_sum(octaves@, i * height + j, OCTAVES as int)),
            decreases height - y,
        {
            proof {
                assert(x * height + y < width * height) by (nonlinear_arith)
                    requires x < width, y < height;
                assert(width * height <= MAX_EXTENT * MAX_EXTENT) by (nonlinear_arith)
                    requires width <= MAX_EXTENT, height <= MAX_EXTENT;
                assert(x * height >= 0) by (nonlinear_arith) requires x >= 0, height >= 0;
            }
            let k = x * height + y;
            let mut sum: i64 = 0;
            let mut weight: i64 = 128;
            let mut o: usize = 0;
            while o < OCTAVES
                invariant
                    o <= OCTAVES,
                    weight == octave_weight(o as int),
                    sum == octave_sum(octaves@, k as int, o as int),
                    valid_octaves(octaves@, width as int, height as int),
                    k < width * height,
                decreases OCTAVES - o,
            {
                proof {
                    lemma_octave_sum_bound(octaves@, width as int, height as int, k as int, o as int + 1);
                    lemma_octave_sum_bound(octaves@, width as int, height as int, k as int, o as int);
                    lemma_octave_weights();
                    let s = octaves@[o as int]@[k as int] as int;
                    assert(-128 * NOISE_ONE <= weight * s <= 128 * NOISE_ONE) by (nonlinear_arith)
                        requires -NOISE_ONE <= s <= NOISE_ONE, 0 <= weight <= 128;
                }
                sum = sum + weight * octaves[o][k] as i64;
                weight = weight / 2;
                o = o + 1;
            }
            proof {
                lemma_octave_sum_bound(octaves@, width as int, height as int, k as int, OCTAVES as int);
                lemma_octave_weights();
            }
            let e = normalize_sum(sum);
            hm.set_height(x, y, e);
            y = y + 1;
        }
        x = x + 1;
    }
    proof {
        assert forall|x: int, y: int| hm.in_bounds(x, y) implies 0 <= #[trigger] hm.elevation(x, y)
            <= UNITS_PER_CELL by {
            assert(0 <= x * height + y < width * height) by (nonlinear_arith)
                requires 0 <= x < width, 0 <= y < height;
            lemma_octave_sum_bound(octaves@, width as int, height as int, x * height + y, OCTAVES as int);
            lemma_octave_weights();
            let s = octave_sum(octaves@, x * height + y, OCTAVES as int);
            let v = (s + max_magnitude()) * UNITS_PER_CELL;
            assert(0 <= v <= 2 * max_magnitude() * UNITS_PER_CELL) by (nonlinear_arith)
                requires v == (s + max_magnitude()) * UNITS_PER_CELL, -max_magnitude() <= s <= max_magnitude();
            assert(v / (2 * max_magnitude()) <= UNITS_PER_CELL) by (nonlinear_arith)
                requires 0 <= v <= 2 * max_magnitude() * UNITS_PER_CELL;
        }
    }
    hm
}

impl HeightMap {
    /// Scales every elevation by `mult`.
    pub fn multiply(&mut self, mult: i32)
        requires
            old(self).wf(),
            forall|x: int, y: int|
                old(self).in_bounds(x, y) ==> i32::MIN <= #[trigger] old(self).elevation(x, y) * mult <= i32::MAX,
        ensures
            final(self).wf(),
            final(self).width() == old(self).width(),
            final(self).height() == old(self).height(),
            forall|i: int, j: int|
                final(self).in_bounds(i, j) ==> #[trigger] final(self).elevation(i, j) == old(self).elevation(i, j) * mult,
    {
        let ghost prev = *old(self);
        let (w, h) = self.dim();
        let mut x: usize = 0;
        while x < w
            invariant
                self.wf(),
                self.width() == prev.width() == w,
                self.height() == prev.height() == h,
                x <= w,
                forall|x: int, y: int|
                    prev.in_bounds(x, y) ==> i32::MIN <= #[trigger] prev.elevation(x, y) * mult <= i32::MAX,
                forall|i: int, j: int|
                    self.in_bounds(i, j) ==> #[trigger] self.elevation(i, j) == if i < x {
                        prev.elevation(i, j) * mult
                    } else {
                        prev.elevation(i, j)
                    },
            decreases w - x,
        {
            let mut y: usize = 0;
            while y < h
                invariant
                    self.wf(),
                    self.width() == prev.width() == w,
                    self.height() == prev.height() == h,
                    x < w,
                    y <= h,
                    forall|x: int, y: int|
                        prev.in_bounds(x, y) ==> i32::MIN <= #[trigger] prev.elevation(x, y) * mult <= i32::MAX,
                    forall|i: int, j: int|
                        self.in_bounds(i, j) ==> #[trigger] self.elevation(i, j) == if i < x || (i == x
                            && j < y) {
                            prev.elevation(i, j) * mult
                        } else {
                            prev.elevation(i, j)
                        },
                decreases h - y,
            {
                let v = self.height_at(x, y);
                self.set_height(x, y, v * mult);
                y = y + 1;
            }
            x = x + 1;
        }
    }

    /// Clips every elevation into `[min, max]`.
    pub fn clamp(&mut self, min: i32, max: i32)
        requires
            old(self).wf(),
            min <= max,
        ensures
            final(self).wf(),
            final(self).width() == old(self).width(),
            final(self).height() == old(self).height(),
            forall|i: int, j: int|
                final(self).in_bounds(i, j) ==> #[trigger] final(self).elevation(i, j) == clamp_spec(old(self).elevation(i, j), min as int, max as int),
            forall|i: int, j: int|
                final(self).in_bounds(i, j) ==> min <= #[trigger] final(self).elevation(i, j) <= max,
    {
        let ghost prev = *old(self);
        let (w, h) = self.dim();
        let mut x: usize = 0;
        while x < w
            invariant
                self.wf(),
                self.width() == prev.width() == w,
                self.height() == prev.height() == h,
                x <= w,
                min <= max,
                forall|i: int, j: int|
                    self.in_bounds(i, j) ==> #[trigger] self.elevation(i, j) == if i < x {
                        clamp_spec(prev.elevation(i, j), min as int, max as int)
                    } else {
                        prev.elevation(i, j)
                    },
            decreases w - x,
        {
            let mut y: usize = 0;
            while y < h
                invariant
                    self.wf(),
                    self.width() == prev.width() == w,
                    self.height() == prev.height() == h,
                    x < w,
                    y <= h,
                    min <= max,
                    forall|i: int, j: int|
                        self.in_bounds(i, j) ==> #[trigger] self.elevation(i, j) == if i < x || (i == x
                            && j < y) {
                            clamp_spec(prev.elevation(i, j), min as int, max as int)
                        } else {
                            prev.elevation(i, j)
                        },
                decreases h - y,
            {
                let v = self.height_at(x, y);
                let c = if v < min {
                    min
                } else if v > max {
                    max
                } else {
                    v
                };
                self.set_height(x, y, c);
                y = y + 1;
            }
            x = x + 1;
        }
    }
}

/// Generation depends on its inputs alone: two terrains built from the same
/// extent and the same octave samples are the same terrain.
pub proof fn lemma_generation_deterministic(
    width: int,
    height: int,
    octaves: Seq<Vec<i32>>,
    first: HeightMap,
    second: HeightMap,
)
    requires
        generated(first, width, height, octaves),
        generated(second, width, height, octaves),
    ensures
        first.width() == second.width(),
        first.height() == second.height(),
        forall|x: int, y: int| first.in_bounds(x, y) ==> #[trigger] first.elevation(x, y) == second.elevation(x, y),
{
}

/// `after` holds the elevations of `before`, each clipped into `[min, max]`.
pub open spec fn clamped(after: HeightMap, before: HeightMap, min: int, max: int) -> bool {
    &&& after.width() == before.width()
    &&& after.height() == before.height()
    &&& forall|x: int, y: int|
        after.in_bounds(x, y) ==> #[trigger] after.elevation(x, y) == clamp_spec(before.elevation(x, y), min, max)
}

/// Clipping twice into the same bounds gives what clipping once gave, and
/// every elevation lies within the bounds.
pub proof fn lemma_clamp_idempotent(field: HeightMap, once: HeightMap, twice: HeightMap, min: int, max: int)
    requires
        min <= max,
        clamped(once, field, min, max),
        clamped(twice, once, min, max),
    ensures
        forall|x: int, y: int| twice.in_bounds(x, y) ==> #[trigger] twice.elevation(x, y) == once.elevation(x, y),
        forall|x: int, y: int| once.in_bounds(x, y) ==> min <= #[trigger] once.elevation(x, y) <= max,
{
}

} // verus!
