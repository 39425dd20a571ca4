use procedural_generation::generation::{terrain_from_octaves, NOISE_ONE, OCTAVES};
use procedural_generation::heightmap::{HeightMap, UNITS_PER_CELL};

fn constant_octaves(w: usize, h: usize, v: i32) -> Vec<Vec<i32>> {
    (0..OCTAVES).map(|_| vec![v; w * h]).collect()
}

#[test]
fn extremes_map_to_zero_and_one() {
    let top = terrain_from_octaves(2, 2, &constant_octaves(2, 2, NOISE_ONE));
    let bottom = terrain_from_octaves(2, 2, &constant_octaves(2, 2, -NOISE_ONE));
    let middle = terrain_from_octaves(2, 2, &constant_octaves(2, 2, 0));
    for x in 0..2 {
        for y in 0..2 {
            assert_eq!(top.height_at(x, y), UNITS_PER_CELL as i32);
            assert_eq!(bottom.height_at(x, y), 0);
            assert_eq!(middle.height_at(x, y), UNITS_PER_CELL as i32 / 2);
        }
    }
}

#[test]
fn first_octave_weighs_most() {
    let mut octaves = constant_octaves(1, 1, 0);
    octaves[0][0] = NOISE_ONE;
    let first = terrain_from_octaves(1, 1, &octaves);
    // (128 + 255) / 510 of a cell
    assert_eq!(first.height_at(0, 0), ((128 + 255) * 65536 / 510) as i32);
    let mut octaves = constant_octaves(1, 1, 0);
    octaves[7][0] = NOISE_ONE;
    let last = terrain_from_octaves(1, 1, &octaves);
    assert_eq!(last.height_at(0, 0), (256 * 65536 / 510) as i32);
}

#[test]
fn samples_land_on_their_cells() {
    let mut octaves = constant_octaves(2, 3, 0);
    octaves[0][1 * 3 + 2] = -NOISE_ONE;
    let hm = terrain_from_octaves(2, 3, &octaves);
    assert_eq!(hm.height_at(1, 2), ((255 - 128) * 65536 / 510) as i32);
    assert_eq!(hm.height_at(0, 0), 32768);
}

#[test]
fn generation_is_deterministic() {
    let octaves: Vec<Vec<i32>> = (0..OCTAVES)
        .map(|o| (0..12).map(|k| ((k * 7919 + o * 104729) % 65537) as i32 - NOISE_ONE).collect())
        .collect();
    let a = terrain_from_octaves(3, 4, &octaves);
    let b = terrain_from_octaves(3, 4, &octaves);
    for x in 0..3 {
        for y in 0..4 {
            assert_eq!(a.height_at(x, y), b.height_at(x, y));
            assert!(a.height_at(x, y) >= 0 && a.height_at(x, y) <= UNITS_PER_CELL as i32);
        }
    }
}

fn sample_field() -> HeightMap {
    let mut hm = HeightMap::new(3, 3);
    for x in 0..3 {
        for y in 0..3 {
            hm.set_height(x, y, (x as i32 - 1) * 1000 + y as i32 * 300);
        }
    }
    hm
}

#[test]
fn clamp_clips_into_bounds() {
    let mut hm = sample_field();
    hm.clamp(-500, 700);
    assert_eq!(hm.height_at(0, 0), -500);
    assert_eq!(hm.height_at(1, 1), 300);
    assert_eq!(hm.height_at(2, 2), 700);
    for x in 0..3 {
        for y in 0..3 {
            let v = hm.height_at(x, y);
            assert!(v >= -500 && v <= 700);
        }
    }
}

#[test]
fn clamp_twice_equals_once() {
    let mut once = sample_field();
    once.clamp(-200, 400);
    let mut twice = sample_field();
    twice.clamp(-200, 400);
    twice.clamp(-200, 400);
    for x in 0..3 {
        for y in 0..3 {
            assert_eq!(once.height_at(x, y), twice.height_at(x, y));
        }
    }
}

#[test]
fn multiply_scales_every_sample() {
    let mut hm = sample_field();
    hm.multiply(-3);
    assert_eq!(hm.height_at(0, 0), 3000);
    assert_eq!(hm.height_at(2, 2), -4800);
    assert_eq!(hm.height_at(1, 0), 0);
}
