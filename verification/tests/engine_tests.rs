use clahe::engine::clahe_generic;
use clahe::error::ClaheError;
use clahe::geometry::TileGeometry;
use clahe::grid::SampleGrid;
use clahe::histogram::ClipFactor;
use clahe::interpolate::{blend_sample, interpolate};
use clahe::lut::TileLutGrid;

fn keep(v: i64, low: i64, high: i64) -> i64 {
    if v < low {
        low
    } else if v > high {
        high
    } else {
        v
    }
}

/// The equalisation written down step by step, tile by tile and region by
/// region, to hold the library against.
fn step_by_step(
    tiles_x: usize,
    tiles_y: usize,
    numer: u128,
    denom: u128,
    width: usize,
    height: usize,
    levels: usize,
    out_levels: usize,
    samples: &[u16],
) -> Vec<u16> {
    let tw = (width + tiles_x - 1) / tiles_x;
    let th = (height + tiles_y - 1) / tiles_y;
    let pw = tw * tiles_x;
    let ph = th * tiles_y;
    let max_x = width as i64 - 1;
    let max_y = height as i64 - 1;
    let mut src = vec![0u16; pw * ph];
    for y in 0..ph {
        for x in 0..pw {
            let sx = (max_x - (x as i64 - max_x).abs()) as usize;
            let sy = (max_y - (y as i64 - max_y).abs()) as usize;
            src[y * pw + x] = samples[sy * width + sx];
        }
    }
    let pixels = (tw * th) as u128;
    let limit: u128 = if numer > 0 {
        (numer * pixels / (denom * levels as u128)).max(1)
    } else {
        0
    };
    let mut luts: Vec<Vec<u128>> = vec![vec![0; levels]; tiles_x * tiles_y];
    for ty in 0..tiles_y {
        for tx in 0..tiles_x {
            let mut hist = vec![0u128; levels];
            for y in ty * th..(ty + 1) * th {
                for x in tx * tw..(tx + 1) * tw {
                    hist[src[y * pw + x] as usize] += 1;
                }
            }
            if limit > 0 {
                let mut cut: u128 = 0;
                for b in hist.iter_mut() {
                    if *b > limit {
                        cut += *b - limit;
                        *b = limit;
                    }
                }
                let batch = cut / levels as u128;
                let mut residual = cut - batch * levels as u128;
                for b in hist.iter_mut() {
                    *b += batch;
                }
                if residual != 0 {
                    let step = ((levels as u128 / residual).max(1)) as usize;
                    let mut i = 0;
                    while i < levels && residual > 0 {
                        hist[i] += 1;
                        i += step;
                        residual -= 1;
                    }
                }
            }
            let mut sum: u128 = 0;
            for i in 0..levels {
                sum += hist[i];
                luts[ty * tiles_x + tx][i] = (sum * (levels as u128 - 1) / pixels)
                    .min(levels as u128 - 1);
            }
        }
    }
    let mut out = vec![0u16; width * height];
    let mut written = vec![0u32; width * height];
    for i in 0..=tiles_x as i64 {
        for j in 0..=tiles_y as i64 {
            let twi = tw as i64;
            let thi = th as i64;
            let x_start = keep((i - 1) * twi + twi / 2, 0, width as i64) as usize;
            let x_end = keep(i * twi + twi / 2, 0, width as i64) as usize;
            let y_start = keep((j - 1) * thi + thi / 2, 0, height as i64) as usize;
            let y_end = keep(j * thi + thi / 2, 0, height as i64) as usize;
            let left = keep(i - 1, 0, tiles_x as i64 - 1) as usize;
            let right = keep(i, 0, tiles_x as i64 - 1) as usize;
            let top = keep(j - 1, 0, tiles_y as i64 - 1) as usize;
            let bottom = keep(j, 0, tiles_y as i64 - 1) as usize;
            for x in x_start..x_end {
                for y in y_start..y_end {
                    let xi = (x - x_start) as u128;
                    let yi = (y - y_start) as u128;
                    let p = src[y * pw + x] as usize;
                    let w = tw as u128;
                    let h = th as u128;
                    let sum = luts[top * tiles_x + left][p] * (w - xi) * (h - yi)
                        + luts[top * tiles_x + right][p] * xi * (h - yi)
                        + luts[bottom * tiles_x + left][p] * (w - xi) * yi
                        + luts[bottom * tiles_x + right][p] * xi * yi;
                    let v = (out_levels as u128 * sum / (levels as u128 * w * h))
                        .min(out_levels as u128 - 1);
                    out[y * width + x] = v as u16;
                    written[y * width + x] += 1;
                }
            }
        }
    }
    assert!(written.iter().all(|n| *n == 1));
    out
}

fn noise(seed: &mut u64, below: u64) -> u64 {
    *seed = seed
        .wrapping_mul(6364136223846793005)
        .wrapping_add(1442695040888963407);
    (*seed >> 33) % below
}

#[test]
fn blend_of_four_values() {
    // upper 0 * 1 + 100 * 1, lower 200 * 1 + 250 * 1, mixed 550 of 4
    assert_eq!(blend_sample(0, 100, 200, 250, 1, 1, 2, 2, 255, 255), 137);
    // at the upper left centre only the upper left table counts
    assert_eq!(blend_sample(7, 100, 200, 250, 0, 0, 2, 2, 255, 255), 7);
    // three quarters right, at the top
    assert_eq!(blend_sample(0, 100, 0, 0, 3, 0, 4, 2, 255, 255), 75);
    // half way down, at the left
    assert_eq!(blend_sample(10, 0, 20, 0, 0, 4, 8, 8, 255, 255), 15);
}

#[test]
fn blend_brings_sixteen_bits_down_to_eight() {
    assert_eq!(blend_sample(65535, 65535, 65535, 65535, 3, 5, 8, 8, 65535, 255), 255);
    assert_eq!(blend_sample(32768, 32768, 32768, 32768, 0, 0, 8, 8, 65535, 255), 128);
    assert_eq!(blend_sample(255, 255, 255, 255, 0, 0, 1, 1, 65535, 255), 0);
    assert_eq!(blend_sample(256, 256, 256, 256, 0, 0, 1, 1, 65535, 255), 1);
}

#[test]
fn blend_is_kept_at_top_output_level() {
    // table values above the input depth would pass the top level
    assert_eq!(blend_sample(1000, 1000, 1000, 1000, 1, 1, 2, 2, 255, 255), 255);
    assert_eq!(blend_sample(3, 3, 3, 3, 0, 0, 1, 1, 3, 0), 0);
}

#[test]
fn four_by_one_over_two_tiles_by_hand() {
    let grid = SampleGrid::from_samples(4, 1, 3, vec![0, 1, 2, 3]).unwrap();
    let off = ClipFactor::new(0, 1).unwrap();
    let out = clahe_generic(2, 1, off, &grid, 3).unwrap();
    assert_eq!((out.width(), out.height(), out.max_value()), (4, 1, 3));
    assert_eq!(out.samples(), &vec![1, 3, 2, 3]);
    let out = clahe_generic(2, 1, off, &grid, 15).unwrap();
    assert_eq!(out.max_value(), 15);
    assert_eq!(out.samples(), &vec![4, 12, 8, 12]);
}

#[test]
fn interpolate_fills_one_region_only() {
    let grid = SampleGrid::from_samples(4, 1, 3, vec![0, 1, 2, 3]).unwrap();
    let geometry = TileGeometry::for_grid(2, 1, 4, 1).unwrap();
    let luts = TileLutGrid::build(&grid, &geometry, 0);
    let mut dst = SampleGrid::from_samples(4, 1, 3, vec![0, 0, 0, 0]).unwrap();
    interpolate(&mut dst, &grid, &luts, &geometry, 1, 1);
    assert_eq!(dst.samples(), &vec![0, 3, 2, 0]);
    interpolate(&mut dst, &grid, &luts, &geometry, 1, 0);
    assert_eq!(dst.samples(), &vec![0, 3, 2, 0]);
    interpolate(&mut dst, &grid, &luts, &geometry, 0, 1);
    assert_eq!(dst.samples(), &vec![1, 3, 2, 0]);
    interpolate(&mut dst, &grid, &luts, &geometry, 2, 1);
    assert_eq!(dst.samples(), &vec![1, 3, 2, 3]);
}

#[test]
fn tile_tables_by_hand() {
    let grid = SampleGrid::from_samples(4, 1, 3, vec![0, 1, 2, 3]).unwrap();
    let geometry = TileGeometry::for_grid(2, 1, 4, 1).unwrap();
    let luts = TileLutGrid::build(&grid, &geometry, 0);
    let left = luts.lut(0, 0);
    let right = luts.lut(1, 0);
    assert_eq!((0..4).map(|p| left.get(p)).collect::<Vec<u16>>(), vec![1, 3, 3, 3]);
    assert_eq!((0..4).map(|p| right.get(p)).collect::<Vec<u16>>(), vec![0, 0, 1, 3]);
}

#[test]
fn zero_tiles_are_turned_down() {
    let grid = SampleGrid::from_samples(2, 2, 255, vec![1, 2, 3, 4]).unwrap();
    let off = ClipFactor::new(0, 1).unwrap();
    assert_eq!(clahe_generic(0, 1, off, &grid, 255), Err(ClaheError::InvalidArgument));
    assert_eq!(clahe_generic(1, 0, off, &grid, 255), Err(ClaheError::InvalidArgument));
    assert_eq!(clahe_generic(0, 0, off, &grid, 255), Err(ClaheError::InvalidArgument));
    let empty = SampleGrid::from_samples(0, 0, 255, vec![]).unwrap();
    assert_eq!(clahe_generic(0, 3, off, &empty, 255), Err(ClaheError::InvalidArgument));
}

#[test]
fn too_many_tiles_are_turned_down() {
    let off = ClipFactor::new(0, 1).unwrap();
    let one = SampleGrid::from_samples(1, 1, 255, vec![9]).unwrap();
    assert_eq!(clahe_generic(3, 1, off, &one, 255), Err(ClaheError::UnsupportedGeometry));
    assert_eq!(clahe_generic(1, 2, off, &one, 255), Err(ClaheError::UnsupportedGeometry));
    let row = SampleGrid::from_samples(4, 1, 255, vec![9, 8, 7, 6]).unwrap();
    assert_eq!(clahe_generic(8, 1, off, &row, 255), Err(ClaheError::UnsupportedGeometry));
    assert!(clahe_generic(7, 1, off, &row, 255).is_ok());
}

#[test]
fn empty_image_gives_empty_image() {
    let two = ClipFactor::new(2, 1).unwrap();
    for (w, h) in [(0usize, 0usize), (0, 5), (7, 0)] {
        let empty = SampleGrid::from_samples(w, h, 255, vec![]).unwrap();
        let out = clahe_generic(8, 8, two, &empty, 255).unwrap();
        assert_eq!((out.width(), out.height()), (w, h));
        assert!(out.samples().is_empty());
    }
}

#[test]
fn single_tile_without_clipping_is_global_equalization() {
    let mut seed: u64 = 11;
    for (w, h) in [(5usize, 7usize), (16, 16), (1, 1), (33, 2)] {
        let samples: Vec<u16> = (0..w * h).map(|_| noise(&mut seed, 256) as u16).collect();
        let grid = SampleGrid::from_samples(w, h, 255, samples.clone()).unwrap();
        let off = ClipFactor::new(0, 1).unwrap();
        let out = clahe_generic(1, 1, off, &grid, 255).unwrap();
        // the table of the whole image: share of samples at or below a level
        let mut table = vec![0u64; 256];
        for level in 0..256usize {
            let at_or_below = samples.iter().filter(|s| (**s as usize) <= level).count() as u64;
            table[level] = (at_or_below * 255 / (w * h) as u64).min(255);
        }
        for k in 0..w * h {
            assert_eq!(out.samples()[k] as u64, table[samples[k] as usize]);
        }
    }
}

#[test]
fn constant_image_stays_constant() {
    for v in [0u16, 1, 100, 255] {
        for (tiles_x, tiles_y) in [(1usize, 1usize), (2, 2), (3, 5), (8, 8)] {
            for numer in [0u32, 1, 2, 40] {
                let grid = SampleGrid::from_samples(13, 11, 255, vec![v; 13 * 11]).unwrap();
                let clip = ClipFactor::new(numer, 1).unwrap();
                let out = clahe_generic(tiles_x, tiles_y, clip, &grid, 255).unwrap();
                let first = out.samples()[0];
                assert!(out.samples().iter().all(|s| *s == first));
            }
        }
    }
}

#[test]
fn all_zero_image_is_mapped_to_one_level() {
    // Every sample is at or below level 0, so the running total reaches the
    // tile's whole mass at level 0 and the table maps 0 to the top level.
    let grid = SampleGrid::from_samples(16, 16, 255, vec![0; 256]).unwrap();
    let off = ClipFactor::new(0, 1).unwrap();
    let out = clahe_generic(2, 2, off, &grid, 255).unwrap();
    assert_eq!((out.width(), out.height()), (16, 16));
    assert_eq!(out.samples(), &vec![255u16; 256]);
}

#[test]
fn matches_step_by_step_equalization() {
    let mut seed: u64 = 2024;
    for round in 0..60 {
        let width = 1 + noise(&mut seed, 24) as usize;
        let height = 1 + noise(&mut seed, 24) as usize;
        let tiles_x = 1 + noise(&mut seed, width.min(6) as u64) as usize;
        let tiles_y = 1 + noise(&mut seed, height.min(6) as u64) as usize;
        let max_value: u16 = [3u16, 15, 255][round % 3];
        let out_max: u16 = [3u16, 255, 15][(round / 3) % 3];
        let numer = noise(&mut seed, 9) as u32;
        let denom = 1 + noise(&mut seed, 3) as u32;
        let samples: Vec<u16> = (0..width * height)
            .map(|_| noise(&mut seed, max_value as u64 + 1) as u16)
            .collect();
        let grid = SampleGrid::from_samples(width, height, max_value, samples.clone()).unwrap();
        let clip = ClipFactor::new(numer, denom).unwrap();
        let out = clahe_generic(tiles_x, tiles_y, clip, &grid, out_max).unwrap();
        let expected = step_by_step(
            tiles_x,
            tiles_y,
            numer as u128,
            denom as u128,
            width,
            height,
            max_value as usize + 1,
            out_max as usize + 1,
            &samples,
        );
        assert_eq!(out.samples(), &expected);
        assert_eq!((out.width(), out.height(), out.max_value()), (width, height, out_max));
        assert!(out.samples().iter().all(|s| *s <= out_max));
    }
}

#[test]
fn matches_step_by_step_with_padding_near_the_limit() {
    // 4 wide over 7 tiles: padded to 7, the last column mirrors to column 0
    let samples: Vec<u16> = vec![0, 5, 9, 15, 3, 3, 8, 1];
    let grid = SampleGrid::from_samples(4, 2, 15, samples.clone()).unwrap();
    let clip = ClipFactor::new(1, 1).unwrap();
    let out = clahe_generic(7, 2, clip, &grid, 15).unwrap();
    let expected = step_by_step(7, 2, 1, 1, 4, 2, 16, 16, &samples);
    assert_eq!(out.samples(), &expected);
}
