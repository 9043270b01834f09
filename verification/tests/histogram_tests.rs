use clahe::geometry::TileGeometry;
use clahe::grid::SampleGrid;
use clahe::histogram::{ClipFactor, Histogram};
use clahe::lut::Lut;

fn clipped(counts: Vec<usize>, limit: u128) -> Vec<usize> {
    let mut h = Histogram::from_counts(counts).unwrap();
    h.clip(limit);
    h.counts().clone()
}

#[test]
fn clip_moves_excess_in_equal_shares_then_one_by_one() {
    // 7 units are cut away: one for every bin, and the other three for the
    // bins 0, 1 and 2.
    assert_eq!(clipped(vec![10, 0, 0, 2], 3), vec![5, 2, 2, 3]);
}

#[test]
fn clip_spreads_remainder_with_step() {
    // 3 units are cut away and 8 / 3 = 2, so the bins 0, 2 and 4 get one each.
    assert_eq!(
        clipped(vec![6, 0, 0, 0, 0, 0, 0, 0], 3),
        vec![4, 0, 1, 0, 1, 0, 0, 0]
    );
}

#[test]
fn clip_with_remainder_just_below_bin_count() {
    assert_eq!(
        clipped(vec![9, 0, 0, 0, 0, 0, 0, 1], 3),
        vec![4, 1, 1, 1, 1, 1, 0, 1]
    );
}

#[test]
fn clip_at_zero_changes_nothing() {
    assert_eq!(clipped(vec![10, 0, 0, 2], 0), vec![10, 0, 0, 2]);
}

#[test]
fn clip_above_every_bin_changes_nothing() {
    assert_eq!(clipped(vec![10, 0, 0, 2], 10), vec![10, 0, 0, 2]);
    assert_eq!(clipped(vec![10, 0, 0, 2], u128::MAX), vec![10, 0, 0, 2]);
}

#[test]
fn clip_keeps_the_total() {
    let mut seed: u64 = 0x2545_f491_4f6c_dd1d;
    for round in 0..200 {
        let bins = 1 + (round % 17);
        let mut counts = Vec::new();
        for _ in 0..bins {
            seed = seed.wrapping_mul(6364136223846793005).wrapping_add(1442695040888963407);
            counts.push(((seed >> 40) % 50) as usize);
        }
        let before: usize = counts.iter().sum();
        for limit in 0..12u128 {
            let after = clipped(counts.clone(), limit);
            assert_eq!(after.len(), counts.len());
            assert_eq!(after.iter().sum::<usize>(), before);
        }
    }
}

#[test]
fn clip_of_single_bin() {
    assert_eq!(clipped(vec![7], 2), vec![7]);
}

#[test]
fn from_counts_turns_down_empty_and_overflowing() {
    assert!(Histogram::from_counts(vec![]).is_none());
    assert!(Histogram::from_counts(vec![usize::MAX, 1]).is_none());
    assert!(Histogram::from_counts(vec![0; 65537]).is_none());
    assert!(Histogram::from_counts(vec![usize::MAX, 0]).is_some());
    assert!(Histogram::from_counts(vec![0; 65536]).is_some());
}

#[test]
fn clip_factor_needs_a_denominator() {
    assert!(ClipFactor::new(1, 0).is_none());
    assert_eq!(ClipFactor::new(3, 2), Some(ClipFactor { numer: 3, denom: 2 }));
}

#[test]
fn clip_limit_formula() {
    let two = ClipFactor::new(2, 1).unwrap();
    // 2 * 1024 / 256
    assert_eq!(two.limit(1024, 256), 8);
    // 2 * 64 / 256 is below one
    assert_eq!(two.limit(64, 256), 1);
    assert_eq!(two.limit(0, 256), 1);
    let off = ClipFactor::new(0, 1).unwrap();
    assert_eq!(off.limit(1024, 256), 0);
    let half = ClipFactor::new(5, 2).unwrap();
    // 5 * 1000 / (2 * 256) = 9.76..
    assert_eq!(half.limit(1000, 256), 9);
    let large = ClipFactor::new(u32::MAX, 1).unwrap();
    assert_eq!(
        large.limit(usize::MAX, 1),
        (u32::MAX as u128) * (usize::MAX as u128)
    );
}

#[test]
fn histogram_counts_the_samples_of_one_tile() {
    // 4 x 2, two tiles side by side
    let grid = SampleGrid::from_samples(4, 2, 3, vec![0, 1, 2, 3, 1, 1, 3, 3]).unwrap();
    let geometry = TileGeometry::for_grid(2, 1, 4, 2).unwrap();
    assert_eq!(geometry.tile_width, 2);
    assert_eq!(geometry.tile_height, 2);
    let left = Histogram::of_tile(&grid, &geometry, 0, 0);
    assert_eq!(left.counts(), &vec![1, 3, 0, 0]);
    let right = Histogram::of_tile(&grid, &geometry, 1, 0);
    assert_eq!(right.counts(), &vec![0, 0, 1, 3]);
}

fn table(counts: Vec<usize>, pixels: usize) -> Vec<u16> {
    let h = Histogram::from_counts(counts).unwrap();
    let lut = Lut::from_histogram(&h, pixels);
    (0..lut.len()).map(|p| lut.get(p)).collect()
}

#[test]
fn lut_is_scaled_running_total() {
    assert_eq!(table(vec![1, 1, 1, 1], 4), vec![0, 1, 2, 3]);
    // running totals 3, 3, 4, 8 times 3 over 8
    assert_eq!(table(vec![3, 0, 1, 4], 8), vec![1, 1, 1, 3]);
}

#[test]
fn lut_is_kept_at_top_level() {
    // more mass than pixels: the scaled total would pass the top level
    assert_eq!(table(vec![4, 4, 4, 4], 4), vec![3, 3, 3, 3]);
}

#[test]
fn lut_of_empty_tile_is_zero() {
    assert_eq!(table(vec![0, 0, 0], 0), vec![0, 0, 0]);
    assert_eq!(table(vec![2, 0, 5], 0), vec![0, 0, 0]);
}

#[test]
fn lut_never_falls() {
    let mut seed: u64 = 77;
    for round in 0..100 {
        let bins = 1 + (round % 33);
        let mut counts = Vec::new();
        for _ in 0..bins {
            seed = seed.wrapping_mul(6364136223846793005).wrapping_add(1442695040888963407);
            counts.push(((seed >> 40) % 9) as usize);
        }
        let pixels: usize = counts.iter().sum();
        let t = table(counts, pixels);
        for i in 1..t.len() {
            assert!(t[i - 1] <= t[i]);
        }
        for v in &t {
            assert!((*v as usize) < bins);
        }
    }
}
