use clahe::boundary::extend_to_tiles;
use clahe::error::ClaheError;
use clahe::geometry::{edge_after, region_bounds, tile_at, tile_before, TileGeometry};
use clahe::grid::SampleGrid;

#[test]
fn geometry_rounds_tile_size_up() {
    let g = TileGeometry::for_grid(3, 3, 4, 4).unwrap();
    assert_eq!((g.tiles_x, g.tiles_y, g.tile_width, g.tile_height), (3, 3, 2, 2));
    let g = TileGeometry::for_grid(8, 4, 64, 32).unwrap();
    assert_eq!((g.tile_width, g.tile_height), (8, 8));
    let g = TileGeometry::for_grid(2, 5, 0, 0).unwrap();
    assert_eq!((g.tile_width, g.tile_height), (0, 0));
    let g = TileGeometry::for_grid(1, 1, usize::MAX, usize::MAX).unwrap();
    assert_eq!((g.tile_width, g.tile_height), (usize::MAX, usize::MAX));
}

#[test]
fn geometry_turns_down_zero_tiles() {
    assert_eq!(TileGeometry::for_grid(0, 3, 4, 4), Err(ClaheError::InvalidArgument));
    assert_eq!(TileGeometry::for_grid(3, 0, 4, 4), Err(ClaheError::InvalidArgument));
    assert_eq!(TileGeometry::for_grid(0, 0, 0, 0), Err(ClaheError::InvalidArgument));
}

#[test]
fn padded_size_is_whole_tiles() {
    let g = TileGeometry::for_grid(3, 3, 4, 4).unwrap();
    assert_eq!(g.padded_size(4, 4), Some((6, 6)));
    let g = TileGeometry::for_grid(2, 2, 16, 16).unwrap();
    assert_eq!(g.padded_size(16, 16), Some((16, 16)));
    // 7 = 2 * 4 - 1 is the largest side that still mirrors inside 4 samples
    let g = TileGeometry::for_grid(7, 1, 4, 1).unwrap();
    assert_eq!(g.padded_size(4, 1), Some((7, 1)));
}

#[test]
fn padded_size_needs_the_mirror_inside_the_image() {
    let g = TileGeometry::for_grid(3, 1, 1, 1).unwrap();
    assert_eq!(g.padded_size(1, 1), None);
    let g = TileGeometry::for_grid(8, 1, 4, 1).unwrap();
    assert_eq!(g.padded_size(4, 1), None);
    let g = TileGeometry::for_grid(1, 16, 5, 8).unwrap();
    assert_eq!(g.padded_size(5, 8), None);
}

#[test]
fn boundary_mirror_of_four_by_four_over_three_by_three_tiles() {
    let samples: Vec<u16> = (0..16).collect();
    let grid = SampleGrid::from_samples(4, 4, 255, samples.clone()).unwrap();
    let geometry = TileGeometry::for_grid(3, 3, 4, 4).unwrap();
    let padded = extend_to_tiles(&grid, &geometry).unwrap();
    assert_eq!(padded.width(), 6);
    assert_eq!(padded.height(), 6);
    assert_eq!(padded.max_value(), 255);
    let max = 3i64;
    for y in 0..6usize {
        for x in 0..6usize {
            let sx = (max - (x as i64 - max).abs()) as usize;
            let sy = (max - (y as i64 - max).abs()) as usize;
            assert_eq!(padded.get(x, y), samples[sy * 4 + sx]);
        }
    }
    // spelled out for the added columns of the first row and the corner
    assert_eq!(padded.get(4, 0), 2);
    assert_eq!(padded.get(5, 0), 1);
    assert_eq!(padded.get(0, 4), 8);
    assert_eq!(padded.get(0, 5), 4);
    assert_eq!(padded.get(5, 5), 5);
    assert_eq!(
        padded.samples()[0..6].to_vec(),
        vec![0, 1, 2, 3, 2, 1]
    );
}

#[test]
fn boundary_leaves_fitting_grid_alone() {
    let grid = SampleGrid::from_samples(4, 4, 255, (0..16).collect()).unwrap();
    let geometry = TileGeometry::for_grid(2, 4, 4, 4).unwrap();
    assert!(extend_to_tiles(&grid, &geometry).is_none());
}

#[test]
fn boundary_pads_one_side_only() {
    let grid = SampleGrid::from_samples(3, 2, 9, vec![1, 2, 3, 4, 5, 6]).unwrap();
    let geometry = TileGeometry::for_grid(2, 1, 3, 2).unwrap();
    let padded = extend_to_tiles(&grid, &geometry).unwrap();
    assert_eq!((padded.width(), padded.height()), (4, 2));
    assert_eq!(padded.samples(), &vec![1, 2, 3, 2, 4, 5, 6, 5]);
}

#[test]
fn region_edges_are_tile_centres_inside_the_image() {
    assert_eq!(edge_after(0, 8, 16), 4);
    assert_eq!(edge_after(1, 8, 16), 12);
    assert_eq!(edge_after(2, 8, 16), 16);
    assert_eq!(edge_after(0, 1, 5), 0);
    assert_eq!(edge_after(usize::MAX, usize::MAX, 7), 7);
    assert_eq!(region_bounds(0, 8, 16), (0, 4));
    assert_eq!(region_bounds(1, 8, 16), (4, 12));
    assert_eq!(region_bounds(2, 8, 16), (12, 16));
    assert_eq!(region_bounds(3, 8, 16), (16, 16));
}

#[test]
fn regions_cover_every_position_once() {
    let mut seed: u64 = 99;
    for tiles in 1..=16usize {
        for _ in 0..12 {
            seed = seed.wrapping_mul(6364136223846793005).wrapping_add(1442695040888963407);
            let len = ((seed >> 33) % 200) as usize;
            let tile = (len + tiles - 1) / tiles;
            if tile == 0 {
                continue;
            }
            let mut hits = vec![0u32; len];
            let mut previous_end = 0;
            for i in 0..=tiles {
                let (start, end) = region_bounds(i, tile, len);
                assert_eq!(start, previous_end);
                assert!(end - start <= tile);
                for c in start..end {
                    hits[c] += 1;
                }
                previous_end = end;
            }
            assert_eq!(previous_end, len);
            assert!(hits.iter().all(|h| *h == 1));
        }
    }
}

#[test]
fn regions_cover_every_pixel_of_a_grid_once() {
    let mut seed: u64 = 5;
    for tiles_x in 1..=16usize {
        for tiles_y in [1usize, 2, 3, 7, 16] {
            seed = seed.wrapping_mul(6364136223846793005).wrapping_add(1442695040888963407);
            let width = 1 + ((seed >> 33) % 40) as usize;
            let height = 1 + ((seed >> 45) % 40) as usize;
            let g = TileGeometry::for_grid(tiles_x, tiles_y, width, height).unwrap();
            let mut hits = vec![0u32; width * height];
            for i in 0..=tiles_x {
                for j in 0..=tiles_y {
                    let (x0, x1) = region_bounds(i, g.tile_width, width);
                    let (y0, y1) = region_bounds(j, g.tile_height, height);
                    for y in y0..y1 {
                        for x in x0..x1 {
                            hits[y * width + x] += 1;
                        }
                    }
                }
            }
            assert!(hits.iter().all(|h| *h == 1));
        }
    }
}

#[test]
fn tiles_next_to_a_region_stay_inside_the_grid() {
    assert_eq!((tile_before(0, 3), tile_at(0, 3)), (0, 0));
    assert_eq!((tile_before(1, 3), tile_at(1, 3)), (0, 1));
    assert_eq!((tile_before(2, 3), tile_at(2, 3)), (1, 2));
    assert_eq!((tile_before(3, 3), tile_at(3, 3)), (2, 2));
    assert_eq!((tile_before(0, 1), tile_at(1, 1)), (0, 0));
}

#[test]
fn grid_from_samples_checks_size_and_depth() {
    assert!(SampleGrid::from_samples(2, 2, 255, vec![0, 1, 2]).is_none());
    assert!(SampleGrid::from_samples(2, 2, 1, vec![0, 1, 2, 0]).is_none());
    assert!(SampleGrid::from_samples(usize::MAX, 2, 1, vec![]).is_none());
    let g = SampleGrid::from_samples(2, 2, 2, vec![0, 1, 2, 0]).unwrap();
    assert_eq!((g.width(), g.height(), g.max_value()), (2, 2, 2));
    assert_eq!(g.get(0, 1), 2);
    assert_eq!(g.get(1, 0), 1);
    let e = SampleGrid::from_samples(0, 5, 7, vec![]).unwrap();
    assert_eq!((e.width(), e.height()), (0, 5));
}

#[test]
fn grid_zeros_and_set() {
    let mut g = SampleGrid::zeros(3, 2, 15).unwrap();
    assert_eq!(g.samples(), &vec![0; 6]);
    g.set(2, 1, 15);
    g.set(0, 0, 4);
    assert_eq!(g.samples(), &vec![4, 0, 0, 0, 0, 15]);
    assert!(SampleGrid::zeros(usize::MAX, 2, 15).is_none());
}
