use clahe::engine::clahe_generic;
use clahe::grid::SampleGrid;
use clahe::{clahe_u16_to_u8, clahe_u8_to_u8, ClaheError, ClipFactor, Gray16Image, GrayImage};

fn noise(seed: &mut u64, below: u64) -> u64 {
    *seed = seed
        .wrapping_mul(6364136223846793005)
        .wrapping_add(1442695040888963407);
    (*seed >> 33) % below
}

#[test]
fn gray_image_keeps_size_and_samples() {
    let samples: Vec<u8> = vec![1, 2, 3, 4, 5, 6];
    let image = GrayImage::from_samples(3, 2, samples.clone()).unwrap();
    assert_eq!((image.width(), image.height()), (3, 2));
    assert_eq!(image.to_samples(), samples);
    let grid = image.to_grid();
    assert_eq!((grid.width(), grid.height(), grid.max_value()), (3, 2, 255));
    assert_eq!(grid.get(2, 0), 3);
    assert_eq!(grid.get(0, 1), 4);
    assert_eq!(grid.samples(), &vec![1u16, 2, 3, 4, 5, 6]);
}

#[test]
fn gray_image_needs_one_sample_per_position() {
    assert!(GrayImage::from_samples(3, 2, vec![0; 5]).is_none());
    assert!(GrayImage::from_samples(3, 2, vec![0; 7]).is_none());
    assert!(GrayImage::from_samples(u32::MAX, u32::MAX, vec![]).is_none());
    assert!(GrayImage::from_samples(0, 9, vec![]).is_some());
    assert!(Gray16Image::from_samples(2, 2, vec![0; 3]).is_none());
}

#[test]
fn gray16_image_keeps_size_and_samples() {
    let image = Gray16Image::from_samples(2, 3, vec![0, 65535, 256, 255, 1, 40000]).unwrap();
    assert_eq!((image.width(), image.height()), (2, 3));
    let grid = image.to_grid();
    assert_eq!((grid.width(), grid.height(), grid.max_value()), (2, 3, 65535));
    assert_eq!(grid.samples(), &vec![0u16, 65535, 256, 255, 1, 40000]);
    assert_eq!(grid.get(1, 2), 40000);
}

#[test]
fn gray_image_from_grid_needs_eight_bits() {
    let deep = SampleGrid::from_samples(1, 1, 256, vec![0]).unwrap();
    assert!(GrayImage::from_grid(&deep).is_none());
    let flat = SampleGrid::from_samples(2, 1, 255, vec![7, 255]).unwrap();
    let image = GrayImage::from_grid(&flat).unwrap();
    assert_eq!((image.width(), image.height()), (2, 1));
    assert_eq!(image.to_samples(), vec![7u8, 255]);
}

#[test]
fn eight_bit_entry_agrees_with_grid_equalization() {
    let mut seed: u64 = 31;
    let samples: Vec<u8> = (0..20 * 12).map(|_| noise(&mut seed, 256) as u8).collect();
    let image = GrayImage::from_samples(20, 12, samples.clone()).unwrap();
    let clip = ClipFactor::new(2, 1).unwrap();
    let out = clahe_u8_to_u8(4, 3, clip, &image).unwrap();
    assert_eq!((out.width(), out.height()), (20, 12));
    let grid = SampleGrid::from_samples(
        20,
        12,
        255,
        samples.iter().map(|s| *s as u16).collect(),
    )
    .unwrap();
    let expected = clahe_generic(4, 3, clip, &grid, 255).unwrap();
    let got: Vec<u16> = out.to_samples().iter().map(|s| *s as u16).collect();
    assert_eq!(&got, expected.samples());
    assert!(got.iter().any(|s| *s != got[0]));
}

#[test]
fn sixteen_bit_entry_stays_within_eight_bits() {
    let mut seed: u64 = 8;
    let samples: Vec<u16> = (0..17 * 9).map(|_| noise(&mut seed, 65536) as u16).collect();
    let image = Gray16Image::from_samples(17, 9, samples.clone()).unwrap();
    let clip = ClipFactor::new(0, 1).unwrap();
    let out = clahe_u16_to_u8(2, 2, clip, &image).unwrap();
    assert_eq!((out.width(), out.height()), (17, 9));
    let grid = SampleGrid::from_samples(17, 9, 65535, samples).unwrap();
    let expected = clahe_generic(2, 2, clip, &grid, 255).unwrap();
    assert!(expected.samples().iter().all(|s| *s <= 255));
    let got: Vec<u16> = out.to_samples().iter().map(|s| *s as u16).collect();
    assert_eq!(&got, expected.samples());
}

#[test]
fn sixteen_bit_extremes_stay_within_eight_bits() {
    let samples: Vec<u16> = vec![0, 65535, 65535, 0, 1, 65534, 32768, 32767];
    let image = Gray16Image::from_samples(4, 2, samples).unwrap();
    for numer in [0u32, 1, 1000] {
        let clip = ClipFactor::new(numer, 1).unwrap();
        let out = clahe_u16_to_u8(2, 1, clip, &image).unwrap();
        assert_eq!(out.to_samples().len(), 8);
    }
}

#[test]
fn all_zero_eight_bit_image_is_mapped_to_one_level() {
    let image = GrayImage::from_samples(16, 16, vec![0; 256]).unwrap();
    let off = ClipFactor::new(0, 1).unwrap();
    let out = clahe_u8_to_u8(2, 2, off, &image).unwrap();
    assert_eq!(out.to_samples(), vec![255u8; 256]);
}

#[test]
fn entries_turn_down_zero_tiles_and_unfit_grids() {
    let image = GrayImage::from_samples(1, 1, vec![3]).unwrap();
    let deep = Gray16Image::from_samples(1, 1, vec![3]).unwrap();
    let off = ClipFactor::new(0, 1).unwrap();
    assert!(matches!(clahe_u8_to_u8(0, 1, off, &image), Err(ClaheError::InvalidArgument)));
    assert!(matches!(clahe_u16_to_u8(1, 0, off, &deep), Err(ClaheError::InvalidArgument)));
    assert!(matches!(
        clahe_u8_to_u8(2, 1, off, &image),
        Err(ClaheError::UnsupportedGeometry)
    ));
    assert!(matches!(
        clahe_u16_to_u8(1, 5, off, &deep),
        Err(ClaheError::UnsupportedGeometry)
    ));
    assert!(clahe_u8_to_u8(1, 1, off, &image).is_ok());
}

#[test]
fn empty_eight_bit_image_gives_empty_image() {
    let image = GrayImage::from_samples(0, 4, vec![]).unwrap();
    let two = ClipFactor::new(2, 1).unwrap();
    let out = clahe_u8_to_u8(8, 8, two, &image).unwrap();
    assert_eq!((out.width(), out.height()), (0, 4));
    assert!(out.to_samples().is_empty());
}
