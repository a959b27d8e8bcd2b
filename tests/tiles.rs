use image::DynamicImage;
use tile_split::{Config, TileError, TileImage};

#[test]
fn dimension_validation() {
    let config = Config::new(256, 2, None, 0, Some(0..=2), None, Some(2)).unwrap();
    assert_eq!(config.check_dimension(1024, 1024), Ok(()));
    assert_eq!(config.check_dimension(1024, 512), Err(TileError::DimensionMismatch));
    assert_eq!(config.check_dimension(512, 512), Err(TileError::DimensionMismatch));
    assert_eq!(config.check_dimension(300, 200), Err(TileError::DimensionMismatch));

    let non_square = DynamicImage::new_rgba8(16, 8);
    let small = Config::new(4, 2, None, 0, Some(0..=2), None, Some(2)).unwrap();
    assert!(matches!(small.resize_range(&non_square), Err(TileError::DimensionMismatch)));
    let wrong_side = DynamicImage::new_rgba8(8, 8);
    assert!(matches!(small.resize_range(&wrong_side), Err(TileError::DimensionMismatch)));
    let right_side = DynamicImage::new_rgba8(16, 16);
    assert!(small.resize_range(&right_side).is_ok());
}

#[test]
fn resize_levels_decides_on_the_given_dimensions() {
    let config = Config::new(4, 2, None, 0, Some(1..=2), None, Some(2)).unwrap();
    let source = DynamicImage::new_rgba8(16, 16);
    let levels = config.resize_levels(&source, 16, 16).unwrap();
    let zooms: Vec<u8> = levels.iter().map(|(_, z)| *z).collect();
    assert_eq!(zooms, vec![1, 2]);
    assert!(matches!(config.resize_levels(&source, 16, 8), Err(TileError::DimensionMismatch)));
    assert!(matches!(config.resize_levels(&source, 8, 8), Err(TileError::DimensionMismatch)));
}

#[test]
fn deep_source_level_never_matches() {
    let config = Config::new(1, 40, Some(41), 0, None, None, None);
    assert!(matches!(config, Err(TileError::InvalidZoomSpan)));
    let config = Config::new(1, 5, None, 0, Some(0..=1), None, None).unwrap();
    let config = Config { zoomlevel: 40, ..config };
    assert_eq!(config.check_dimension(u32::MAX, u32::MAX), Err(TileError::DimensionMismatch));
}

#[test]
fn resize_produces_one_image_per_level() {
    let config = Config::new(4, 2, None, 0, Some(0..=2), None, Some(2)).unwrap();
    let source = DynamicImage::new_rgba8(16, 16);
    let levels = config.resize_range(&source).unwrap();
    let zooms: Vec<u8> = levels.iter().map(|(_, z)| *z).collect();
    assert_eq!(zooms, vec![0, 1, 2]);
    let sides: Vec<(u32, u32)> = levels.iter().map(|(t, _)| (t.img.width(), t.img.height())).collect();
    assert_eq!(sides, vec![(4, 4), (8, 8), (16, 16)]);
}

#[test]
fn resize_rejects_sides_past_32_bits() {
    let config = Config::new(1 << 20, 5, None, 0, Some(0..=12), None, None).unwrap();
    let source = DynamicImage::new_rgba8(1, 1);
    assert!(matches!(config.resize_range(&source), Err(TileError::InvalidTileSize)));
}

#[test]
fn tiles_of_a_whole_level_in_morton_order() {
    let config = Config::new(4, 1, None, 0, None, None, Some(2)).unwrap();
    let image = TileImage { config: &config, img: DynamicImage::new_rgba8(8, 8) };
    let tiles = image.slice_tiles(1);
    let coords: Vec<(u32, u32)> = tiles.iter().map(|t| (t.x, t.y)).collect();
    assert_eq!(coords, vec![(0, 0), (1, 0), (0, 1), (1, 1)]);
    let names: Vec<&str> = tiles.iter().map(|t| t.name.as_str()).collect();
    assert_eq!(names, vec!["1-0-0", "1-1-0", "1-0-1", "1-1-1"]);
}

#[test]
fn tiles_restricted_to_the_level_range() {
    // positions 3..=9 of levels 0..=2: level 1 from index 2, level 2 up to index 4
    let config = Config::new(4, 2, None, 0, Some(0..=2), Some(3..=9), Some(2)).unwrap();
    assert_eq!(config.zoomrangetoslice, 1..=2);
    assert_eq!(config.targetrangetoslice, 2..=4);
    let image = TileImage { config: &config, img: DynamicImage::new_rgba8(8, 8) };
    let names: Vec<String> = image.slice_tiles(1).into_iter().map(|t| t.name).collect();
    assert_eq!(names, vec!["1-0-1", "1-1-1"]);
    let image = TileImage { config: &config, img: DynamicImage::new_rgba8(16, 16) };
    let names: Vec<String> = image.slice_tiles(2).into_iter().map(|t| t.name).collect();
    assert_eq!(names, vec!["2-0-0", "2-1-0", "2-0-1", "2-1-1", "2-2-0"]);
}

#[test]
fn sub_tile_names_are_offset_into_the_parent_pyramid() {
    // sub-tile 3 of a level-2 parent is the one at column 1, row 1 of its 2x2 grid
    let config = Config::new(4, 1, Some(2), 3, None, None, Some(2)).unwrap();
    let image = TileImage { config: &config, img: DynamicImage::new_rgba8(8, 8) };
    let tiles = image.slice_tiles(1);
    let coords: Vec<(u32, u32)> = tiles.iter().map(|t| (t.x, t.y)).collect();
    assert_eq!(coords, vec![(0, 0), (1, 0), (0, 1), (1, 1)]);
    let names: Vec<&str> = tiles.iter().map(|t| t.name.as_str()).collect();
    assert_eq!(names, vec!["2-2-2", "2-3-2", "2-2-3", "2-3-3"]);

    // sub-tile 2 of a level-7 parent for a level-5 source: column 0, row 1 of 4x4
    let config = Config::new(256, 5, Some(7), 2, None, None, Some(2)).unwrap();
    let image = TileImage { config: &config, img: DynamicImage::new_rgba8(1, 1) };
    let tiles = image.slice_tiles(5);
    assert_eq!(tiles.len(), 1024);
    assert_eq!(tiles[0].name, "7-0-32");
    assert_eq!(tiles[1023].name, "7-31-63");
}

#[test]
fn same_configuration_gives_same_tile_names() {
    let config = Config::for_worker(4, 3, Some(0..=3), 2, 3, Some(2)).unwrap();
    let first = TileImage { config: &config, img: DynamicImage::new_rgba8(32, 32) };
    let second = TileImage { config: &config, img: DynamicImage::new_rgba8(32, 32) };
    let a: Vec<String> = first.slice_tiles(3).into_iter().map(|t| t.name).collect();
    let b: Vec<String> = second.slice_tiles(3).into_iter().map(|t| t.name).collect();
    assert_eq!(a, b);
    let mut unique = a.clone();
    unique.sort();
    unique.dedup();
    assert_eq!(unique.len(), a.len());
}

#[test]
fn png_encoding_of_a_tile() {
    let config = Config::new(2, 0, None, 0, None, None, Some(2)).unwrap();
    let image = TileImage { config: &config, img: DynamicImage::new_rgba8(2, 2) };
    let tiles = image.slice_tiles(0);
    assert_eq!(tiles.len(), 1);
    let rgba: Vec<u8> = vec![255, 0, 0, 255, 0, 255, 0, 255, 0, 0, 255, 255, 255, 255, 255, 255];
    let png = tiles[0].convert_to_oxipng(rgba).unwrap();
    assert_eq!(&png[..8], &[0x89, b'P', b'N', b'G', 0x0d, 0x0a, 0x1a, 0x0a]);
    let decoded = image::load_from_memory(&png).unwrap().to_rgba8();
    assert_eq!(decoded.dimensions(), (2, 2));
    assert_eq!(decoded.get_pixel(1, 0).0, [0, 255, 0, 255]);
    assert_eq!(tiles[0].convert_to_oxipng(vec![0; 15]), Err(TileError::EncodeFailure));
    let rgba: Vec<u8> = vec![255, 0, 0, 255, 0, 255, 0, 255, 0, 0, 255, 255, 255, 255, 255, 255];
    assert_eq!(tiles[0].convert_to_oxipng(rgba).unwrap(), png);
}
