use tile_split::config::{level_tile_count, slice_span, total_tile_count, worker_range};
use tile_split::{Config, TileError};

#[test]
fn level_and_span_tile_counts() {
    assert_eq!(level_tile_count(0), 1);
    assert_eq!(level_tile_count(5), 1024);
    assert_eq!(level_tile_count(15), 1 << 30);
    assert_eq!(total_tile_count(0, 5), 1365);
    assert_eq!(total_tile_count(3, 5), 1344);
    assert_eq!(total_tile_count(5, 5), 1024);
}

#[test]
fn four_workers_over_zoom_zero_to_five() {
    assert_eq!(worker_range(1365, 1, 4), Ok((0, 340)));
    assert_eq!(worker_range(1365, 2, 4), Ok((341, 681)));
    assert_eq!(worker_range(1365, 3, 4), Ok((682, 1022)));
    assert_eq!(worker_range(1365, 4, 4), Ok((1023, 1364)));

    let first = Config::for_worker(256, 5, Some(0..=5), 1, 4, Some(2)).unwrap();
    assert_eq!(first.zoomrangetoslice, 0..=4);
    assert_eq!(first.targetrangetoslice, 0..=255);
    for z in 0..=3u8 {
        assert_eq!(first.level_range(z), (0, level_tile_count(z) - 1));
    }
    assert_eq!(first.level_range(4), (0, 255));

    let second = Config::for_worker(256, 5, Some(0..=5), 2, 4, Some(2)).unwrap();
    assert_eq!(second.zoomrangetoslice, 5..=5);
    assert_eq!(second.targetrangetoslice, 0..=340);

    let third = Config::for_worker(256, 5, Some(0..=5), 3, 4, Some(2)).unwrap();
    assert_eq!(third.zoomrangetoslice, 5..=5);
    assert_eq!(third.targetrangetoslice, 341..=681);

    let fourth = Config::for_worker(256, 5, Some(0..=5), 4, 4, Some(2)).unwrap();
    assert_eq!(fourth.zoomrangetoslice, 5..=5);
    assert_eq!(fourth.targetrangetoslice, 682..=1023);
}

#[test]
fn worker_ranges_cover_without_overlap() {
    for total in [1u32, 2, 7, 21, 85, 1365] {
        for workers in 1..=total {
            let mut next = 0u32;
            for worker in 1..=workers {
                let (lo, hi) = worker_range(total, worker, workers).unwrap();
                assert_eq!(lo, next);
                assert!(lo <= hi);
                next = hi + 1;
            }
            assert_eq!(next, total);
        }
    }
}

#[test]
fn rejected_workers() {
    assert_eq!(worker_range(1365, 0, 4), Err(TileError::InvalidRange));
    assert_eq!(worker_range(1365, 5, 4), Err(TileError::InvalidRange));
    assert_eq!(worker_range(1365, 1, 0), Err(TileError::InvalidRange));
    assert_eq!(worker_range(3, 1, 4), Err(TileError::InvalidRange));
    assert!(matches!(
        Config::for_worker(256, 5, Some(0..=5), 5, 4, None),
        Err(TileError::InvalidRange)
    ));
    assert!(matches!(
        Config::for_worker(0, 5, None, 1, 1, None),
        Err(TileError::InvalidTileSize)
    ));
    assert!(matches!(
        Config::for_worker(256, 5, Some(3..=2), 1, 1, None),
        Err(TileError::InvalidZoomSpan)
    ));
}

#[test]
fn slice_span_levels() {
    let (zooms, tiles) = slice_span(0, 5, 0, 1364).unwrap();
    assert_eq!(zooms, 0..=5);
    assert_eq!(tiles, 0..=1023);
    let (zooms, tiles) = slice_span(0, 5, 1, 4).unwrap();
    assert_eq!(zooms, 1..=1);
    assert_eq!(tiles, 0..=3);
    // level 2 holds positions 5..=20 and level 4 positions 85..=340
    let (zooms, tiles) = slice_span(0, 5, 20, 100).unwrap();
    assert_eq!(zooms, 2..=4);
    assert_eq!(tiles, 15..=15);
    assert!(matches!(slice_span(0, 5, 0, 1365), Err(TileError::InvalidRange)));
    assert!(matches!(slice_span(0, 5, 9, 8), Err(TileError::InvalidRange)));
    assert!(matches!(slice_span(6, 5, 0, 0), Err(TileError::InvalidZoomSpan)));
}

#[test]
fn level_ranges_of_a_three_level_slice() {
    // levels 3, 4 and 5 hold positions 0..=63, 64..=319 and 320..=1343
    let config = Config::new(256, 5, None, 0, Some(3..=5), Some(60..=400), None).unwrap();
    assert_eq!(config.zoomrangetoslice, 3..=5);
    assert_eq!(config.targetrangetoslice, 60..=80);
    assert_eq!(config.level_range(3), (60, 63));
    assert_eq!(config.level_range(4), (0, 255));
    assert_eq!(config.level_range(5), (0, 80));
}
