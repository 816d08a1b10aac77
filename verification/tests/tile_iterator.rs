use tilemath::{Tile, TileIterator};

fn tile(zoom: u8, x: u32, y: u32) -> Tile {
    Tile { zoom, x, y }
}

#[test]
fn test_iterator() {
    let tiles: Vec<Tile> = TileIterator::new(3, 1..=2, 2..=4).collect();

    let expect: Result<Vec<Tile>, _> = ["3/1/2", "3/2/2", "3/1/3", "3/2/3", "3/1/4", "3/2/4"]
        .iter()
        .map(|s| s.parse())
        .collect();

    assert_eq!(Ok(tiles), expect);
}

#[test]
fn test_pyramid() {
    let expect: Result<Vec<Tile>, _> = [
        "2/1/1", "1/0/0", "0/0/0", "2/2/1", "1/1/0", "2/1/2", "1/0/1", "2/2/2", "1/1/1",
        "2/1/3", "2/2/3",
    ]
    .iter()
    .map(|&s| s.parse())
    .collect();

    let pyramid: Vec<Tile> = TileIterator::new(2, 1..=2, 1..=3).pyramid();

    assert_eq!(Ok(pyramid), expect);
}

#[test]
fn test_bbox_covered_tiles() {
    let extent = std::f64::consts::PI * 6_378_137.0;
    let (min_x, min_y, max_x, max_y) = (1137489.0, 5980732.0, 1711100.0, 6428543.0);
    let zoom = 7;
    let tile_size_meters = (extent * 2.0) / f64::from(1 << zoom);
    let min_tile_x = ((min_x + extent) / tile_size_meters).floor() as u32;
    let max_tile_x = ((max_x + extent) / tile_size_meters).ceil() as u32 - 1;
    let min_tile_y = ((extent - max_y) / tile_size_meters).floor() as u32;
    let max_tile_y = ((extent - min_y) / tile_size_meters).ceil() as u32 - 1;

    let tiles: Vec<Tile> =
        TileIterator::new(zoom, min_tile_x..=max_tile_x, min_tile_y..=max_tile_y).collect();

    let expect: Result<Vec<Tile>, _> = [
        "7/67/43", "7/68/43", "7/69/43", "7/67/44", "7/68/44", "7/69/44",
    ]
    .iter()
    .map(|&s| s.parse())
    .collect();

    assert_eq!(Ok(tiles), expect);
}

#[test]
fn next_gives_the_tiles_row_by_row_and_then_nothing() {
    let mut tiles = TileIterator::new(9, 5..=6, 0..=1);
    assert_eq!(tiles.next(), Some(tile(9, 5, 0)));
    assert_eq!(tiles.next(), Some(tile(9, 6, 0)));
    assert_eq!(tiles.next(), Some(tile(9, 5, 1)));
    assert_eq!(tiles.next(), Some(tile(9, 6, 1)));
    assert_eq!(tiles.next(), None);
    assert_eq!(tiles.next(), None);
    assert_eq!(tiles.collect(), Vec::new());
}

#[test]
fn collect_gives_what_is_left() {
    let mut tiles = TileIterator::new(4, 0..=2, 7..=8);
    tiles.next();
    tiles.next();
    assert_eq!(
        tiles.collect(),
        vec![tile(4, 2, 7), tile(4, 0, 8), tile(4, 1, 8), tile(4, 2, 8)]
    );
}

#[test]
fn a_single_tile() {
    assert_eq!(TileIterator::new(0, 0..=0, 0..=0).collect(), vec![tile(0, 0, 0)]);
}

#[test]
#[allow(clippy::reversed_empty_ranges)]
fn an_empty_range_gives_no_tile() {
    assert_eq!(TileIterator::new(3, 2..=1, 0..=5).collect(), Vec::new());
    assert_eq!(TileIterator::new(3, 0..=5, 2..=1).collect(), Vec::new());
    assert_eq!(TileIterator::new(3, 2..=1, 2..=1).next(), None);
    assert_eq!(TileIterator::new(3, 2..=1, 0..=5).pyramid(), Vec::new());
}

#[test]
fn the_largest_indices() {
    let tiles = TileIterator::new(32, u32::MAX - 1..=u32::MAX, u32::MAX - 1..=u32::MAX).collect();
    assert_eq!(
        tiles,
        vec![
            tile(32, u32::MAX - 1, u32::MAX - 1),
            tile(32, u32::MAX, u32::MAX - 1),
            tile(32, u32::MAX - 1, u32::MAX),
            tile(32, u32::MAX, u32::MAX),
        ]
    );
}

#[test]
fn a_range_that_was_stepped_through_starts_where_it_stands() {
    let mut columns = 1..=3;
    columns.next();
    let mut rows = 5..=6;
    rows.next();
    assert_eq!(
        TileIterator::new(8, columns, rows).collect(),
        vec![tile(8, 2, 6), tile(8, 3, 6)]
    );
}

#[test]
fn a_range_that_was_used_up_gives_no_tile() {
    let mut columns = 1..=3;
    for _ in columns.by_ref() {}
    assert_eq!(TileIterator::new(8, columns, 0..=4).collect(), Vec::new());
    let mut rows = 4..=4;
    rows.next();
    assert_eq!(TileIterator::new(8, 0..=4, rows).collect(), Vec::new());
}

#[test]
fn pyramid_of_one_tile_is_its_chain() {
    assert_eq!(
        TileIterator::new(3, 5..=5, 2..=2).pyramid(),
        vec![tile(3, 5, 2), tile(2, 2, 1), tile(1, 1, 0), tile(0, 0, 0)]
    );
    assert_eq!(TileIterator::new(0, 0..=0, 0..=0).pyramid(), vec![tile(0, 0, 0)]);
}

#[test]
fn pyramid_gives_every_tile_once() {
    let pyramid = TileIterator::new(4, 3..=9, 2..=12).pyramid();
    for (i, a) in pyramid.iter().enumerate() {
        for b in &pyramid[i + 1..] {
            assert_ne!(a, b);
        }
    }
    for base in TileIterator::new(4, 3..=9, 2..=12).collect() {
        for level in 0..=4 {
            assert!(pyramid.contains(&base.ancestor(level).unwrap()));
        }
    }
    for t in &pyramid {
        let mut below = vec![*t];
        for _ in t.zoom..4 {
            below = below.iter().flat_map(|t| t.children()).collect();
        }
        assert!(below
            .iter()
            .any(|t| (3..=9).contains(&t.x) && (2..=12).contains(&t.y)));
    }
}

#[test]
fn pyramid_drops_repeats_and_keeps_the_first_place() {
    let pyramid = TileIterator::new(1, 0..=1, 0..=0).pyramid();
    assert_eq!(pyramid, vec![tile(1, 0, 0), tile(0, 0, 0), tile(1, 1, 0)]);
}

#[test]
fn pyramid_after_some_tiles_were_taken() {
    let mut tiles = TileIterator::new(1, 0..=1, 0..=1);
    tiles.next();
    assert_eq!(
        tiles.pyramid(),
        vec![tile(1, 1, 0), tile(0, 0, 0), tile(1, 0, 1), tile(1, 1, 1)]
    );
}
