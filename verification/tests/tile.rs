use tilemath::{ParseError, Tile};

const TILE: Tile = Tile {
    zoom: 3,
    x: 1,
    y: 2,
};

fn tile(zoom: u8, x: u32, y: u32) -> Tile {
    Tile { zoom, x, y }
}

#[test]
fn test_parse() {
    assert_eq!("3/1/2".parse(), Ok(TILE));
}

#[test]
fn test_parent() {
    assert_eq!(
        TILE.parent(),
        Some(Tile {
            zoom: 2,
            x: 0,
            y: 1
        })
    );

    assert_eq!(
        None,
        Tile {
            zoom: 0,
            x: 0,
            y: 0
        }
        .parent()
    );
}

#[test]
fn test_children() {
    let expect: [Tile; 4] = [
        "4/2/4".parse().unwrap(),
        "4/3/4".parse().unwrap(),
        "4/2/5".parse().unwrap(),
        "4/3/5".parse().unwrap(),
    ];

    assert_eq!(TILE.children(), expect);
}

#[test]
fn parent_halves_odd_and_large_coordinates() {
    assert_eq!(tile(5, 7, 9).parent(), Some(tile(4, 3, 4)));
    assert_eq!(
        tile(32, u32::MAX, u32::MAX - 1).parent(),
        Some(tile(31, 0x7fff_ffff, 0x7fff_ffff))
    );
    assert_eq!(tile(0, 9, 9).parent(), None);
}

#[test]
fn reversed_y_flips_the_row() {
    assert_eq!(TILE.reversed_y(), 5);
    assert_eq!(tile(0, 0, 0).reversed_y(), 0);
    assert_eq!(tile(1, 0, 0).reversed_y(), 1);
    assert_eq!(tile(1, 0, 1).reversed_y(), 0);
    assert_eq!(tile(31, 0, 0).reversed_y(), 0x7fff_ffff);
    assert_eq!(tile(32, 0, 0).reversed_y(), u32::MAX);
    assert_eq!(tile(32, 0, u32::MAX).reversed_y(), 0);
}

#[test]
fn to_reversed_y_keeps_zoom_and_column() {
    assert_eq!(TILE.to_reversed_y(), tile(3, 1, 5));
    assert_eq!(TILE.to_reversed_y().to_reversed_y(), TILE);
}

#[test]
fn ancestor_walks_up() {
    let t = tile(5, 21, 13);
    assert_eq!(t.ancestor(0), Some(t));
    assert_eq!(t.ancestor(1), t.parent());
    assert_eq!(t.ancestor(2), Some(tile(3, 5, 3)));
    assert_eq!(t.ancestor(5), Some(tile(0, 0, 0)));
    assert_eq!(t.ancestor(6), None);
    assert_eq!(t.ancestor(255), None);
    assert_eq!(tile(0, 0, 0).ancestor(0), Some(tile(0, 0, 0)));
    assert_eq!(tile(0, 0, 0).ancestor(1), None);
}

#[test]
fn ancestor_of_a_deep_tile() {
    let t = tile(40, u32::MAX, 0x8000_0000);
    assert_eq!(t.ancestor(31), Some(tile(9, 1, 1)));
    assert_eq!(t.ancestor(32), Some(tile(8, 0, 0)));
    assert_eq!(t.ancestor(40), Some(tile(0, 0, 0)));
    assert_eq!(t.ancestor(41), None);
}

#[test]
fn descendants_of_level_zero_is_the_tile() {
    assert_eq!(TILE.descendants(0), vec![TILE]);
}

#[test]
fn descendants_of_level_one_are_the_children() {
    assert_eq!(TILE.descendants(1), TILE.children().to_vec());
}

#[test]
fn descendants_keep_the_order_of_their_parents() {
    let got = tile(0, 0, 0).descendants(2);
    let expect = vec![
        tile(2, 0, 0),
        tile(2, 1, 0),
        tile(2, 0, 1),
        tile(2, 1, 1),
        tile(2, 2, 0),
        tile(2, 3, 0),
        tile(2, 2, 1),
        tile(2, 3, 1),
        tile(2, 0, 2),
        tile(2, 1, 2),
        tile(2, 0, 3),
        tile(2, 1, 3),
        tile(2, 2, 2),
        tile(2, 3, 2),
        tile(2, 2, 3),
        tile(2, 3, 3),
    ];
    assert_eq!(got, expect);
}

#[test]
fn descendants_count_is_a_power_of_four() {
    let mut expect = 1;
    for level in 0..=6 {
        assert_eq!(TILE.descendants(level).len(), expect);
        expect *= 4;
    }
}

#[test]
fn descendants_have_the_tile_as_ancestor() {
    for level in 0..=4 {
        for below in tile(2, 3, 1).descendants(level) {
            assert_eq!(below.zoom, 2 + level);
            assert_eq!(below.ancestor(level), Some(tile(2, 3, 1)));
        }
    }
}

#[test]
fn sector_in_ancestor_counts_from_the_top_left() {
    assert_eq!(tile(3, 5, 6).sector_in_ancestor(0), (0, 0));
    assert_eq!(tile(3, 5, 6).sector_in_ancestor(1), (1, 0));
    assert_eq!(tile(3, 5, 6).sector_in_ancestor(2), (1, 2));
    assert_eq!(tile(3, 5, 6).sector_in_ancestor(3), (5, 6));
    assert_eq!(
        tile(32, u32::MAX, 0x8000_0001).sector_in_ancestor(31),
        (0x7fff_ffff, 1)
    );
    assert_eq!(
        tile(32, u32::MAX, 0x8000_0001).sector_in_ancestor(32),
        (u32::MAX, 0x8000_0001)
    );
    assert_eq!(tile(3, 5, 6).sector_in_ancestor(200), (5, 6));
}

#[test]
fn children_of_the_root() {
    assert_eq!(
        tile(0, 0, 0).children(),
        [tile(1, 0, 0), tile(1, 1, 0), tile(1, 0, 1), tile(1, 1, 1)]
    );
}

#[test]
fn children_drop_the_bit_that_does_not_fit() {
    assert_eq!(
        tile(9, 0x8000_0001, 0x7fff_ffff).children(),
        [
            tile(10, 2, 0xffff_fffe),
            tile(10, 3, 0xffff_fffe),
            tile(10, 2, 0xffff_ffff),
            tile(10, 3, 0xffff_ffff)
        ]
    );
}

#[test]
fn a_tile_is_the_child_of_its_parent_at_its_sector() {
    for t in [TILE, tile(1, 1, 1), tile(7, 100, 35), tile(32, u32::MAX, 6)] {
        let children = t.parent().unwrap().children();
        let (column, row) = t.sector_in_ancestor(1);
        let place = (column + 2 * row) as usize;
        assert_eq!(children[place], t);
        assert_eq!(children.iter().filter(|&&child| child == t).count(), 1);
    }
}

#[test]
fn each_child_has_the_tile_as_parent() {
    for t in [TILE, tile(0, 0, 0), tile(31, 0x7fff_ffff, 0x7fff_ffff)] {
        for child in t.children() {
            assert_eq!(child.parent(), Some(t));
        }
    }
}

#[test]
fn children_buffered_without_buffer_gives_the_children_by_columns() {
    assert_eq!(
        TILE.children_buffered(0),
        vec![tile(4, 2, 4), tile(4, 2, 5), tile(4, 3, 4), tile(4, 3, 5)]
    );
}

#[test]
fn children_buffered_wraps_around_the_grid() {
    let got = tile(1, 0, 1).children_buffered(1);
    let columns = [3, 0, 1, 2];
    let rows = [1, 2, 3, 0];
    let mut expect = Vec::new();
    for x in columns {
        for y in rows {
            expect.push(tile(2, x, y));
        }
    }
    assert_eq!(got, expect);
}

#[test]
fn children_buffered_inside_the_grid() {
    let got = tile(3, 4, 2).children_buffered(2);
    assert_eq!(got.len(), 36);
    assert_eq!(got[0], tile(4, 6, 2));
    assert_eq!(got[1], tile(4, 6, 3));
    assert_eq!(got[6], tile(4, 7, 2));
    assert_eq!(got[2 * 6 + 2], tile(4, 8, 4));
    assert_eq!(got[35], tile(4, 11, 7));
}

#[test]
fn children_buffered_of_the_root_covers_its_children_again_and_again() {
    let got = tile(0, 0, 0).children_buffered(2);
    let mut expect = Vec::new();
    for x in [0, 1, 0, 1, 0, 1] {
        for y in [0, 1, 0, 1, 0, 1] {
            expect.push(tile(1, x, y));
        }
    }
    assert_eq!(got, expect);
}

#[test]
fn children_buffered_at_the_deepest_zoom() {
    let got = tile(31, 0x7fff_ffff, 0).children_buffered(1);
    assert_eq!(got.len(), 16);
    assert_eq!(got[0], tile(32, 0xffff_fffd, 0xffff_ffff));
    assert_eq!(got[5], tile(32, 0xffff_fffe, 0));
    assert_eq!(got[15], tile(32, 0, 2));
}

#[test]
fn children_buffered_with_the_largest_buffer() {
    let got = tile(4, 3, 3).children_buffered(255);
    assert_eq!(got.len(), 512 * 512);
    assert_eq!(got[0], tile(5, (6 + 32 * 8 - 255) % 32, (6 + 32 * 8 - 255) % 32));
    assert_eq!(got[255 * 512 + 255], tile(5, 6, 6));
    assert_eq!(got[256 * 512 + 255], tile(5, 7, 6));
}

#[test]
fn parse_rejects_words_and_short_texts() {
    assert_eq!("not/a/tile".parse::<Tile>(), Err(ParseError));
    assert_eq!("1/2".parse::<Tile>(), Err(ParseError));
}

#[test]
fn parse_rejects_what_is_not_three_numbers() {
    for text in [
        "", "/", "//", "3/1", "3/1/2/4", "3/1/2/", "/3/1/2", "3//2", " 3/1/2", "3/1/2 ", "3/ 1/2",
        "3/1/-2", "-3/1/2", "3/1/2x", "3/1/+", "a/1/2", "3.0/1/2", "3/1/0x2", "३/1/2",
    ] {
        assert_eq!(Tile::from_str(text), Err(ParseError), "{text:?}");
        assert_eq!(text.parse::<Tile>(), Err(ParseError), "{text:?}");
    }
}

#[test]
fn parse_rejects_numbers_out_of_range() {
    assert_eq!(Tile::from_str("256/0/0"), Err(ParseError));
    assert_eq!(Tile::from_str("0/4294967296/0"), Err(ParseError));
    assert_eq!(Tile::from_str("0/0/4294967296"), Err(ParseError));
    assert_eq!(
        Tile::from_str("0/0/99999999999999999999999999999999"),
        Err(ParseError)
    );
}

#[test]
fn parse_takes_the_largest_numbers() {
    assert_eq!(
        Tile::from_str("255/4294967295/4294967295"),
        Ok(tile(255, u32::MAX, u32::MAX))
    );
}

#[test]
fn parse_takes_a_plus_sign_and_leading_zeros() {
    assert_eq!(Tile::from_str("+3/+1/+2"), Ok(TILE));
    assert_eq!(
        Tile::from_str("003/0000000000000000000001/02"),
        Ok(TILE)
    );
    assert_eq!(Tile::from_str("0/0/0"), Ok(tile(0, 0, 0)));
}

#[test]
fn to_string_writes_zoom_column_row() {
    assert_eq!(TILE.to_string(), "3/1/2");
    assert_eq!(tile(0, 0, 0).to_string(), "0/0/0");
    assert_eq!(tile(10, 907, 1234567).to_string(), "10/907/1234567");
    assert_eq!(
        tile(255, u32::MAX, u32::MAX).to_string(),
        "255/4294967295/4294967295"
    );
}

#[test]
fn text_of_a_tile_is_read_back() {
    for t in [
        TILE,
        tile(0, 0, 0),
        tile(255, u32::MAX, 0),
        tile(18, 140_000, 90_009),
        tile(100, 10, 1_000_000_000),
    ] {
        assert_eq!(Tile::from_str(&t.to_string()), Ok(t));
        assert_eq!(t.to_string().parse(), Ok(t));
    }
}

#[test]
fn parse_error_has_its_message() {
    assert_eq!(ParseError.to_string(), "invalid tile format");
}

#[test]
fn children_buffered_stays_in_the_grid() {
    for t in [tile(0, 0, 0), tile(1, 1, 0), tile(2, 3, 3), tile(5, 0, 31), tile(31, 5, 0x7fff_ffff)] {
        for buffer in [0, 1, 2, 7] {
            let block = t.children_buffered(buffer);
            let side = 2 * (usize::from(buffer) + 1);
            assert_eq!(block.len(), side * side);
            for below in block {
                assert_eq!(below.zoom, t.zoom + 1);
                assert!(u64::from(below.x) < 1u64 << below.zoom);
                assert!(u64::from(below.y) < 1u64 << below.zoom);
            }
        }
    }
}

#[test]
fn children_buffered_holds_the_children_in_its_middle() {
    for t in [tile(3, 0, 7), tile(6, 20, 41), tile(31, 0x7fff_ffff, 0)] {
        for buffer in [0u8, 1, 3] {
            let block = t.children_buffered(buffer);
            let side = 2 * (usize::from(buffer) + 1);
            let at = |dx: usize, dy: usize| block[dx * side + dy];
            let b = usize::from(buffer);
            let children = t.children();
            assert_eq!(at(b, b), children[0]);
            assert_eq!(at(b + 1, b), children[1]);
            assert_eq!(at(b, b + 1), children[2]);
            assert_eq!(at(b + 1, b + 1), children[3]);
        }
    }
}

#[test]
fn ancestor_of_an_ancestor() {
    let t = tile(20, 777_777, 123_456);
    for first in 0..=21u8 {
        for second in 0..=21u8 {
            let direct = t.ancestor(first + second);
            let stepwise = t.ancestor(first).and_then(|up| up.ancestor(second));
            assert_eq!(direct, stepwise);
        }
    }
}

fn parse_with_the_standard_library(text: &str) -> Result<Tile, ParseError> {
    let parts: Vec<&str> = text.splitn(3, '/').collect();
    if parts.len() != 3 {
        return Err(ParseError);
    }
    Ok(Tile {
        zoom: parts[0].parse().map_err(|_| ParseError)?,
        x: parts[1].parse().map_err(|_| ParseError)?,
        y: parts[2].parse().map_err(|_| ParseError)?,
    })
}

#[test]
fn parse_agrees_with_the_number_parsing_of_the_standard_library() {
    let fields = [
        "", "0", "1", "7", "+7", "-7", "+", "-", "++7", "+-7", "007", "+007", "255", "256", "0255",
        "4294967295", "4294967296", "04294967295", "42949672950", "99999999999999999999",
        "1e3", "1.0", " 1", "1 ", "1_000", "0x10", "a", "١", "1١", "\u{ff11}", "/", "1/2",
    ];
    for zoom in fields {
        for x in fields {
            for y in fields {
                let text = format!("{zoom}/{x}/{y}");
                assert_eq!(
                    Tile::from_str(&text),
                    parse_with_the_standard_library(&text),
                    "{text:?}"
                );
            }
        }
    }
    for text in ["", "/", "//", "///", "1", "1/", "/1", "1/2", "1//", "//1", "1/2/3/", "/1/2/3"] {
        assert_eq!(
            Tile::from_str(text),
            parse_with_the_standard_library(text),
            "{text:?}"
        );
    }
}

#[test]
fn to_string_agrees_with_the_number_formatting_of_the_standard_library() {
    for (zoom, x, y) in [
        (0, 0, 0),
        (9, 10, 99),
        (10, 100, 101),
        (99, 999_999_999, 1_000_000_000),
        (100, 4_294_967_295, 4_294_967_294),
        (255, 1_234_567_890, 987_654_321),
    ] {
        assert_eq!(tile(zoom, x, y).to_string(), format!("{zoom}/{x}/{y}"));
    }
}
