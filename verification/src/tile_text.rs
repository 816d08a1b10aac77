//! The textual form of a tile, `zoom/x/y`.

use crate::text::{
    all_digits, chars_of, decimal, is_digit, lemma_decimal_digits, lemma_decimal_round_trip,
    lemma_split_last_field, lemma_split_plain, number_of_text, parse_number, push_decimal, split,
    split_chars, string_of,
};
use crate::tile::Tile;
use std::str::FromStr;
use vstd::prelude::*;

verus! {

/// The error for a text that is not a tile: it has not exactly three fields
/// between slashes, or one of them is not a number of its field's range.
#[derive(Debug, Clone, Copy, PartialEq, Eq, Structural)]
pub struct ParseError;

/// The text of a tile: zoom, column and row in base ten, with a slash between
/// them.
pub open spec fn tile_text(tile: Tile) -> Seq<char> {
    decimal(tile.zoom as nat) + seq!['/'] + decimal(tile.x as nat) + seq!['/'] + decimal(
        tile.y as nat,
    )
}

/// The tile that `text` writes, if it writes one: three fields between
/// slashes, each a number that fits its field.
pub open spec fn tile_of_text(text: Seq<char>) -> Option<Tile> {
    let fields = split(text, '/');
    if fields.len() == 3 {
        match (
            number_of_text(fields[0], u8::MAX as nat),
            number_of_text(fields[1], u32::MAX as nat),
            number_of_text(fields[2], u32::MAX as nat),
        ) {
            (Some(zoom), Some(x), Some(y)) => Some(
                Tile { zoom: zoom as u8, x: x as u32, y: y as u32 },
            ),
            _ => None,
        }
    } else {
        None
    }
}

impl ParseError {
    /// The message of the error.
    pub fn to_string(&self) -> (r: String)
        ensures
            r@ == "invalid tile format"@,
    {
        "invalid tile format".to_owned()
    }
}

impl Tile {
    /// Reads a tile from its text `zoom/x/y`.
    pub fn from_str(text: &str) -> (r: Result<Tile, ParseError>)
        ensures
            r == match tile_of_text(text@) {
                Some(tile) => Ok::<Tile, ParseError>(tile),
                None => Err(ParseError),
            },
    {
        let chars = chars_of(text);
        let fields = split_chars(&chars, '/');
        if fields.len() != 3 {
            return Err(ParseError);
        }
        let zoom = parse_number(&fields[0], u8::MAX as u32);
        let x = parse_number(&fields[1], u32::MAX);
        let y = parse_number(&fields[2], u32::MAX);
        match (zoom, x, y) {
            (Some(zoom), Some(x), Some(y)) => Ok(Tile { zoom: zoom as u8, x, y }),
            _ => Err(ParseError),
        }
    }

    /// Writes the tile as `zoom/x/y`.
    pub fn to_string(&self) -> (r: String)
        ensures
            r@ == tile_text(*self),
    {
        let mut chars: Vec<char> = Vec::new();
        push_decimal(&mut chars, self.zoom as u32);
        chars.push('/');
        push_decimal(&mut chars, self.x);
        chars.push('/');
        push_decimal(&mut chars, self.y);
        assert(chars@ =~= tile_text(*self));
        string_of(&chars)
    }
}

impl FromStr for Tile {
    type Err = ParseError;

    fn from_str(text: &str) -> (r: Result<Tile, ParseError>)
        ensures
            r == match tile_of_text(text@) {
                Some(tile) => Ok::<Tile, ParseError>(tile),
                None => Err(ParseError),
            },
    {
        Tile::from_str(text)
    }
}

/// Reading the text written for a tile gives that tile.
pub proof fn lemma_tile_text_round_trip(tile: Tile)
    ensures
        tile_of_text(tile_text(tile)) == Some(tile),
{
    let zoom = decimal(tile.zoom as nat);
    let x = decimal(tile.x as nat);
    let y = decimal(tile.y as nat);
    lemma_decimal_digits(tile.zoom as nat);
    lemma_decimal_digits(tile.x as nat);
    lemma_decimal_digits(tile.y as nat);
    lemma_digits_hold_no_slash(zoom);
    lemma_digits_hold_no_slash(x);
    lemma_digits_hold_no_slash(y);
    lemma_split_plain(zoom, '/');
    lemma_split_last_field(zoom, x, '/');
    lemma_split_last_field(zoom + seq!['/'] + x, y, '/');
    assert(split(tile_text(tile), '/') =~= seq![zoom, x, y]);
    lemma_decimal_round_trip(tile.zoom as nat, u8::MAX as nat);
    lemma_decimal_round_trip(tile.x as nat, u32::MAX as nat);
    lemma_decimal_round_trip(tile.y as nat, u32::MAX as nat);
}

/// A text of digits holds no slash.
proof fn lemma_digits_hold_no_slash(text: Seq<char>)
    requires
        all_digits(text),
    ensures
        !text.contains('/'),
{
    if text.contains('/') {
        let i = text.index_of('/');
        assert(is_digit(text[i]));
    }
}

} // verus!
