//! Coordinate arithmetic for slippy-map tiles (XYZ and TMS numbering) on the
//! Web Mercator quad-tree: tile identities, navigation between zoom levels,
//! Z-order keys, rectangular tile ranges and their pyramids, the textual form
//! of tiles, and the fields of the textual form of bounding boxes.

pub mod adaptors;
pub mod bbox_text;
pub mod distinct;
pub mod text;
pub mod tile;
pub mod tile_iterator;
pub mod tile_text;
pub mod zorder;

pub use crate::bbox_text::{bbox_fields, BBoxParseError};
pub use crate::tile::Tile;
pub use crate::tile_iterator::TileIterator;
pub use crate::tile_text::ParseError;
