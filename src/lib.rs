//! Conversions between map tiles `(x, y, z)` and their quadkey forms: a packed
//! 64-bit integer and a base-4 digit string.
pub mod model;
pub mod qk;

pub use qk::{
    str_to_tile, tile_to_str, tile_to_u64, u64_to_tile, u64_zoom_level, QuadKeyParseError, Tile,
};
