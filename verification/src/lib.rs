//! Decoders for the palette and slice chunks of Aseprite sprite files.
//!
//! Every decoder takes the payload of one chunk as a byte slice and returns
//! an owned value, or the reason why the bytes are not a well-formed chunk.
//! What a decoder returns is stated as a function of the bytes
//! ([`palette::spec_parse_chunk`], [`slice::spec_parse_chunk`]), and the
//! decoders are proved to compute these functions.

pub mod error;
pub mod int_map;
pub mod palette;
pub mod palette_encoding;
pub mod pixel;
pub mod reader;
pub mod slice;
pub mod slice_encoding;
pub mod user_data;
pub mod wire;

pub use error::AsepriteParseError;
pub use palette::{ColorPalette, ColorPaletteEntry};
pub use slice::{Slice, Slice9, SliceKey, SliceOrigin, SlicePivot, SliceSize};
pub use user_data::UserData;
