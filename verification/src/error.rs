//! The reasons for which decoding or validation fails.

use vstd::prelude::*;

verus! {

/// Why a chunk could not be decoded, or why decoded data failed validation.
#[derive(Debug, Clone, Copy, PartialEq, Eq, Structural)]
pub enum AsepriteParseError {
    /// A read asked for more bytes than the buffer still holds.
    UnexpectedEof,
    /// The bytes of a length-prefixed string are not valid UTF-8.
    InvalidUtf8,
    /// A palette chunk whose last color index lies before its first.
    InvalidPaletteRange { first: u32, last: u32 },
    /// An indexed pixel refers to a color that the palette does not hold.
    IndexOutOfRange { index: u32, num_colors: u32 },
}

} // verus!
