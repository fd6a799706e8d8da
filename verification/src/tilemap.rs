//! Storage shapes for the tile engine: fixed-size tile layouts only, with no
//! operations on them yet.

use vstd::prelude::*;

verus! {

/// Tile 8x8@4bpp: 32 bytes, held as 8 words.
pub struct Tile4 {
    pub data: [u32; 8],
}

/// Tile 8x8@8bpp: 64 bytes, held as 16 words.
pub struct Tile8 {
    pub data: [u32; 16],
}

/// 4bpp tile block: 32x16 tiles.
pub type CharBlock4 = [Tile4; 512];

/// 8bpp tile block: 16x16 tiles.
pub type CharBlock8 = [Tile8; 256];

} // verus!
