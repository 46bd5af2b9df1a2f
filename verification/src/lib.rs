pub mod mask;
pub mod matching;
pub mod solver;
pub mod piece;
pub mod size;

use vstd::prelude::*;

verus! {

/// Pixel label for background area in a piece mask.
pub const MASK_BACKGROUND: u8 = 0u8;
/// Pixel label for the interior of a piece in its mask.
pub const MASK_PIECE_PIXEL: u8 = 127u8;
/// Pixel label for a bump that was blanked out of the silhouette.
pub const MASK_HIDDEN_BUMP: u8 = 64u8;
/// Pixel label telling the overlap scorer to ignore a pixel.
pub const MASK_IGNORE_SUPERP: u8 = 16u8;

/// Half-width of the integer offset window the overlap scorer sweeps.
pub const MATCH_MASK_OFFET: i32 = 3;
/// Distance between two sweep offsets, in pixels.
pub const MATCH_MASK_OFFSET_STEP: i32 = 3;

} // verus!
