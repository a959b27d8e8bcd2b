//! Errors of the tiling library.
use vstd::prelude::*;

verus! {

/// Why a configuration, an image or a tile was rejected.
#[derive(Debug, Clone, Copy, PartialEq, Eq, Structural)]
pub enum TileError {
    /// The tile size is zero, or the image of a level to produce would have
    /// a side that does not fit in 32 bits.
    InvalidTileSize,
    /// The zoom span is empty, or reaches a level whose tile count does not
    /// fit in 32 bits.
    InvalidZoomSpan,
    /// The tile range, or the worker number and count, fall outside the tiles
    /// of the zoom span.
    InvalidRange,
    /// The parent zoom level is not above the source zoom level, or the
    /// sub-tile index does not exist at the parent level.
    InvalidHierarchy,
    /// The source image is not square, or its side is not the tile size
    /// scaled to the source zoom level.
    DimensionMismatch,
    /// The pixels of a tile could not be encoded.
    EncodeFailure,
}

} // verus!
