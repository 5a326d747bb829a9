use vstd::prelude::*;

verus! {

/// Errors reported by the atlas-packing pipeline.
///
/// Configuration errors (`InvalidDownsampleFactor`, `InvalidSheetDimensions`)
/// are rejected at construction and never silently corrected. Per-texture
/// failures (`OversizedTexture`, `ZeroSizeTexture`, `SourceReadError`) are
/// collected and surfaced per id so that one failing texture does not abort
/// unrelated ones.
#[derive(Clone, Copy, Debug, PartialEq, Eq, Structural)]
pub enum AtlasError {
    /// A downsample factor outside the unit interval, rejected at construction.
    InvalidDownsampleFactor,
    /// A sheet width or height of zero, rejected at construction.
    InvalidSheetDimensions,
    /// A single texture exceeds the sheet dimensions even on an empty sheet.
    OversizedTexture,
    /// A texture whose pixel footprint has zero width or height cannot be
    /// cropped or placed.
    ZeroSizeTexture,
    /// A source image could not be read or decoded; raised by the I/O layer
    /// that feeds the verified core.
    SourceReadError,
}

} // verus!
