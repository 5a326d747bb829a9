//! Packs many polygon-referenced texture fragments, each cut from a possibly
//! shared source image, into a small number of fixed-size atlas sheets.
//!
//! The pipeline is: polygon references are coalesced into minimal rectangular
//! crop jobs (`texture`), resolved to pixel data (`pixel`) through a
//! bounded-byte cache (`cache`), placed on sheets by a guillotine bin-packer
//! (`place`), and the whole run is orchestrated by `pack`. `geometry` holds
//! the UV/pixel coordinate conversions and bounding-box reasoning that
//! everything else builds on.
//!
//! All coordinates and scale factors are exact integers: UV coordinates and
//! downsample factors are fixed-point values over the denominator
//! [`geometry::UNIT_DENOM`], and remapped UV output is returned as exact
//! numerator/denominator fractions.

pub mod cache;
pub mod error;
pub mod geometry;
pub mod pack;
pub mod pixel;
pub mod place;
pub mod texture;
