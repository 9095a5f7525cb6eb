//! Sticker extraction: fiducial detection, background sampling and
//! segmentation, small-component cleanup and sticker enumeration over an
//! RGBA pixel grid.

pub mod background;
pub mod color;
pub mod components;
pub mod error;
pub mod flood;
pub mod geometry;
pub mod markers;
pub mod raster;
pub mod stickers;
