//! Contrast-limited adaptive histogram equalisation of single-channel images,
//! in exact integer arithmetic.
//!
//! An image is cut into a grid of tiles. Every tile gets a transfer table from
//! its clipped intensity histogram, and every output sample blends the tables of
//! the up to four tiles whose centres surround it.

pub mod error;
pub mod sums;
pub mod geometry;
pub mod grid;
pub mod boundary;
pub mod histogram;
pub mod lut;
mod convert;
pub mod interpolate;
pub mod engine;
pub mod raster;
pub mod laws;

pub use engine::clahe_generic;
pub use error::ClaheError;
pub use grid::SampleGrid;
pub use histogram::ClipFactor;
pub use raster::{clahe_u16_to_u8, clahe_u8_to_u8, Gray16Image, GrayImage};
