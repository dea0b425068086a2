//! Pixel-level glitch effects applied in place to an RGBA raster held in memory:
//! threshold-driven pixel sorting, and the shuffling and sliding of random
//! rectangular regions.
//!
//! - [`grid`] is the mathematical model of an image that every contract
//!   speaks of.
//! - [`pixel`] and [`raster`] hold the pixels and the buffers they live in.
//! - [`pixel_sort`] finds the dark strips of each row and sorts them by
//!   brightness.
//! - [`area_glitch`] samples rectangular areas, pastes their content elsewhere
//!   and smears their edges.
//! - [`processor`] keeps a base image beside the image being worked on.

pub mod area_glitch;
pub mod grid;
pub mod pixel;
pub mod pixel_sort;
pub mod processor;
pub mod raster;

pub use crate::processor::ImageProcessor;
