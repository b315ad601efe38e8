//! Paintress: orchestration of a wall of Spectra 6 e-ink displays.
//!
//! The library holds the verified logic: the palette and 4bpp packing, tile
//! rotation and cropping, grid and freeform layouts, the configuration and its
//! merging with discovered displays, target resolution, and the text the
//! program sends and reports.
pub mod backend;
pub mod config;
pub mod discovery;
pub mod error;
pub mod fleet;
pub mod image;
pub mod layout;
pub mod ota;
pub mod palette;
pub mod text;
pub mod transport;
