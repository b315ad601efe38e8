//! Display backends: how a fleet of displays is addressed.
pub mod esp32;
