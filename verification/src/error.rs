//! Errors the library reports.
use vstd::prelude::*;

verus! {

/// What went wrong while resolving displays or building a layout.
#[derive(Debug)]
pub enum PaintressError {
    /// No display was found (or none of the configured ones answered).
    NoDisplaysFound,
    /// No discovered display matches the given target.
    DisplayNotFound(String),
    /// A grid needs more displays than were supplied.
    NotEnoughDisplays { layout: String, needed: usize, available: usize },
    /// A layout string is not of the form COLSxROWS.
    InvalidLayout(String),
    /// A rotation name is not one of none, cw90, ccw90, flip180.
    InvalidRotation(String),
    /// A position name is not one of the known positions.
    InvalidPosition(String),
    /// A placement spec is not of the form DISPLAY@COL,ROW[:ROTATION].
    InvalidPlacementSpec(String),
    /// Any other failure, with its message.
    Generic(String),
}

} // verus!
