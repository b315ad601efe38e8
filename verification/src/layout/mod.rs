//! Layouts: how one image is split across a wall of displays.
use vstd::prelude::*;
use crate::discovery::DisplayInfo;
use crate::image::Rotation;

pub mod freeform;
pub mod grid;

verus! {

/// A single tile placement on the virtual canvas.
#[derive(Debug)]
pub struct Placement {
    /// Which display to send this tile to.
    pub display: DisplayInfo,
    /// Pixel offset on the virtual canvas.
    pub x: u32,
    pub y: u32,
    /// Tile size on the canvas (before rotation for the display).
    pub canvas_w: u32,
    pub canvas_h: u32,
    /// Rotation to apply when packing for this display.
    pub rotation: Rotation,
}

impl Clone for Placement {
    fn clone(&self) -> (r: Self)
        ensures
            r == *self,
    {
        Placement {
            display: self.display.clone(),
            x: self.x,
            y: self.y,
            canvas_w: self.canvas_w,
            canvas_h: self.canvas_h,
            rotation: self.rotation,
        }
    }
}

/// Whether placement `p`'s tile lies inside a `w` by `h` canvas.
pub open spec fn tile_inside(p: Placement, w: nat, h: nat) -> bool {
    p.x + p.canvas_w <= w && p.y + p.canvas_h <= h
}

/// Whether the tiles of placements `a` and `b` share no pixel.
pub open spec fn tiles_disjoint(a: Placement, b: Placement) -> bool {
    a.x + a.canvas_w <= b.x || b.x + b.canvas_w <= a.x || a.y + a.canvas_h <= b.y || b.y
        + b.canvas_h <= a.y
}

/// A layout describes how an image is split across one or more displays.
pub trait Layout {
    /// Total virtual canvas size that the source image should be dithered to.
    fn canvas_size(&self) -> (u32, u32);

    /// The individual tile placements.
    fn placements(&self) -> &[Placement];
}

} // verus!
