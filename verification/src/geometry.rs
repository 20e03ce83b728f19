use vstd::prelude::*;

verus! {

/// A screen-space rectangle: origin, width and height in pixels.
#[derive(Clone, Copy, Debug, PartialEq, Eq, Structural)]
pub struct Rect {
    pub x: i32,
    pub y: i32,
    pub width: u32,
    pub height: u32,
}

/// Gap settings for tiled layout: inner gaps separate tiled windows from
/// each other, outer gaps separate them from the edge of the usable area.
/// When `enabled` is false every gap is treated as zero.
#[derive(Clone, Copy, Debug, PartialEq, Eq, Structural)]
pub struct GapConfig {
    pub enabled: bool,
    pub inner_horizontal: u32,
    pub inner_vertical: u32,
    pub outer_horizontal: u32,
    pub outer_vertical: u32,
}

impl GapConfig {
    /// Gap settings with every gap zero and gaps disabled.
    pub fn none() -> (r: GapConfig)
        ensures
            !r.enabled,
            r.inner_horizontal == 0,
            r.inner_vertical == 0,
            r.outer_horizontal == 0,
            r.outer_vertical == 0,
    {
        GapConfig { enabled: false, inner_horizontal: 0, inner_vertical: 0, outer_horizontal: 0, outer_vertical: 0 }
    }
}

} // verus!
