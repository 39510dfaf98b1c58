//! Canvas sizes that a camera falls back on.

use vstd::prelude::*;

verus! {

/// Number of pixel columns of a canvas whose description names none.
pub fn default_canvas_width() -> (width: u32)
    ensures
        width == 1280,
{
    1280
}

/// Number of pixel rows of a canvas whose description names none.
pub fn default_canvas_height() -> (height: u32)
    ensures
        height == 720,
{
    720
}

} // verus!
