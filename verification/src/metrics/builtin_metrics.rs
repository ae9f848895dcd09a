//! Type ids for metrics internal to the engine.
use vstd::prelude::*;

verus! {

/// Time taken to update scene.
pub const SCENE_UPDATE: u16 = 1000;

/// Time taken sending the graphics encoder to gfx.
pub const GRAPHICS_RENDER: u16 = 2000;

/// Number of calls to encoder draw function.
pub const GRAPHICS_DRAW_CALLS: u16 = 2010;

} // verus!
