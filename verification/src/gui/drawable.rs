//! Two dimensional shapes for rendering interfaces.
use vstd::prelude::*;

verus! {

pub struct GuiRectangle {}

} // verus!
