//! Components.
use vstd::prelude::*;

pub mod mesh;

verus! {

/// Camera projection marker component.
#[derive(Debug)]
pub struct CameraProj {}

} // verus!
