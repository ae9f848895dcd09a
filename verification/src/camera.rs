//! Camera control systems. What they do each frame works on floating-point
//! vectors and window events; here stand the system types themselves.
use vstd::prelude::*;

verus! {

/// Moves the active dolly camera closer and further on mouse wheel input.
#[derive(Debug, Default)]
pub struct DollyCameraControlSystem;

impl DollyCameraControlSystem {
    pub fn new() -> (r: Self)
        ensures
            r == DollyCameraControlSystem,
    {
        DollyCameraControlSystem
    }
}

/// Interpolates camera views towards their focus targets.
#[derive(Debug, Default)]
pub struct CameraDriftSystem;

impl CameraDriftSystem {
    pub fn new() -> (r: Self)
        ensures
            r == CameraDriftSystem,
    {
        CameraDriftSystem
    }
}

/// Marks a camera with grid based control.
#[derive(Debug)]
pub struct GridCamera;

impl GridCamera {
    pub fn new() -> (r: Self)
        ensures
            r == GridCamera,
    {
        GridCamera
    }
}

/// Moves the focus target of the active grid camera along the vertical
/// axis on page up and page down.
#[derive(Default)]
pub struct GridCameraControlSystem;

impl GridCameraControlSystem {
    pub fn new() -> (r: Self)
        ensures
            r == GridCameraControlSystem,
    {
        GridCameraControlSystem
    }
}

/// Updates all camera projections on window resize events.
pub struct CameraResizeSystem;

impl CameraResizeSystem {
    pub fn new() -> (r: Self)
        ensures
            r == CameraResizeSystem,
    {
        CameraResizeSystem
    }
}

} // verus!
