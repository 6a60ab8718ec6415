//! What a player can ask of the camera and of the spacecraft.

use vstd::prelude::*;

verus! {

/// Camera zoom direction
#[derive(Clone, Copy, Debug, PartialEq, Eq, Structural)]
pub enum CameraZoomDirection {
    /// Towards the scene
    In,
    /// Away from the scene
    Out,
}

/// Spacecraft acceleration direction
#[derive(Clone, Copy, Debug, PartialEq, Eq, Structural)]
pub enum SpacecraftAccelerationDirection {
    /// Along the heading
    Forward,
    /// Against the heading
    Backward,
}

/// Spacecraft incline direction
#[derive(Clone, Copy, Debug, PartialEq, Eq, Structural)]
pub enum SpacecraftInclineDirection {
    /// Counter-clockwise
    Left,
    /// Clockwise
    Right,
}

} // verus!
