//! Map coordinates and the window of the map that is on screen.

use vstd::prelude::*;

verus! {

/// A cell on the map or on a console layer.
#[derive(Copy, Clone, Debug, PartialEq, Eq, Structural)]
pub struct Point {
    pub x: i32,
    pub y: i32,
}

/// The rectangle of the map that is currently shown, in map coordinates.
#[derive(Copy, Clone, Debug, PartialEq, Eq, Structural)]
pub struct Camera {
    pub left_x: i32,
    pub right_x: i32,
    pub top_y: i32,
    pub bottom_y: i32,
}

} // verus!
