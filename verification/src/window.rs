//! Logical window geometry, handed to the embedding window shell.

use vstd::prelude::*;

verus! {

/// The logical size of an application window.
#[derive(Default, Debug, Clone, Copy, PartialEq, Eq, Structural)]
pub struct WindowSize {
    /// The width of the window.
    pub width: u32,
    /// The height of the window.
    pub height: u32,
}

impl WindowSize {
    /// Creates a new window size.
    pub fn new(width: u32, height: u32) -> (s: WindowSize)
        ensures
            s.width == width,
            s.height == height,
    {
        WindowSize { width, height }
    }
}

impl From<(u32, u32)> for WindowSize {
    fn from(s: (u32, u32)) -> (r: Self) {
        WindowSize { width: s.0, height: s.1 }
    }
}

impl vstd::std_specs::convert::FromSpecImpl<(u32, u32)> for WindowSize {
    open spec fn obeys_from_spec() -> bool {
        true
    }

    open spec fn from_spec(s: (u32, u32)) -> Self {
        WindowSize { width: s.0, height: s.1 }
    }
}

/// The logical position of a window in screen coordinates.
#[derive(Default, Debug, Clone, Copy, PartialEq, Eq, Structural)]
pub struct WindowPosition {
    /// The x coordinate of the position.
    pub x: u32,
    /// The y coordinate of the position.
    pub y: u32,
}

impl WindowPosition {
    /// Creates a new window position.
    pub fn new(x: u32, y: u32) -> (p: WindowPosition)
        ensures
            p.x == x,
            p.y == y,
    {
        WindowPosition { x, y }
    }
}

impl From<(u32, u32)> for WindowPosition {
    fn from(s: (u32, u32)) -> (r: Self) {
        WindowPosition { x: s.0, y: s.1 }
    }
}

impl vstd::std_specs::convert::FromSpecImpl<(u32, u32)> for WindowPosition {
    open spec fn obeys_from_spec() -> bool {
        true
    }

    open spec fn from_spec(s: (u32, u32)) -> Self {
        WindowPosition { x: s.0, y: s.1 }
    }
}

} // verus!
