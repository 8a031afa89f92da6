//! The rectangle of the window that is drawn to.

use vstd::prelude::*;

verus! {

/// A drawing rectangle: its lower left corner and its size, in pixels.
#[derive(Debug, Clone, Copy, PartialEq, Eq, Structural)]
pub struct Viewport {
    pub x: i32,
    pub y: i32,
    pub width: i32,
    pub height: i32,
}

impl Viewport {
    /// A viewport of the given size whose corner is the origin.
    pub fn make_viewport(width: i32, height: i32) -> (viewport: Self)
        ensures
            viewport == (Viewport { x: 0, y: 0, width, height }),
    {
        Viewport { x: 0, y: 0, width, height }
    }

    /// Gives the viewport a new size and leaves its corner where it is.
    pub fn update_size(&mut self, width: i32, height: i32)
        ensures
            *final(self) == (Viewport { width, height, ..*old(self) }),
    {
        self.width = width;
        self.height = height;
    }
}

} // verus!
