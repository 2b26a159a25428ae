//! Integer pixel geometry. Coordinates are u32; an image dimension of 0 is
//! invalid everywhere in Craws, enforced by pipeline validation.

use vstd::prelude::*;

verus! {

/// Width × height in pixels.
#[derive(Debug, Clone, Copy, PartialEq, Eq, Hash, Structural)]
pub struct Size {
    pub width: u32,
    pub height: u32,
}

impl Size {
    pub fn new(width: u32, height: u32) -> (s: Size)
        ensures
            s.width == width,
            s.height == height,
    {
        Size { width, height }
    }

    /// Number of pixels, in u64 so that it never overflows.
    pub open spec fn spec_area(self) -> nat {
        (self.width * self.height) as nat
    }

    pub fn area(self) -> (a: u64)
        ensures
            a == self.spec_area(),
    {
        proof {
            assert(self.width * self.height <= u32::MAX * u32::MAX) by (nonlinear_arith)
                requires
                    self.width <= u32::MAX,
                    self.height <= u32::MAX,
            ;
        }
        self.width as u64 * self.height as u64
    }

    pub open spec fn spec_is_empty(self) -> bool {
        self.width == 0 || self.height == 0
    }

    pub fn is_empty(self) -> (b: bool)
        ensures
            b == self.spec_is_empty(),
    {
        self.width == 0 || self.height == 0
    }
}

/// Axis-aligned rectangle in image space (origin top-left).
#[derive(Debug, Clone, Copy, PartialEq, Eq, Hash, Structural)]
pub struct Rect {
    pub x: u32,
    pub y: u32,
    pub width: u32,
    pub height: u32,
}

impl Rect {
    pub fn new(x: u32, y: u32, width: u32, height: u32) -> (r: Rect)
        ensures
            r.x == x,
            r.y == y,
            r.width == width,
            r.height == height,
    {
        Rect { x, y, width, height }
    }

    pub open spec fn spec_size(self) -> Size {
        Size { width: self.width, height: self.height }
    }

    pub fn size(self) -> (s: Size)
        ensures
            s == self.spec_size(),
    {
        Size::new(self.width, self.height)
    }

    /// The rect is non-empty and lies fully inside an image of size `s`
    /// (measured in unbounded integers, so nothing wraps).
    pub open spec fn spec_fits_in(self, s: Size) -> bool {
        &&& !self.spec_size().spec_is_empty()
        &&& self.x + self.width <= s.width
        &&& self.y + self.height <= s.height
    }

    /// True when the rect lies fully inside an image of size `s`.
    /// Overflow-safe: compares in u64.
    pub fn fits_in(self, s: Size) -> (b: bool)
        ensures
            b == self.spec_fits_in(s),
    {
        !self.size().is_empty() && self.x as u64 + self.width as u64 <= s.width as u64
            && self.y as u64 + self.height as u64 <= s.height as u64
    }
}

} // verus!
