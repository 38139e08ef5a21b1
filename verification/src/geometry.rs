//! Boxes, runs and icon groups: the plain values every stage passes on.
use vstd::prelude::*;

verus! {

/// An axis-aligned pixel box.
#[derive(Clone, Copy, Debug, PartialEq, Eq, Structural)]
pub struct Bbox {
    /// Left column.
    pub x: u32,
    /// Top row.
    pub y: u32,
    /// Width in pixels.
    pub w: u32,
    /// Height in pixels.
    pub h: u32,
}

impl Bbox {
    /// The column behind the last one.
    pub open spec fn right(&self) -> int {
        self.x + self.w
    }

    /// The row behind the last one.
    pub open spec fn bottom(&self) -> int {
        self.y + self.h
    }

    /// The box covers pixel `(x, y)`.
    pub open spec fn covers(&self, x: int, y: int) -> bool {
        self.x <= x < self.right() && self.y <= y < self.bottom()
    }

    /// The box lies on a `w` by `h` sheet and is not empty.
    pub open spec fn fits(&self, w: int, h: int) -> bool {
        &&& self.w > 0
        &&& self.h > 0
        &&& self.right() <= w
        &&& self.bottom() <= h
    }

    /// A box with a positive width and height; `None` for an empty one.
    pub fn new(x: u32, y: u32, w: u32, h: u32) -> (r: Option<Bbox>)
        ensures
            r == (if w > 0 && h > 0 {
                Some(Bbox { x, y, w, h })
            } else {
                None
            }),
    {
        if w > 0 && h > 0 {
            Some(Bbox { x, y, w, h })
        } else {
            None
        }
    }

    /// A box from its four numbers, empty or not.
    pub fn from_parts(x: u32, y: u32, w: u32, h: u32) -> (r: Bbox)
        ensures
            r == (Bbox { x, y, w, h }),
    {
        Bbox { x, y, w, h }
    }

    /// The box that covers nothing.
    pub fn empty() -> (r: Bbox)
        ensures
            r == (Bbox { x: 0, y: 0, w: 0, h: 0 }),
    {
        Bbox { x: 0, y: 0, w: 0, h: 0 }
    }

    /// True when the box covers no pixel.
    pub fn is_empty(&self) -> (r: bool)
        ensures
            r == (self.w == 0 || self.h == 0),
    {
        self.w == 0 || self.h == 0
    }

    /// The number of pixels covered.
    pub fn area(&self) -> (r: u64)
        ensures
            r == self.w * self.h,
    {
        assert(self.w * self.h <= 0xffff_ffff * 0xffff_ffff) by (nonlinear_arith)
            requires
                self.w <= 0xffff_ffff,
                self.h <= 0xffff_ffff,
        ;
        self.w as u64 * self.h as u64
    }
}

/// One horizontal stretch of ink: row `y`, columns `x_start..x_end`.
#[derive(Clone, Copy, Debug, PartialEq, Eq, Structural)]
pub struct RleRun {
    /// Row.
    pub y: u32,
    /// First column.
    pub x_start: u32,
    /// Column behind the last one.
    pub x_end: u32,
}

impl RleRun {
    /// The number of pixels in the run.
    pub fn len(&self) -> (r: u32)
        requires
            self.x_start <= self.x_end,
        ensures
            r == self.x_end - self.x_start,
    {
        self.x_end - self.x_start
    }
}

/// One connected piece of artwork: its tight box, its ink and one member pixel.
#[derive(Clone, Copy, Debug, PartialEq, Eq)]
pub struct IconGroup {
    /// The tight box around the ink.
    pub bbox: Bbox,
    /// The number of ink pixels.
    pub area: u32,
    /// A member pixel, as `(x, y)`.
    pub origin: (u32, u32),
}

} // verus!
