use vstd::prelude::*;

verus! {

/// The smallest unsigned integer type that can index into a detection window.
pub type WindowSize = u8;

/// An axis-aligned half-open box `[top_left, bot_right)`.
#[derive(Debug, Clone, Copy)]
pub struct Rectangle<T> {
    pub top_left: [T; 2],
    pub bot_right: [T; 2],
}

/// A rectangle inside the detection window.
pub type Window = Rectangle<WindowSize>;

/// The window rectangle with top-left corner `(x, y)`, width `w` and height `h`.
pub open spec fn rect(x: int, y: int, w: int, h: int) -> Window {
    Rectangle { top_left: [x as u8, y as u8], bot_right: [(x + w) as u8, (y + h) as u8] }
}

impl Rectangle<u8> {
    pub open spec fn x0(self) -> int {
        self.top_left[0] as int
    }

    pub open spec fn y0(self) -> int {
        self.top_left[1] as int
    }

    pub open spec fn x1(self) -> int {
        self.bot_right[0] as int
    }

    pub open spec fn y1(self) -> int {
        self.bot_right[1] as int
    }

    /// The half-open box `[x0, x1) x [y0, y1)` is non-empty and lies inside a
    /// `w` by `h` grid.
    pub open spec fn fits(self, w: int, h: int) -> bool {
        &&& self.x0() < self.x1() <= w
        &&& self.y0() < self.y1() <= h
    }

    /// Whether the rectangle is non-empty and inside a `w` by `h` window.
    pub fn fits_in(&self, w: u8, h: u8) -> (r: bool)
        ensures
            r == self.fits(w as int, h as int),
    {
        self.top_left[0] < self.bot_right[0] && self.bot_right[0] <= w && self.top_left[1]
            < self.bot_right[1] && self.bot_right[1] <= h
    }

    /// The rectangle with top-left corner `(x, y)`, width `w` and height `h`.
    pub fn new(x: u8, y: u8, w: u8, h: u8) -> (r: Rectangle<u8>)
        requires
            x + w <= u8::MAX,
            y + h <= u8::MAX,
        ensures
            r == rect(x as int, y as int, w as int, h as int),
            r.x0() == x,
            r.y0() == y,
            r.x1() == x + w,
            r.y1() == y + h,
    {
        Rectangle { top_left: [x, y], bot_right: [x + w, y + h] }
    }
}

impl Rectangle<u32> {
    /// The rectangle with top-left corner `(x, y)`, width `w` and height `h`.
    pub fn new(x: u32, y: u32, w: u32, h: u32) -> (r: Rectangle<u32>)
        requires
            x + w <= u32::MAX,
            y + h <= u32::MAX,
        ensures
            r == (Rectangle::<u32> { top_left: [x, y], bot_right: [(x + w) as u32, (y + h) as u32] }),
    {
        Rectangle { top_left: [x, y], bot_right: [x + w, y + h] }
    }
}

/// A Haar-like feature: the sum over the black rectangles minus the sum
/// over the white ones.
#[derive(Debug, Clone, Copy)]
pub struct Feature {
    pub black: (Window, Option<Window>),
    pub white: (Window, Option<Window>),
}

impl Feature {
    /// Every rectangle of the feature fits a `w` by `h` grid.
    pub open spec fn fits(self, w: int, h: int) -> bool {
        &&& self.black.0.fits(w, h)
        &&& self.white.0.fits(w, h)
        &&& (self.black.1 matches Some(r) ==> r.fits(w, h))
        &&& (self.white.1 matches Some(r) ==> r.fits(w, h))
    }

    /// Whether every rectangle of the feature is inside a `w` by `h` window.
    pub fn fits_in(&self, w: u8, h: u8) -> (r: bool)
        ensures
            r == self.fits(w as int, h as int),
    {
        let b1 = match &self.black.1 {
            Some(r) => r.fits_in(w, h),
            None => true,
        };
        let w1 = match &self.white.1 {
            Some(r) => r.fits_in(w, h),
            None => true,
        };
        self.black.0.fits_in(w, h) && self.white.0.fits_in(w, h) && b1 && w1
    }
}

} // verus!
