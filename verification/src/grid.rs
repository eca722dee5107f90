//! The map grid.
//!
//! The world is a plain rectangular grid seen from a slight angle. One
//! cell is 16 x 11 screen pixels. Sprites are anchored on the bottom-right
//! pixel of the cell their hotspot occupies.
use vstd::prelude::*;
use crate::config::Grid;

verus! {

#[derive(Clone, Copy, Debug, PartialEq, Eq, Hash, PartialOrd, Ord, Structural)]
pub struct Cell {
    pub x: i32,
    pub y: i32,
}

/// A cell shifted by `(dx, dy)` stays on the `i32` grid.
pub open spec fn offset_fits(c: Cell, dx: int, dy: int) -> bool {
    i32::MIN <= c.x + dx <= i32::MAX && i32::MIN <= c.y + dy <= i32::MAX
}

pub open spec fn cell_at(x: int, y: int) -> Cell {
    Cell { x: x as i32, y: y as i32 }
}

impl Cell {
    pub fn new(x: i32, y: i32) -> (c: Cell)
        ensures
            c.x == x,
            c.y == y,
    {
        Cell { x, y }
    }

    pub fn offset(self, dx: i32, dy: i32) -> (c: Cell)
        requires
            offset_fits(self, dx as int, dy as int),
        ensures
            c.x == self.x + dx,
            c.y == self.y + dy,
    {
        Cell { x: self.x + dx, y: self.y + dy }
    }

    /// Screen-space position (x right, y down) of the cell's top-left pixel.
    pub fn top_left_px(self, g: &Grid) -> (p: (i32, i32))
        requires
            i32::MIN <= self.x * g.cell_w <= i32::MAX,
            i32::MIN <= self.y * g.cell_h <= i32::MAX,
        ensures
            p.0 == self.x * g.cell_w,
            p.1 == self.y * g.cell_h,
    {
        (self.x * g.cell_w, self.y * g.cell_h)
    }

    /// Screen-space position of the cell's centre pixel.
    pub fn centre_px(self, g: &Grid) -> (p: (i32, i32))
        requires
            i32::MIN <= self.x * g.cell_w + trunc_half(g.cell_w as int) <= i32::MAX,
            i32::MIN <= self.y * g.cell_h + trunc_half(g.cell_h as int) <= i32::MAX,
            i32::MIN <= self.x * g.cell_w <= i32::MAX,
            i32::MIN <= self.y * g.cell_h <= i32::MAX,
        ensures
            p.0 == self.x * g.cell_w + trunc_half(g.cell_w as int),
            p.1 == self.y * g.cell_h + trunc_half(g.cell_h as int),
    {
        (self.x * g.cell_w + g.cell_w / 2, self.y * g.cell_h + g.cell_h / 2)
    }

    /// Screen-space position of the cell's bottom-right pixel, where
    /// sprites with a default hotspot are anchored.
    pub fn hotspot_px(self, g: &Grid) -> (p: (i32, i32))
        requires
            i32::MIN <= self.x * g.cell_w + g.cell_w - 1 <= i32::MAX,
            i32::MIN <= self.y * g.cell_h + g.cell_h - 1 <= i32::MAX,
            i32::MIN <= self.x * g.cell_w <= i32::MAX,
            i32::MIN <= self.y * g.cell_h <= i32::MAX,
            i32::MIN <= self.x * g.cell_w + g.cell_w <= i32::MAX,
            i32::MIN <= self.y * g.cell_h + g.cell_h <= i32::MAX,
        ensures
            p.0 == self.x * g.cell_w + g.cell_w - 1,
            p.1 == self.y * g.cell_h + g.cell_h - 1,
    {
        (self.x * g.cell_w + g.cell_w - 1, self.y * g.cell_h + g.cell_h - 1)
    }
}

/// Half of `a`, rounded towards zero as Rust's `/` does.
pub open spec fn trunc_half(a: int) -> int {
    if a >= 0 { a / 2 } else { -((-a) / 2) }
}

} // verus!
