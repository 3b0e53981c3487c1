//! Screen rectangles, laid out as ratatui lays them out.

use vstd::prelude::*;

verus! {

/// A rectangle of terminal cells: its top-left corner and its size.
#[derive(Clone, Copy, Debug, PartialEq, Eq, Structural)]
pub struct Rect {
    pub x: u16,
    pub y: u16,
    pub width: u16,
    pub height: u16,
}

/// The rectangle that `Rect::new` builds: the size is clipped so that the
/// right and bottom edges stay within `u16`.
pub open spec fn rect_spec(x: u16, y: u16, width: u16, height: u16) -> Rect {
    Rect {
        x,
        y,
        width: if width > u16::MAX - x {
            (u16::MAX - x) as u16
        } else {
            width
        },
        height: if height > u16::MAX - y {
            (u16::MAX - y) as u16
        } else {
            height
        },
    }
}

impl Rect {
    /// A rectangle at (`x`, `y`) whose size is clipped to the `u16` plane.
    pub fn new(x: u16, y: u16, width: u16, height: u16) -> (r: Rect)
        ensures
            r == rect_spec(x, y, width, height),
    {
        let max_width = u16::MAX - x;
        let max_height = u16::MAX - y;
        let width = if width > max_width {
            max_width
        } else {
            width
        };
        let height = if height > max_height {
            max_height
        } else {
            height
        };
        Rect { x, y, width, height }
    }

    /// The column just right of the rectangle, saturating at `u16::MAX`.
    pub fn right(self) -> (r: u16)
        ensures
            r == (if self.x + self.width > u16::MAX {
                u16::MAX as int
            } else {
                self.x + self.width
            }),
    {
        self.x.saturating_add(self.width)
    }

    /// The row just below the rectangle, saturating at `u16::MAX`.
    pub fn bottom(self) -> (r: u16)
        ensures
            r == (if self.y + self.height > u16::MAX {
                u16::MAX as int
            } else {
                self.y + self.height
            }),
    {
        self.y.saturating_add(self.height)
    }
}

} // verus!
