//! Screen layout arithmetic: where the grid sits on the terminal and
//! how large a grid the terminal can hold.  The terminal itself is
//! driven outside the library, which only receives its size.

use vstd::prelude::*;

verus! {

/// The narrowest grid the status line above it still fits over.
pub const MIN_GRID_WIDTH: u16 = 12;

/// The lowest grid the status line above it still fits over.
pub const MIN_GRID_HEIGHT: u16 = 11;

/// The placement of the grid on the terminal.  Every tile is drawn two
/// characters wide, so x coordinates are doubled on screen.
pub struct Screen {
    pub width: u16,
    pub x_adjust: u16,
    pub y_adjust: u16,
}

impl Screen {
    /// The layout leaves room for the doubled grid width left of the
    /// right screen edge.
    pub open spec fn wf(self) -> bool {
        self.x_adjust + 2 * self.width <= u16::MAX
    }

    /// Computes the adjustments that center a grid of the given size on
    /// a terminal of `cols` by `rows` characters.
    pub fn new(width: u16, height: u16, cols: u16, rows: u16) -> (s: Screen)
        requires
            2 * width <= cols,
            1 <= height <= rows,
        ensures
            s.wf(),
            s.width == width,
            s.x_adjust == (cols - 2 * width) / 2,
            s.y_adjust == (rows - height + 1) / 2,
    {
        let x_adjust = (cols - width * 2) / 2;
        let y_adjust = (rows - height + 1) / 2;
        Screen { width, x_adjust, y_adjust }
    }

    pub fn width(&self) -> (r: u16)
        ensures
            r == self.width,
    {
        self.width
    }

    pub fn x_adjust(&self) -> (r: u16)
        ensures
            r == self.x_adjust,
    {
        self.x_adjust
    }

    pub fn y_adjust(&self) -> (r: u16)
        ensures
            r == self.y_adjust,
    {
        self.y_adjust
    }

    /// The column where a right-aligned text of the given length
    /// starts: flush with the grid's right edge.
    pub fn text_right_x(&self, len: u16) -> (r: u16)
        requires
            self.wf(),
            len <= 2 * self.width,
        ensures
            r == self.x_adjust + 2 * self.width - len,
    {
        self.x_adjust + self.width * 2 - len
    }
}

/// The largest grid a terminal of `cols` by `rows` characters can hold:
/// tiles are two characters wide, and one row is kept for the status
/// line.
pub fn max_grid_size(cols: u16, rows: u16) -> (r: (u16, u16))
    requires
        rows >= 1,
    ensures
        r.0 == cols / 2,
        r.1 == rows - 1,
{
    (cols / 2, rows - 1)
}

} // verus!
