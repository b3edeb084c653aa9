//! Screen rectangles and mouse events, as plain values.
//!
//! Cells are addressed by `u16` columns and rows. A rectangle is its top
//! left cell and its size; it covers the columns `x .. x + width` and
//! the rows `y .. y + height`.

use vstd::prelude::*;

verus! {

/// A rectangle of screen cells.
#[derive(Clone, Copy, Debug, PartialEq, Eq, Hash, Structural)]
pub struct Rect {
    pub x: u16,
    pub y: u16,
    pub width: u16,
    pub height: u16,
}

/// `a - b`, or 0 where that would be negative.
pub open spec fn sat_sub(a: int, b: int) -> int {
    if a > b { a - b } else { 0 }
}

/// `a + b`, or `u16::MAX` where that would not fit in a `u16`.
pub open spec fn sat_add_u16(a: int, b: int) -> int {
    if a + b > u16::MAX { u16::MAX as int } else { a + b }
}

pub open spec fn min(a: int, b: int) -> int {
    if a <= b { a } else { b }
}

pub open spec fn max(a: int, b: int) -> int {
    if a >= b { a } else { b }
}

impl Rect {
    /// The rectangle lies wholly on the `u16` plane: its right and bottom
    /// edges do not pass `u16::MAX`. [`Rect::new`] always makes one.
    pub open spec fn wf(self) -> bool {
        &&& self.x + self.width <= u16::MAX
        &&& self.y + self.height <= u16::MAX
    }

    /// The first column right of the rectangle, saturating at `u16::MAX`.
    pub open spec fn right_edge(self) -> int {
        sat_add_u16(self.x as int, self.width as int)
    }

    /// The first row below the rectangle, saturating at `u16::MAX`.
    pub open spec fn bottom_edge(self) -> int {
        sat_add_u16(self.y as int, self.height as int)
    }

    /// The cell at column `x`, row `y` lies inside the rectangle.
    pub open spec fn holds(self, x: int, y: int) -> bool {
        &&& self.x <= x < self.right_edge()
        &&& self.y <= y < self.bottom_edge()
    }

    /// A rectangle at `(x, y)` of the given size, with the size cut down
    /// so that the rectangle stays on the `u16` plane.
    pub fn new(x: u16, y: u16, width: u16, height: u16) -> (r: Rect)
        ensures
            r.x == x,
            r.y == y,
            r.width == min(width as int, u16::MAX - x),
            r.height == min(height as int, u16::MAX - y),
            r.wf(),
    {
        ratatui_rect_new(x, y, width, height)
    }

    /// The first row below the rectangle, saturating at `u16::MAX`.
    pub fn bottom(self) -> (b: u16)
        ensures
            b == self.bottom_edge(),
    {
        ratatui_rect_bottom(self)
    }

    /// Whether the cell at column `x`, row `y` lies inside the rectangle.
    pub fn contains(self, x: u16, y: u16) -> (b: bool)
        ensures
            b == self.holds(x as int, y as int),
    {
        ratatui_rect_contains(self, x, y)
    }
}

/// Builds the rectangle with `ratatui::layout::Rect::new`, which cuts the
/// width down to `u16::MAX - x` and the height down to `u16::MAX - y`.
#[verifier::external_body]
fn ratatui_rect_new(x: u16, y: u16, width: u16, height: u16) -> (r: Rect)
    ensures
        r.x == x,
        r.y == y,
        r.width == min(width as int, u16::MAX - x),
        r.height == min(height as int, u16::MAX - y),
{
    let r: ratatui::layout::Rect = ratatui::layout::Rect::new(x, y, width, height);
    Rect { x: r.x, y: r.y, width: r.width, height: r.height }
}

/// `ratatui::layout::Rect::bottom`: `y + height`, saturating at `u16::MAX`.
#[verifier::external_body]
fn ratatui_rect_bottom(r: Rect) -> (b: u16)
    ensures
        b == r.bottom_edge(),
{
    ratatui::layout::Rect { x: r.x, y: r.y, width: r.width, height: r.height }.bottom()
}

/// `ratatui::layout::Rect::contains`: the position is at or right of `x`
/// and left of `right()`, at or below `y` and above `bottom()`, where
/// `right()` and `bottom()` saturate at `u16::MAX`.
#[verifier::external_body]
fn ratatui_rect_contains(r: Rect, x: u16, y: u16) -> (b: bool)
    ensures
        b == r.holds(x as int, y as int),
{
    ratatui::layout::Rect { x: r.x, y: r.y, width: r.width, height: r.height }.contains(
        ratatui::layout::Position::new(x, y),
    )
}

/// A mouse button.
#[derive(Clone, Copy, Debug, PartialEq, Eq, Hash, Structural)]
pub enum MouseButton {
    Left,
    Right,
    Middle,
}

/// What a mouse did.
#[derive(Clone, Copy, Debug, PartialEq, Eq, Hash, Structural)]
pub enum MouseEventKind {
    Down(MouseButton),
    Up(MouseButton),
    Drag(MouseButton),
    Moved,
    ScrollDown,
    ScrollUp,
    ScrollLeft,
    ScrollRight,
}

/// A mouse event at a cell.
#[derive(Clone, Copy, Debug, PartialEq, Eq, Hash, Structural)]
pub struct MouseEvent {
    pub kind: MouseEventKind,
    pub column: u16,
    pub row: u16,
}

} // verus!
