//! The table and its walls.

use vstd::prelude::*;
use crate::fixed::BALL_SIZE;

verus! {

/// Larger than any coordinate of a table's walls. It leaves room below
/// `COORD_MAX` for a ball to overshoot a wall within one tick.
pub const TABLE_MAX: i64 = 0x80_0000_0000;

/// One wall of the table, with the coordinate at which a ball's position is
/// stopped: `y` for the north and south walls, `x` for the east and west.
#[derive(Clone, Copy, Debug)]
pub enum Wall {
    North(i64),
    East(i64),
    South(i64),
    West(i64),
}

/// The rectangle within which a ball's position may lie.
pub struct Bounds {
    pub left: int,
    pub right: int,
    pub top: int,
    pub bottom: int,
}

impl Bounds {
    /// The position `(x, y)` lies within the rectangle, its edges included.
    pub open spec fn contains(self, x: int, y: int) -> bool {
        self.left <= x <= self.right && self.top <= y <= self.bottom
    }
}

/// The playing field: an axis-aligned rectangle given by its top-left corner
/// and its size.
#[derive(Clone, Copy, Debug)]
pub struct Table {
    pub left: i64,
    pub top: i64,
    pub width: i64,
    pub height: i64,
}

impl View for Table {
    type V = Bounds;

    /// The bounds for a ball's position. A position is the top-left corner of
    /// the ball's bounding square, so the right and bottom bounds lie one
    /// diameter inside the field's edges.
    open spec fn view(&self) -> Bounds {
        Bounds {
            left: self.left as int,
            right: self.left + self.width - 2 * BALL_SIZE,
            top: self.top as int,
            bottom: self.top + self.height - 2 * BALL_SIZE,
        }
    }
}

impl Table {
    /// The field holds at least one ball, and its walls lie within
    /// `TABLE_MAX` of the origin.
    pub open spec fn wf(&self) -> bool {
        &&& -TABLE_MAX <= self.left
        &&& -TABLE_MAX <= self.top
        &&& 2 * BALL_SIZE <= self.width
        &&& 2 * BALL_SIZE <= self.height
        &&& self.left + self.width - 2 * BALL_SIZE <= TABLE_MAX
        &&& self.top + self.height - 2 * BALL_SIZE <= TABLE_MAX
    }

    /// Whether the field is well formed.
    pub fn is_wf(&self) -> (ok: bool)
        ensures
            ok == self.wf(),
    {
        -TABLE_MAX <= self.left && self.left <= TABLE_MAX && -TABLE_MAX <= self.top && self.top
            <= TABLE_MAX && 2 * BALL_SIZE <= self.width && self.width <= 2 * TABLE_MAX + 2
            * BALL_SIZE && 2 * BALL_SIZE <= self.height && self.height <= 2 * TABLE_MAX + 2
            * BALL_SIZE && self.left + self.width - 2 * BALL_SIZE <= TABLE_MAX && self.top
            + self.height - 2 * BALL_SIZE <= TABLE_MAX
    }

    /// A field inset by `border` on every side of a window of the given
    /// size, or `None` where such a field could not hold a ball or would
    /// reach beyond `TABLE_MAX`.
    pub fn new(window_width: i64, window_height: i64, border: i64) -> (table: Option<Table>)
        ensures
            table matches Some(t) ==> t.wf() && t.left == border && t.top == border && t.width
                == window_width - 2 * border && t.height == window_height - 2 * border,
            table is Some <==> Self::fits(window_width as int, window_height as int, border as int),
    {
        if border < 0 || border > TABLE_MAX || window_width < 0 || window_width > 4 * TABLE_MAX
            || window_height < 0 || window_height > 4 * TABLE_MAX {
            return None;
        }
        let width: i64 = window_width - 2 * border;
        let height: i64 = window_height - 2 * border;
        if width < 2 * BALL_SIZE || height < 2 * BALL_SIZE {
            return None;
        }
        if border + width - 2 * BALL_SIZE > TABLE_MAX || border + height - 2 * BALL_SIZE
            > TABLE_MAX {
            return None;
        }
        Some(Table { left: border, top: border, width, height })
    }

    /// A window of this size, less a border on every side, leaves a field
    /// that is well formed.
    pub open spec fn fits(window_width: int, window_height: int, border: int) -> bool {
        &&& 0 <= border
        &&& 2 * BALL_SIZE <= window_width - 2 * border
        &&& 2 * BALL_SIZE <= window_height - 2 * border
        &&& window_width - border - 2 * BALL_SIZE <= TABLE_MAX
        &&& window_height - border - 2 * BALL_SIZE <= TABLE_MAX
    }

    pub fn top_wall(&self) -> (y: i64)
        requires
            self.wf(),
        ensures
            y == self@.top,
    {
        self.top
    }

    pub fn bottom_wall(&self) -> (y: i64)
        requires
            self.wf(),
        ensures
            y == self@.bottom,
    {
        self.top + self.height - 2 * BALL_SIZE
    }

    pub fn left_wall(&self) -> (x: i64)
        requires
            self.wf(),
        ensures
            x == self@.left,
    {
        self.left
    }

    pub fn right_wall(&self) -> (x: i64)
        requires
            self.wf(),
        ensures
            x == self@.right,
    {
        self.left + self.width - 2 * BALL_SIZE
    }
}

} // verus!
