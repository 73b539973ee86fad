//! Sizes in cells and pixels, split directions and the payload of a split.

use vstd::prelude::*;

verus! {

/// The interior area of a pane or of a whole tab: a number of cell rows and
/// columns and the same area in pixels.
#[derive(Debug, Clone, Copy, PartialEq, Eq, Structural)]
pub struct PtySize {
    pub rows: u16,
    pub cols: u16,
    pub pixel_width: u16,
    pub pixel_height: u16,
}

/// `Horizontal` places the two children side by side (the divider is a
/// vertical line); `Vertical` stacks them (the divider is a horizontal line).
#[derive(Debug, Clone, Copy, PartialEq, Eq, Structural)]
pub enum SplitDirection {
    Horizontal,
    Vertical,
}

/// The payload of a split: its direction, the offset of its bounding box
/// relative to the box that contains it, and the sizes of its two children.
#[derive(Debug, Clone, Copy, PartialEq, Eq, Structural)]
pub struct SplitDirectionAndSize {
    pub direction: SplitDirection,
    pub left: usize,
    pub top: usize,
    pub first: PtySize,
    pub second: PtySize,
}

/// A divider line in absolute cell coordinates of the tab.
#[derive(Debug, Clone, Copy, PartialEq, Eq, Structural)]
pub struct PositionedSplit {
    /// Position of the split among the splits of the tab, in pre-order.
    pub index: usize,
    pub direction: SplitDirection,
    pub left: usize,
    pub top: usize,
    /// Height of the line for a horizontal split, width for a vertical one.
    pub size: usize,
}

/// Pixels per cell along one axis: the truncated quotient, and 0 where
/// there is no cell.
pub open spec fn cell_extent(pixels: u16, cells: u16) -> u16 {
    if cells == 0 {
        0
    } else {
        (pixels / cells) as u16
    }
}

/// Pixels per cell along one axis: the truncated quotient, and 0 where
/// there is no cell.
pub fn cell_extent_of(pixels: u16, cells: u16) -> (e: u16)
    ensures
        e == cell_extent(pixels, cells),
        e * cells <= pixels,
{
    if cells == 0 {
        0
    } else {
        let e: u16 = pixels / cells;
        assert(e * cells <= pixels) by (nonlinear_arith)
            requires
                e == pixels / cells,
                cells > 0,
        ;
        e
    }
}

impl PtySize {
    /// The width of one cell in pixels.
    pub open spec fn cell_width(self) -> u16 {
        cell_extent(self.pixel_width, self.cols)
    }

    /// The height of one cell in pixels.
    pub open spec fn cell_height(self) -> u16 {
        cell_extent(self.pixel_height, self.rows)
    }
}

impl SplitDirectionAndSize {
    /// Columns covered by the split: both children and the divider between
    /// them for a horizontal split, the common width for a vertical one.
    pub open spec fn spec_width(self) -> int {
        if self.direction == SplitDirection::Horizontal {
            self.first.cols + self.second.cols + 1
        } else {
            self.first.cols as int
        }
    }

    /// Rows covered by the split.
    pub open spec fn spec_height(self) -> int {
        if self.direction == SplitDirection::Vertical {
            self.first.rows + self.second.rows + 1
        } else {
            self.first.rows as int
        }
    }

    /// The width is defined: both children and the divider fit in a cell
    /// counter if they lie side by side, and the children are equally wide
    /// if they are stacked.
    pub open spec fn width_defined(self) -> bool {
        match self.direction {
            SplitDirection::Horizontal => self.first.cols + self.second.cols + 1 <= u16::MAX,
            SplitDirection::Vertical => self.first.cols == self.second.cols,
        }
    }

    /// The height is defined: both children and the divider fit in a cell
    /// counter if they are stacked, and the children are equally high if
    /// they lie side by side.
    pub open spec fn height_defined(self) -> bool {
        match self.direction {
            SplitDirection::Horizontal => self.first.rows == self.second.rows,
            SplitDirection::Vertical => self.first.rows + self.second.rows + 1 <= u16::MAX,
        }
    }

    /// The sizes of the two children go together: width and height are
    /// defined.
    pub open spec fn consistent(self) -> bool {
        self.width_defined() && self.height_defined()
    }

    /// Whether the width is defined.
    pub fn is_width_defined(&self) -> (b: bool)
        ensures
            b == self.width_defined(),
    {
        match self.direction {
            SplitDirection::Horizontal => self.first.cols < u16::MAX - self.second.cols,
            SplitDirection::Vertical => self.first.cols == self.second.cols,
        }
    }

    /// Whether the height is defined.
    pub fn is_height_defined(&self) -> (b: bool)
        ensures
            b == self.height_defined(),
    {
        match self.direction {
            SplitDirection::Horizontal => self.first.rows == self.second.rows,
            SplitDirection::Vertical => self.first.rows < u16::MAX - self.second.rows,
        }
    }

    /// Whether the sizes of the two children go together.
    pub fn is_consistent(&self) -> (b: bool)
        ensures
            b == self.consistent(),
    {
        self.is_width_defined() && self.is_height_defined()
    }

    /// The columns that the split covers.
    pub fn width(&self) -> (w: u16)
        requires
            self.width_defined(),
        ensures
            w == self.spec_width(),
    {
        match self.direction {
            SplitDirection::Horizontal => self.first.cols + self.second.cols + 1,
            SplitDirection::Vertical => self.first.cols,
        }
    }

    /// The rows that the split covers.
    pub fn height(&self) -> (h: u16)
        requires
            self.height_defined(),
        ensures
            h == self.spec_height(),
    {
        match self.direction {
            SplitDirection::Vertical => self.first.rows + self.second.rows + 1,
            SplitDirection::Horizontal => self.first.rows,
        }
    }
}

} // verus!
