//! The geometry of a tree of splits: the cell rectangle that each pane and
//! each divider occupies, when a tree fits its area, and how an area is
//! redistributed over it.

use crate::bintree::Tree;
use crate::pane::{Pane, PaneError};
use crate::size::{PtySize, SplitDirection, SplitDirectionAndSize};
use std::rc::Rc;
use vstd::prelude::*;

verus! {

/// The place of a pane: its top left corner in cells of the tab, the offset
/// of that corner from the corner of the split that holds the pane, and its
/// size.
#[derive(Clone, Copy)]
pub struct Slot {
    pub left: usize,
    pub top: usize,
    pub off_left: usize,
    pub off_top: usize,
    pub size: PtySize,
}

/// The place of a divider: the split's direction, the top left cell of the
/// line and its length in cells.
#[derive(Clone, Copy)]
pub struct Line {
    pub direction: SplitDirection,
    pub left: usize,
    pub top: usize,
    pub length: usize,
}

impl SplitDirectionAndSize {
    /// Columns from the left edge of the split to the left edge of its
    /// second child.
    pub open spec fn shift_left(self) -> int {
        match self.direction {
            SplitDirection::Horizontal => self.first.cols + 1,
            SplitDirection::Vertical => 0,
        }
    }

    /// Rows from the top edge of the split to the top edge of its second
    /// child.
    pub open spec fn shift_top(self) -> int {
        match self.direction {
            SplitDirection::Horizontal => 0,
            SplitDirection::Vertical => self.first.rows + 1,
        }
    }

    /// The divider of a split whose top left corner is at `left`, `top`.
    pub open spec fn divider(self, left: int, top: int) -> Line {
        match self.direction {
            SplitDirection::Horizontal => Line {
                direction: self.direction,
                left: clip(left + self.first.cols) as usize,
                top: top as usize,
                length: self.first.rows as usize,
            },
            SplitDirection::Vertical => Line {
                direction: self.direction,
                left: left as usize,
                top: clip(top + self.first.rows) as usize,
                length: self.first.cols as usize,
            },
        }
    }

    /// The split sits in an area of `rows` by `cols` cells: each child has
    /// all of the axis that is not split, and on the axis that is split the
    /// two children and the divider of one cell add up to the area; where
    /// the area has no cell on that axis, neither child has one.
    pub open spec fn seated(self, rows: int, cols: int) -> bool {
        match self.direction {
            SplitDirection::Horizontal => {
                &&& self.first.rows == rows
                &&& self.second.rows == rows
                &&& self.absorbs(rows, cols)
                &&& self.second.cols == rest(cols, self.first.cols as int)
            },
            SplitDirection::Vertical => {
                &&& self.first.cols == cols
                &&& self.second.cols == cols
                &&& self.absorbs(rows, cols)
                &&& self.second.rows == rest(rows, self.first.rows as int)
            },
        }
    }

    /// The split can be given `rows` by `cols` cells without taking cells
    /// from its first child on the axis that is split: there is a cell for
    /// the divider beside the first child, or neither the area nor the
    /// first child has a cell on that axis.
    pub open spec fn absorbs(self, rows: int, cols: int) -> bool {
        match self.direction {
            SplitDirection::Horizontal => self.first.cols + 1 <= cols || (self.first.cols == 0
                && cols == 0),
            SplitDirection::Vertical => self.first.rows + 1 <= rows || (self.first.rows == 0
                && rows == 0),
        }
    }

    /// The split after it has been given `rows` by `cols` cells: the first
    /// child keeps its extent on the axis that is split, the second takes
    /// what is left beside the divider, both take the whole other axis.
    pub open spec fn resized(
        self,
        rows: int,
        cols: int,
        cell_width: u16,
        cell_height: u16,
    ) -> Self {
        match self.direction {
            SplitDirection::Horizontal => SplitDirectionAndSize {
                direction: self.direction,
                left: self.left,
                top: self.top,
                first: sized(rows, self.first.cols as int, cell_width, cell_height),
                second: sized(
                    rows,
                    rest(cols, self.first.cols as int),
                    cell_width,
                    cell_height,
                ),
            },
            SplitDirection::Vertical => SplitDirectionAndSize {
                direction: self.direction,
                left: self.left,
                top: self.top,
                first: sized(self.first.rows as int, cols, cell_width, cell_height),
                second: sized(
                    rest(rows, self.first.rows as int),
                    cols,
                    cell_width,
                    cell_height,
                ),
            },
        }
    }
}

/// A position in cells, kept within what a position can hold.
pub open spec fn clip(x: int) -> int {
    if x > usize::MAX {
        usize::MAX as int
    } else {
        x
    }
}

/// The cells that are left of `total` beside a first child of `first`
/// cells and the divider of one cell: none where there is no room for
/// both.
pub open spec fn rest(total: int, first: int) -> int {
    if total >= first + 1 {
        total - first - 1
    } else {
        0
    }
}

/// The sum of two positions, kept within what a position can hold.
pub fn add_clipped(a: usize, b: usize) -> (r: usize)
    ensures
        r == clip(a + b),
{
    if a > usize::MAX - b {
        usize::MAX
    } else {
        a + b
    }
}

/// A size of `rows` by `cols` cells with the pixels that cells of the given
/// extent cover.
pub open spec fn sized(rows: int, cols: int, cell_width: u16, cell_height: u16) -> PtySize {
    PtySize {
        rows: rows as u16,
        cols: cols as u16,
        pixel_width: (cols * cell_width) as u16,
        pixel_height: (rows * cell_height) as u16,
    }
}

/// The two parts that `dim` cells are split into, with one cell between
/// them for the divider where there is room for it.
pub open spec fn split_dimension(dim: int) -> (int, int) {
    let half = dim / 2;
    if half * 2 == dim {
        (half, if half == 0 { 0 } else { half - 1 })
    } else {
        (half, half)
    }
}

/// The split that divides a pane of `size` at `left`, `top` in `direction`.
pub open spec fn split_of(
    direction: SplitDirection,
    left: int,
    top: int,
    size: PtySize,
    cell_width: u16,
    cell_height: u16,
) -> SplitDirectionAndSize {
    let (first_cols, second_cols) = match direction {
        SplitDirection::Horizontal => split_dimension(size.cols as int),
        SplitDirection::Vertical => (size.cols as int, size.cols as int),
    };
    let (first_rows, second_rows) = match direction {
        SplitDirection::Horizontal => (size.rows as int, size.rows as int),
        SplitDirection::Vertical => split_dimension(size.rows as int),
    };
    SplitDirectionAndSize {
        direction,
        left: left as usize,
        top: top as usize,
        first: sized(first_rows, first_cols, cell_width, cell_height),
        second: sized(second_rows, second_cols, cell_width, cell_height),
    }
}

/// A size of `rows` by `cols` cells, with its pixels.
pub fn size_of(rows: u16, cols: u16, cell_width: u16, cell_height: u16) -> (size: PtySize)
    requires
        cols * cell_width <= u16::MAX,
        rows * cell_height <= u16::MAX,
    ensures
        size == sized(rows as int, cols as int, cell_width, cell_height),
{
    PtySize {
        rows,
        cols,
        pixel_width: cols * cell_width,
        pixel_height: rows * cell_height,
    }
}

/// Halves a dimension for a split: the second part gives a cell to the
/// divider where the dimension is even.
pub fn halves(dim: u16) -> (parts: (u16, u16))
    ensures
        (parts.0 as int, parts.1 as int) == split_dimension(dim as int),
        parts.0 <= dim,
        parts.1 <= dim,
        dim > 0 ==> parts.0 + parts.1 + 1 == dim,
{
    let half: u16 = dim / 2;
    if half * 2 == dim {
        (half, if half == 0 { 0 } else { half - 1 })
    } else {
        (half, half)
    }
}

/// For smaller counts of cells the pixels still fit.
pub proof fn lemma_scale_le(a: int, b: int, cell: int, max: int)
    requires
        0 <= a <= b,
        0 <= cell,
        b * cell <= max,
    ensures
        a * cell <= max,
{
    assert(a * cell <= b * cell) by (nonlinear_arith)
        requires
            0 <= a <= b,
            0 <= cell,
    ;
}

impl<L> Tree<L, SplitDirectionAndSize> {
    /// The tree fits an area of `rows` by `cols` cells whose corner lies
    /// `off_left`, `off_top` from the corner of the split around it: every
    /// split sits in the area it is given, hands to each child the area it
    /// records for it, and records its offset.
    pub open spec fn fits(self, off_left: int, off_top: int, rows: int, cols: int) -> bool
        decreases self,
    {
        match self {
            Tree::Empty => false,
            Tree::Leaf(l) => true,
            Tree::Node { left, right, data } => {
                &&& data matches Some(d)
                &&& d.left == off_left
                &&& d.top == off_top
                &&& d.seated(rows, cols)
                &&& left.fits(0, 0, d.first.rows as int, d.first.cols as int)
                &&& right.fits(
                    d.shift_left(),
                    d.shift_top(),
                    d.second.rows as int,
                    d.second.cols as int,
                )
            },
        }
    }

    /// Every split of a tree that is given `rows` by `cols` cells has a
    /// cell for its divider: its area has at least one cell on the axis
    /// that it splits.
    pub open spec fn roomy(self, rows: int, cols: int) -> bool
        decreases self,
    {
        match self {
            Tree::Empty => true,
            Tree::Leaf(l) => true,
            Tree::Node { left, right, data } => match data {
                Some(d) => {
                    &&& match d.direction {
                        SplitDirection::Horizontal => cols >= 1,
                        SplitDirection::Vertical => rows >= 1,
                    }
                    &&& left.roomy(d.first.rows as int, d.first.cols as int)
                    &&& right.roomy(d.second.rows as int, d.second.cols as int)
                },
                None => false,
            },
        }
    }

    /// The panes in pre-order, each with the size that its parent records
    /// for it, and `size` for a pane that is the root.
    pub open spec fn notes(self, size: PtySize) -> Seq<(L, PtySize)>
        decreases self,
    {
        match self {
            Tree::Empty => Seq::empty(),
            Tree::Leaf(l) => seq![(l, size)],
            Tree::Node { left, right, data } => match data {
                Some(d) => left.notes(d.first) + right.notes(d.second),
                None => left.notes(size) + right.notes(size),
            },
        }
    }

    /// The places of the panes, in pre-order, of a tree whose area has its
    /// corner at `left`, `top`, at the offset `off_left`, `off_top` from the
    /// corner of the split around it, and the given size.
    pub open spec fn slots(
        self,
        left: int,
        top: int,
        off_left: int,
        off_top: int,
        size: PtySize,
    ) -> Seq<Slot>
        decreases self,
    {
        match self {
            Tree::Empty => Seq::empty(),
            Tree::Leaf(l) => seq![
                Slot {
                    left: left as usize,
                    top: top as usize,
                    off_left: off_left as usize,
                    off_top: off_top as usize,
                    size,
                },
            ],
            Tree::Node { left: first, right: second, data } => match data {
                Some(d) => first.slots(left, top, 0, 0, d.first) + second.slots(
                    clip(left + d.shift_left()),
                    clip(top + d.shift_top()),
                    d.shift_left(),
                    d.shift_top(),
                    d.second,
                ),
                None => first.slots(left, top, off_left, off_top, size) + second.slots(
                    left,
                    top,
                    off_left,
                    off_top,
                    size,
                ),
            },
        }
    }

    /// The area, as rows and columns, that each split is given, in
    /// pre-order, when the tree is given `rows` by `cols` cells: a child
    /// is given the size that its parent records for it.
    pub open spec fn areas(self, rows: int, cols: int) -> Seq<(int, int)>
        decreases self,
    {
        match self {
            Tree::Empty => Seq::empty(),
            Tree::Leaf(l) => Seq::empty(),
            Tree::Node { left, right, data } => match data {
                Some(d) => seq![(rows, cols)] + left.areas(
                    d.first.rows as int,
                    d.first.cols as int,
                ) + right.areas(d.second.rows as int, d.second.cols as int),
                None => seq![(rows, cols)] + left.areas(rows, cols) + right.areas(rows, cols),
            },
        }
    }

    /// The dividers of the splits, in pre-order, of a tree whose area has
    /// its corner at `left`, `top`.
    pub open spec fn lines(self, left: int, top: int) -> Seq<Line>
        decreases self,
    {
        match self {
            Tree::Empty => Seq::empty(),
            Tree::Leaf(l) => Seq::empty(),
            Tree::Node { left: first, right: second, data } => match data {
                Some(d) => seq![d.divider(left, top)] + first.lines(left, top) + second.lines(
                    clip(left + d.shift_left()),
                    clip(top + d.shift_top()),
                ),
                None => first.lines(left, top) + second.lines(left, top),
            },
        }
    }

    /// An area of `rows` by `cols` cells can be given to the tree: at every
    /// split the first child keeps its extent on the axis that is split and
    /// there is still a cell for the divider.
    pub open spec fn absorbs(self, rows: int, cols: int) -> bool
        decreases self,
    {
        match self {
            Tree::Empty => false,
            Tree::Leaf(l) => true,
            Tree::Node { left, right, data } => {
                &&& data matches Some(d)
                &&& d.absorbs(rows, cols)
                &&& match d.direction {
                    SplitDirection::Horizontal => {
                        &&& left.absorbs(rows, d.first.cols as int)
                        &&& right.absorbs(rows, rest(cols, d.first.cols as int))
                    },
                    SplitDirection::Vertical => {
                        &&& left.absorbs(d.first.rows as int, cols)
                        &&& right.absorbs(rest(rows, d.first.rows as int), cols)
                    },
                }
            },
        }
    }

    /// The tree after an area of `rows` by `cols` cells has been
    /// redistributed over it, from the root down.
    pub open spec fn resized(
        self,
        rows: int,
        cols: int,
        cell_width: u16,
        cell_height: u16,
    ) -> Self
        decreases self,
    {
        match self {
            Tree::Empty => self,
            Tree::Leaf(l) => self,
            Tree::Node { left, right, data } => match data {
                Some(d) => match d.direction {
                    SplitDirection::Horizontal => Tree::Node {
                        left: Box::new(
                            left.resized(rows, d.first.cols as int, cell_width, cell_height),
                        ),
                        right: Box::new(
                            right.resized(
                                rows,
                                rest(cols, d.first.cols as int),
                                cell_width,
                                cell_height,
                            ),
                        ),
                        data: Some(d.resized(rows, cols, cell_width, cell_height)),
                    },
                    SplitDirection::Vertical => Tree::Node {
                        left: Box::new(
                            left.resized(d.first.rows as int, cols, cell_width, cell_height),
                        ),
                        right: Box::new(
                            right.resized(
                                rest(rows, d.first.rows as int),
                                cols,
                                cell_width,
                                cell_height,
                            ),
                        ),
                        data: Some(d.resized(rows, cols, cell_width, cell_height)),
                    },
                },
                None => self,
            },
        }
    }
}

/// What a tree is given when it fits an area is what it can absorb, and
/// so is every area that is no smaller.
pub proof fn lemma_fits_absorbs<L>(
    t: Tree<L, SplitDirectionAndSize>,
    off_left: int,
    off_top: int,
    rows: int,
    cols: int,
    new_rows: int,
    new_cols: int,
)
    requires
        t.fits(off_left, off_top, rows, cols),
        rows <= new_rows,
        cols <= new_cols,
    ensures
        t.absorbs(new_rows, new_cols),
    decreases t,
{
    match t {
        Tree::Node { left, right, data } => {
            let d = data->0;
            match d.direction {
                SplitDirection::Horizontal => {
                    lemma_fits_absorbs(
                        *left,
                        0,
                        0,
                        d.first.rows as int,
                        d.first.cols as int,
                        new_rows,
                        d.first.cols as int,
                    );
                    lemma_fits_absorbs(
                        *right,
                        d.shift_left(),
                        d.shift_top(),
                        d.second.rows as int,
                        d.second.cols as int,
                        new_rows,
                        rest(new_cols, d.first.cols as int),
                    );
                },
                SplitDirection::Vertical => {
                    lemma_fits_absorbs(
                        *left,
                        0,
                        0,
                        d.first.rows as int,
                        d.first.cols as int,
                        d.first.rows as int,
                        new_cols,
                    );
                    lemma_fits_absorbs(
                        *right,
                        d.shift_left(),
                        d.shift_top(),
                        d.second.rows as int,
                        d.second.cols as int,
                        rest(new_rows, d.first.rows as int),
                        new_cols,
                    );
                },
            }
        },
        _ => {},
    }
}

/// A tree that fitted an area fits the area that has been redistributed
/// over it, at the same offset.
pub proof fn lemma_resized_fits<L>(
    t: Tree<L, SplitDirectionAndSize>,
    off_left: int,
    off_top: int,
    rows: int,
    cols: int,
    new_rows: int,
    new_cols: int,
    cell_width: u16,
    cell_height: u16,
)
    requires
        t.fits(off_left, off_top, rows, cols),
        t.absorbs(new_rows, new_cols),
        0 <= new_rows <= u16::MAX,
        0 <= new_cols <= u16::MAX,
    ensures
        t.resized(new_rows, new_cols, cell_width, cell_height).fits(
            off_left,
            off_top,
            new_rows,
            new_cols,
        ),
        t.resized(new_rows, new_cols, cell_width, cell_height).leaves() == t.leaves(),
    decreases t,
{
    match t {
        Tree::Node { left, right, data } => {
            let d = data->0;
            match d.direction {
                SplitDirection::Horizontal => {
                    lemma_resized_fits(
                        *left,
                        0,
                        0,
                        d.first.rows as int,
                        d.first.cols as int,
                        new_rows,
                        d.first.cols as int,
                        cell_width,
                        cell_height,
                    );
                    lemma_resized_fits(
                        *right,
                        d.shift_left(),
                        d.shift_top(),
                        d.second.rows as int,
                        d.second.cols as int,
                        new_rows,
                        rest(new_cols, d.first.cols as int),
                        cell_width,
                        cell_height,
                    );
                },
                SplitDirection::Vertical => {
                    lemma_resized_fits(
                        *left,
                        0,
                        0,
                        d.first.rows as int,
                        d.first.cols as int,
                        d.first.rows as int,
                        new_cols,
                        cell_width,
                        cell_height,
                    );
                    lemma_resized_fits(
                        *right,
                        d.shift_left(),
                        d.shift_top(),
                        d.second.rows as int,
                        d.second.cols as int,
                        rest(new_rows, d.first.rows as int),
                        new_cols,
                        cell_width,
                        cell_height,
                    );
                },
            }
        },
        _ => {},
    }
}

/// In a tree that fits its area every split has a payload.
pub proof fn lemma_fits_payloads<L>(
    t: Tree<L, SplitDirectionAndSize>,
    off_left: int,
    off_top: int,
    rows: int,
    cols: int,
)
    requires
        t is Empty || t.fits(off_left, off_top, rows, cols),
    ensures
        forall|i: int| 0 <= i < t.nodes().len() ==> t.nodes()[i] is Some,
    decreases t,
{
    match t {
        Tree::Node { left, right, data } => {
            let d = data->0;
            lemma_fits_payloads(*left, 0, 0, d.first.rows as int, d.first.cols as int);
            lemma_fits_payloads(
                *right,
                d.shift_left(),
                d.shift_top(),
                d.second.rows as int,
                d.second.cols as int,
            );
            assert forall|i: int| 0 <= i < t.nodes().len() implies t.nodes()[i] is Some by {
                let a = seq![data] + left.nodes();
                if i < a.len() {
                    assert(t.nodes()[i] == a[i]);
                    if i >= 1 {
                        assert(a[i] == left.nodes()[i - 1]);
                    }
                } else {
                    assert(t.nodes()[i] == right.nodes()[i - a.len()]);
                }
            }
        },
        _ => {},
    }
}

/// A tree still fits its area after one of its panes has become a split
/// that sits in the pane's place and records the pane's offset.
pub proof fn lemma_split_fits<L>(
    t: Tree<L, SplitDirectionAndSize>,
    left: int,
    top: int,
    off_left: int,
    off_top: int,
    size: PtySize,
    n: int,
    leaf: L,
    d: SplitDirectionAndSize,
)
    requires
        t.fits(off_left, off_top, size.rows as int, size.cols as int),
        0 <= n < t.leaves().len(),
        0 <= off_left <= u16::MAX + 1,
        0 <= off_top <= u16::MAX + 1,
        ({
            let s = t.slots(left, top, off_left, off_top, size)[n];
            &&& d.left == s.off_left
            &&& d.top == s.off_top
            &&& d.seated(s.size.rows as int, s.size.cols as int)
        }),
    ensures
        t.split_leaf(n, leaf, Some(d)).fits(off_left, off_top, size.rows as int, size.cols as int),
    decreases t,
{
    match t {
        Tree::Node { left: first, right: second, data } => {
            let e = data->0;
            let a = first.slots(left, top, 0, 0, e.first);
            let b = second.slots(
                clip(left + e.shift_left()),
                clip(top + e.shift_top()),
                e.shift_left(),
                e.shift_top(),
                e.second,
            );
            lemma_slots_len(*first, left, top, 0, 0, e.first);
            lemma_slots_len(
                *second,
                clip(left + e.shift_left()),
                clip(top + e.shift_top()),
                e.shift_left(),
                e.shift_top(),
                e.second,
            );
            if n < first.leaves().len() {
                assert((a + b)[n] == a[n]);
                lemma_split_fits(*first, left, top, 0, 0, e.first, n, leaf, d);
            } else {
                assert((a + b)[n] == b[n - a.len()]);
                lemma_split_fits(
                    *second,
                    clip(left + e.shift_left()),
                    clip(top + e.shift_top()),
                    e.shift_left(),
                    e.shift_top(),
                    e.second,
                    n - first.leaves().len(),
                    leaf,
                    d,
                );
            }
        },
        Tree::Leaf(l) => {
            let first = Tree::<L, SplitDirectionAndSize>::Leaf(l);
            let second = Tree::<L, SplitDirectionAndSize>::Leaf(leaf);
            assert(first.fits(0, 0, d.first.rows as int, d.first.cols as int));
            assert(second.fits(
                d.shift_left(),
                d.shift_top(),
                d.second.rows as int,
                d.second.cols as int,
            ));
        },
        Tree::Empty => {},
    }
}

/// A tree still has a cell for every divider after one of its panes that
/// has a cell on the axis of the split has become a split.
pub proof fn lemma_split_roomy<L>(
    t: Tree<L, SplitDirectionAndSize>,
    left: int,
    top: int,
    off_left: int,
    off_top: int,
    size: PtySize,
    n: int,
    leaf: L,
    d: SplitDirectionAndSize,
)
    requires
        t.fits(off_left, off_top, size.rows as int, size.cols as int),
        t.roomy(size.rows as int, size.cols as int),
        0 <= n < t.leaves().len(),
        ({
            let s = t.slots(left, top, off_left, off_top, size)[n];
            match d.direction {
                SplitDirection::Horizontal => s.size.cols >= 1,
                SplitDirection::Vertical => s.size.rows >= 1,
            }
        }),
    ensures
        t.split_leaf(n, leaf, Some(d)).roomy(size.rows as int, size.cols as int),
    decreases t,
{
    match t {
        Tree::Node { left: first, right: second, data } => {
            let e = data->0;
            let a = first.slots(left, top, 0, 0, e.first);
            let b = second.slots(
                clip(left + e.shift_left()),
                clip(top + e.shift_top()),
                e.shift_left(),
                e.shift_top(),
                e.second,
            );
            lemma_slots_len(*first, left, top, 0, 0, e.first);
            lemma_slots_len(
                *second,
                clip(left + e.shift_left()),
                clip(top + e.shift_top()),
                e.shift_left(),
                e.shift_top(),
                e.second,
            );
            if n < first.leaves().len() {
                assert((a + b)[n] == a[n]);
                lemma_split_roomy(*first, left, top, 0, 0, e.first, n, leaf, d);
            } else {
                assert((a + b)[n] == b[n - a.len()]);
                lemma_split_roomy(
                    *second,
                    clip(left + e.shift_left()),
                    clip(top + e.shift_top()),
                    e.shift_left(),
                    e.shift_top(),
                    e.second,
                    n - first.leaves().len(),
                    leaf,
                    d,
                );
            }
        },
        Tree::Leaf(l) => {
            let first = Tree::<L, SplitDirectionAndSize>::Leaf(l);
            let second = Tree::<L, SplitDirectionAndSize>::Leaf(leaf);
            assert(first.roomy(d.first.rows as int, d.first.cols as int));
            assert(second.roomy(d.second.rows as int, d.second.cols as int));
        },
        Tree::Empty => {},
    }
}

/// A tree that has a cell for every divider still has one after an area
/// that is no smaller has been redistributed over it.
pub proof fn lemma_grown_roomy<L>(
    t: Tree<L, SplitDirectionAndSize>,
    off_left: int,
    off_top: int,
    rows: int,
    cols: int,
    new_rows: int,
    new_cols: int,
    cell_width: u16,
    cell_height: u16,
)
    requires
        t.fits(off_left, off_top, rows, cols),
        t.roomy(rows, cols),
        0 <= rows <= new_rows <= u16::MAX,
        0 <= cols <= new_cols <= u16::MAX,
    ensures
        t.resized(new_rows, new_cols, cell_width, cell_height).roomy(new_rows, new_cols),
    decreases t,
{
    match t {
        Tree::Node { left, right, data } => {
            let d = data->0;
            match d.direction {
                SplitDirection::Horizontal => {
                    lemma_grown_roomy(
                        *left,
                        0,
                        0,
                        d.first.rows as int,
                        d.first.cols as int,
                        new_rows,
                        d.first.cols as int,
                        cell_width,
                        cell_height,
                    );
                    lemma_grown_roomy(
                        *right,
                        d.shift_left(),
                        d.shift_top(),
                        d.second.rows as int,
                        d.second.cols as int,
                        new_rows,
                        rest(new_cols, d.first.cols as int),
                        cell_width,
                        cell_height,
                    );
                },
                SplitDirection::Vertical => {
                    lemma_grown_roomy(
                        *left,
                        0,
                        0,
                        d.first.rows as int,
                        d.first.cols as int,
                        d.first.rows as int,
                        new_cols,
                        cell_width,
                        cell_height,
                    );
                    lemma_grown_roomy(
                        *right,
                        d.shift_left(),
                        d.shift_top(),
                        d.second.rows as int,
                        d.second.cols as int,
                        rest(new_rows, d.first.rows as int),
                        new_cols,
                        cell_width,
                        cell_height,
                    );
                },
            }
        },
        _ => {},
    }
}

/// A tree has as many places as leaves.
pub proof fn lemma_slots_len<L>(
    t: Tree<L, SplitDirectionAndSize>,
    left: int,
    top: int,
    off_left: int,
    off_top: int,
    size: PtySize,
)
    ensures
        t.slots(left, top, off_left, off_top, size).len() == t.leaves().len(),
    decreases t,
{
    match t {
        Tree::Node { left: first, right: second, data } => match data {
            Some(d) => {
                lemma_slots_len(*first, left, top, 0, 0, d.first);
                lemma_slots_len(
                    *second,
                    clip(left + d.shift_left()),
                    clip(top + d.shift_top()),
                    d.shift_left(),
                    d.shift_top(),
                    d.second,
                );
            },
            None => {
                lemma_slots_len(*first, left, top, off_left, off_top, size);
                lemma_slots_len(*second, left, top, off_left, off_top, size);
            },
        },
        _ => {},
    }
}

/// A tree has as many dividers as splits.
pub proof fn lemma_lines_len<L>(t: Tree<L, SplitDirectionAndSize>, left: int, top: int)
    requires
        forall|i: int| 0 <= i < t.nodes().len() ==> t.nodes()[i] is Some,
    ensures
        t.lines(left, top).len() == t.nodes().len(),
    decreases t,
{
    match t {
        Tree::Node { left: first, right: second, data } => {
            assert(t.nodes()[0] == data);
            let d = data->0;
            assert forall|i: int| 0 <= i < first.nodes().len() implies first.nodes()[i] is Some by {
                assert(t.nodes()[i + 1] == first.nodes()[i]);
            }
            assert forall|i: int| 0 <= i < second.nodes().len() implies second.nodes()[i]
                is Some by {
                assert(t.nodes()[1 + first.nodes().len() + i] == second.nodes()[i]);
            }
            lemma_lines_len(*first, left, top);
            lemma_lines_len(*second, clip(left + d.shift_left()), clip(top + d.shift_top()));
        },
        _ => {},
    }
}

/// In a tree that fits its area no pane has more rows or columns than the
/// area, and the offset of a pane is that of a second child at most.
pub proof fn lemma_sizes_inside<L>(
    t: Tree<L, SplitDirectionAndSize>,
    left: int,
    top: int,
    off_left: int,
    off_top: int,
    size: PtySize,
    i: int,
)
    requires
        t.fits(off_left, off_top, size.rows as int, size.cols as int),
        0 <= off_left <= u16::MAX + 1,
        0 <= off_top <= u16::MAX + 1,
        0 <= i < t.leaves().len(),
    ensures
        ({
            let s = t.slots(left, top, off_left, off_top, size)[i];
            &&& s.size.cols <= size.cols
            &&& s.size.rows <= size.rows
            &&& s.off_left <= u16::MAX + 1
            &&& s.off_top <= u16::MAX + 1
        }),
    decreases t,
{
    match t {
        Tree::Node { left: first, right: second, data } => {
            let d = data->0;
            let a = first.slots(left, top, 0, 0, d.first);
            let b = second.slots(
                clip(left + d.shift_left()),
                clip(top + d.shift_top()),
                d.shift_left(),
                d.shift_top(),
                d.second,
            );
            lemma_slots_len(*first, left, top, 0, 0, d.first);
            lemma_slots_len(
                *second,
                clip(left + d.shift_left()),
                clip(top + d.shift_top()),
                d.shift_left(),
                d.shift_top(),
                d.second,
            );
            if i < first.leaves().len() {
                lemma_sizes_inside(*first, left, top, 0, 0, d.first, i);
                assert((a + b)[i] == a[i]);
            } else {
                lemma_sizes_inside(
                    *second,
                    clip(left + d.shift_left()),
                    clip(top + d.shift_top()),
                    d.shift_left(),
                    d.shift_top(),
                    d.second,
                    i - first.leaves().len(),
                );
                assert((a + b)[i] == b[i - a.len()]);
            }
        },
        _ => {},
    }
}

/// In a tree that fits its area and has a cell for every divider, every
/// pane lies inside the area, at the offset that its place in the tree
/// gives it.
pub proof fn lemma_slots_inside<L>(
    t: Tree<L, SplitDirectionAndSize>,
    left: int,
    top: int,
    off_left: int,
    off_top: int,
    size: PtySize,
    i: int,
)
    requires
        t.fits(off_left, off_top, size.rows as int, size.cols as int),
        t.roomy(size.rows as int, size.cols as int),
        0 <= left,
        0 <= top,
        0 <= off_left <= left,
        0 <= off_top <= top,
        off_left <= u16::MAX + 1,
        off_top <= u16::MAX + 1,
        left + size.cols <= usize::MAX,
        top + size.rows <= usize::MAX,
        0 <= i < t.leaves().len(),
    ensures
        ({
            let s = t.slots(left, top, off_left, off_top, size)[i];
            &&& left <= s.left
            &&& s.left + s.size.cols <= left + size.cols
            &&& top <= s.top
            &&& s.top + s.size.rows <= top + size.rows
            &&& s.off_left <= s.left
            &&& s.off_top <= s.top
            &&& s.off_left <= u16::MAX + 1
            &&& s.off_top <= u16::MAX + 1
        }),
    decreases t,
{
    match t {
        Tree::Node { left: first, right: second, data } => {
            let d = data->0;
            let a = first.slots(left, top, 0, 0, d.first);
            let b = second.slots(
                clip(left + d.shift_left()),
                clip(top + d.shift_top()),
                d.shift_left(),
                d.shift_top(),
                d.second,
            );
            lemma_slots_len(*first, left, top, 0, 0, d.first);
            lemma_slots_len(
                *second,
                clip(left + d.shift_left()),
                clip(top + d.shift_top()),
                d.shift_left(),
                d.shift_top(),
                d.second,
            );
            if i < first.leaves().len() {
                lemma_slots_inside(*first, left, top, 0, 0, d.first, i);
                assert((a + b)[i] == a[i]);
            } else {
                lemma_slots_inside(
                    *second,
                    clip(left + d.shift_left()),
                    clip(top + d.shift_top()),
                    d.shift_left(),
                    d.shift_top(),
                    d.second,
                    i - first.leaves().len(),
                );
                assert((a + b)[i] == b[i - a.len()]);
            }
        },
        _ => {},
    }
}

/// Appends the places of the panes of `t` to `out`.
pub(crate) fn collect_slots<P: Pane>(
    t: &Tree<Rc<P>, SplitDirectionAndSize>,
    left: usize,
    top: usize,
    off_left: usize,
    off_top: usize,
    size: PtySize,
    out: &mut Vec<Slot>,
)
    requires
        t.fits(off_left as int, off_top as int, size.rows as int, size.cols as int),
    ensures
        final(out)@ == old(out)@ + t.slots(
            left as int,
            top as int,
            off_left as int,
            off_top as int,
            size,
        ),
    decreases t,
{
    match t {
        Tree::Empty => {},
        Tree::Leaf(_) => {
            out.push(Slot { left, top, off_left, off_top, size });
        },
        Tree::Node { left: first, right: second, data } => {
            match data {
                Some(d) => {
                    let (shift_left, shift_top): (usize, usize) = match d.direction {
                        SplitDirection::Horizontal => (d.first.cols as usize + 1, 0),
                        SplitDirection::Vertical => (0, d.first.rows as usize + 1),
                    };
                    collect_slots(first, left, top, 0, 0, d.first, out);
                    collect_slots(
                        second,
                        add_clipped(left, shift_left),
                        add_clipped(top, shift_top),
                        shift_left,
                        shift_top,
                        d.second,
                        out,
                    );
                    assert(final(out)@ == old(out)@ + t.slots(
                        left as int,
                        top as int,
                        off_left as int,
                        off_top as int,
                        size,
                    )) by {
                        let a = first.slots(left as int, top as int, 0, 0, d.first);
                        let b = second.slots(
                            clip(left + d.shift_left()),
                            clip(top + d.shift_top()),
                            d.shift_left(),
                            d.shift_top(),
                            d.second,
                        );
                        assert((old(out)@ + a) + b =~= old(out)@ + (a + b));
                    }
                },
                None => {},
            }
        },
    }
}

/// Appends the dividers of the splits of `t` to `out`.
pub(crate) fn collect_lines<P: Pane>(
    t: &Tree<Rc<P>, SplitDirectionAndSize>,
    left: usize,
    top: usize,
    off_left: Ghost<int>,
    off_top: Ghost<int>,
    size: PtySize,
    out: &mut Vec<Line>,
)
    requires
        t.fits(off_left@, off_top@, size.rows as int, size.cols as int),
    ensures
        final(out)@ == old(out)@ + t.lines(left as int, top as int),
    decreases t,
{
    match t {
        Tree::Empty => {},
        Tree::Leaf(_) => {},
        Tree::Node { left: first, right: second, data } => {
            match data {
                Some(d) => {
                    let line = match d.direction {
                        SplitDirection::Horizontal => Line {
                            direction: d.direction,
                            left: add_clipped(left, d.first.cols as usize),
                            top,
                            length: d.first.rows as usize,
                        },
                        SplitDirection::Vertical => Line {
                            direction: d.direction,
                            left,
                            top: add_clipped(top, d.first.rows as usize),
                            length: d.first.cols as usize,
                        },
                    };
                    let (shift_left, shift_top): (usize, usize) = match d.direction {
                        SplitDirection::Horizontal => (d.first.cols as usize + 1, 0),
                        SplitDirection::Vertical => (0, d.first.rows as usize + 1),
                    };
                    out.push(line);
                    collect_lines(first, left, top, Ghost(0), Ghost(0), d.first, out);
                    collect_lines(
                        second,
                        add_clipped(left, shift_left),
                        add_clipped(top, shift_top),
                        Ghost(d.shift_left()),
                        Ghost(d.shift_top()),
                        d.second,
                        out,
                    );
                    assert(final(out)@ == old(out)@ + t.lines(left as int, top as int)) by {
                        let a = first.lines(left as int, top as int);
                        let b = second.lines(
                            clip(left + d.shift_left()),
                            clip(top + d.shift_top()),
                        );
                        assert(((old(out)@.push(line)) + a) + b =~= old(out)@ + (seq![line] + a
                            + b));
                    }
                },
                None => {},
            }
        },
    }
}

/// Appends the panes of `t` to `out`.
pub(crate) fn collect_leaves<P: Pane>(t: &Tree<Rc<P>, SplitDirectionAndSize>, out: &mut Vec<Rc<P>>)
    ensures
        final(out)@ == old(out)@ + t.leaves(),
    decreases t,
{
    match t {
        Tree::Empty => {},
        Tree::Leaf(l) => {
            out.push(Rc::clone(l));
        },
        Tree::Node { left, right, data } => {
            collect_leaves(left, out);
            collect_leaves(right, out);
            assert((old(out)@ + left.leaves()) + right.leaves() =~= old(out)@ + (left.leaves()
                + right.leaves()));
        },
    }
}

/// The split after it has been given `rows` by `cols` cells.
pub(crate) fn resize_split(
    d: &SplitDirectionAndSize,
    rows: u16,
    cols: u16,
    cell_width: u16,
    cell_height: u16,
) -> (e: SplitDirectionAndSize)
    requires
        d.absorbs(rows as int, cols as int),
        cols * cell_width <= u16::MAX,
        rows * cell_height <= u16::MAX,
    ensures
        e == d.resized(rows as int, cols as int, cell_width, cell_height),
{
    match d.direction {
        SplitDirection::Horizontal => {
            let rest: u16 = if cols > d.first.cols {
                cols - d.first.cols - 1
            } else {
                0
            };
            proof {
                lemma_scale_le(
                    d.first.cols as int,
                    cols as int,
                    cell_width as int,
                    u16::MAX as int,
                );
                lemma_scale_le(rest as int, cols as int, cell_width as int, u16::MAX as int);
            }
            SplitDirectionAndSize {
                direction: d.direction,
                left: d.left,
                top: d.top,
                first: size_of(rows, d.first.cols, cell_width, cell_height),
                second: size_of(rows, rest, cell_width, cell_height),
            }
        },
        SplitDirection::Vertical => {
            let rest: u16 = if rows > d.first.rows {
                rows - d.first.rows - 1
            } else {
                0
            };
            proof {
                lemma_scale_le(
                    d.first.rows as int,
                    rows as int,
                    cell_height as int,
                    u16::MAX as int,
                );
                lemma_scale_le(rest as int, rows as int, cell_height as int, u16::MAX as int);
            }
            SplitDirectionAndSize {
                direction: d.direction,
                left: d.left,
                top: d.top,
                first: size_of(d.first.rows, cols, cell_width, cell_height),
                second: size_of(rest, cols, cell_width, cell_height),
            }
        },
    }
}

/// Whether `rows` by `cols` cells can be redistributed over `t`.
pub(crate) fn can_absorb<P: Pane>(
    t: &Tree<Rc<P>, SplitDirectionAndSize>,
    rows: u16,
    cols: u16,
) -> (b: bool)
    ensures
        b == t.absorbs(rows as int, cols as int),
    decreases t,
{
    match t {
        Tree::Empty => false,
        Tree::Leaf(_) => true,
        Tree::Node { left, right, data } => match data {
            Some(d) => match d.direction {
                SplitDirection::Horizontal => {
                    (d.first.cols < cols || (d.first.cols == 0 && cols == 0)) && can_absorb(
                        left,
                        rows,
                        d.first.cols,
                    ) && can_absorb(
                        right,
                        rows,
                        if cols > d.first.cols {
                            cols - d.first.cols - 1
                        } else {
                            0
                        },
                    )
                },
                SplitDirection::Vertical => {
                    (d.first.rows < rows || (d.first.rows == 0 && rows == 0)) && can_absorb(
                        left,
                        d.first.rows,
                        cols,
                    ) && can_absorb(
                        right,
                        if rows > d.first.rows {
                            rows - d.first.rows - 1
                        } else {
                            0
                        },
                        cols,
                    )
                },
            },
            None => false,
        },
    }
}

/// `answers` holds, pane by pane, an answer that each pane of `notes` can
/// give when it is told the size that stands beside it.
#[verifier::opaque]
pub open spec fn recorded<P: Pane>(
    answers: Seq<Result<(), PaneError>>,
    notes: Seq<(Rc<P>, PtySize)>,
) -> bool {
    &&& answers.len() == notes.len()
    &&& forall|k: int|
        0 <= k < answers.len() ==> call_ensures(
            P::resize,
            (&*notes[k].0, notes[k].1),
            #[trigger] answers[k],
        )
}

/// The first refusal among `answers`, if there is one.
pub open spec fn first_refusal(answers: Seq<Result<(), PaneError>>) -> Result<(), PaneError>
    decreases answers.len(),
{
    if answers.len() == 0 {
        Ok(())
    } else {
        match answers[0] {
            Err(e) => Err(e),
            Ok(_) => first_refusal(answers.subrange(1, answers.len() as int)),
        }
    }
}

/// The first of two answers that is a refusal, if one is.
pub open spec fn or_refusal(first: Result<(), PaneError>, second: Result<(), PaneError>) -> Result<
    (),
    PaneError,
> {
    match first {
        Err(e) => Err(e),
        Ok(_) => second,
    }
}

/// The first refusal among answers in a row is the first refusal among
/// the first of them, or else among the rest.
pub proof fn lemma_first_refusal_concat(
    a: Seq<Result<(), PaneError>>,
    b: Seq<Result<(), PaneError>>,
)
    ensures
        first_refusal(a + b) == or_refusal(first_refusal(a), first_refusal(b)),
    decreases a.len(),
{
    if a.len() == 0 {
        assert(a + b =~= b);
    } else {
        let rest = a.subrange(1, a.len() as int);
        assert((a + b).subrange(1, (a + b).len() as int) =~= rest + b);
        lemma_first_refusal_concat(rest, b);
    }
}

/// No answers are recorded for no panes.
pub proof fn lemma_recorded_none<P: Pane>()
    ensures
        recorded::<P>(Seq::empty(), Seq::empty()),
{
    reveal(recorded);
}

/// The answer of one pane to the size it was told is recorded for that
/// pane and that size.
pub proof fn lemma_recorded_one<P: Pane>(
    pane: Rc<P>,
    size: PtySize,
    answer: Result<(), PaneError>,
)
    requires
        call_ensures(P::resize, (&*pane, size), answer),
    ensures
        recorded(seq![answer], seq![(pane, size)]),
{
    reveal(recorded);
}

/// Answers recorded for two lists of panes in a row are recorded for the
/// two lists in a row.
pub proof fn lemma_recorded_concat<P: Pane>(
    a: Seq<Result<(), PaneError>>,
    na: Seq<(Rc<P>, PtySize)>,
    b: Seq<Result<(), PaneError>>,
    nb: Seq<(Rc<P>, PtySize)>,
)
    requires
        recorded(a, na),
        recorded(b, nb),
    ensures
        recorded(a + b, na + nb),
{
    reveal(recorded);
    assert forall|k: int| 0 <= k < (a + b).len() implies call_ensures(
        P::resize,
        (&*(na + nb)[k].0, (na + nb)[k].1),
        #[trigger] (a + b)[k],
    ) by {
        if k < a.len() {
            assert((a + b)[k] == a[k] && (na + nb)[k] == na[k]);
        } else {
            assert((a + b)[k] == b[k - a.len()] && (na + nb)[k] == nb[k - a.len()]);
        }
    }
}

/// Redistributes the area `size` over `t` and tells every pane of `t`, in
/// pre-order, the size it has then. Gives back the first refusal of a
/// pane, if there is one, and the answers of all panes.
pub(crate) fn relayout<P: Pane>(
    t: &mut Tree<Rc<P>, SplitDirectionAndSize>,
    size: PtySize,
    cell_width: u16,
    cell_height: u16,
) -> (r: (Result<(), PaneError>, Ghost<Seq<Result<(), PaneError>>>))
    requires
        old(t).absorbs(size.rows as int, size.cols as int),
        size.cols * cell_width <= u16::MAX,
        size.rows * cell_height <= u16::MAX,
    ensures
        *final(t) == old(t).resized(size.rows as int, size.cols as int, cell_width, cell_height),
        recorded(r.1@, final(t).notes(size)),
        r.0 == first_refusal(r.1@),
    decreases *old(t),
{
    match t {
        Tree::Empty => {
            proof {
                lemma_recorded_none::<P>();
            }
            (Ok(()), Ghost(Seq::empty()))
        },
        Tree::Leaf(pane) => {
            let answer = pane.resize(size);
            let ghost answers = seq![answer];
            proof {
                lemma_recorded_one(*pane, size, answer);
                assert(t.notes(size) =~= seq![(*pane, size)]);
                assert(answers.subrange(1, 1) =~= Seq::empty());
                assert(first_refusal(answers.subrange(1, 1)) == Ok::<(), PaneError>(()));
                assert(answers[0] == answer);
                assert(answer is Ok ==> answer->Ok_0 == ());
                assert(answer is Ok ==> answer == Ok::<(), PaneError>(()));
                assert(first_refusal(answers) == answer);
            }
            (answer, Ghost(answers))
        },
        Tree::Node { left, right, data } => {
            match data {
                Some(d) => {
                    let e = resize_split(d, size.rows, size.cols, cell_width, cell_height);
                    *d = e;
                    proof {
                        lemma_scale_le(
                            e.first.cols as int,
                            size.cols as int,
                            cell_width as int,
                            u16::MAX as int,
                        );
                        lemma_scale_le(
                            e.second.cols as int,
                            size.cols as int,
                            cell_width as int,
                            u16::MAX as int,
                        );
                        lemma_scale_le(
                            e.first.rows as int,
                            size.rows as int,
                            cell_height as int,
                            u16::MAX as int,
                        );
                        lemma_scale_le(
                            e.second.rows as int,
                            size.rows as int,
                            cell_height as int,
                            u16::MAX as int,
                        );
                    }
                    let (first, Ghost(a)) = relayout(&mut **left, e.first, cell_width, cell_height);
                    let (second, Ghost(b)) = relayout(
                        &mut **right,
                        e.second,
                        cell_width,
                        cell_height,
                    );
                    proof {
                        lemma_recorded_concat(a, left.notes(e.first), b, right.notes(e.second));
                        lemma_first_refusal_concat(a, b);
                    }
                    let r = match first {
                        Err(e) => Err(e),
                        Ok(_) => second,
                    };
                    assert(r == or_refusal(first, second));
                    (r, Ghost(a + b))
                },
                None => {
                    proof {
                        lemma_recorded_none::<P>();
                        assert(t.notes(size) =~= Seq::empty()) by {
                            assert(false);
                        }
                    }
                    (Ok(()), Ghost(Seq::empty()))
                },
            }
        },
    }
}

} // verus!
