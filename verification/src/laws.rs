//! What holds of every tree that tiles its area, that is, fits it and has
//! a cell for every divider: its splits conserve the
//! area, its panes and dividers cover the area cell by cell without
//! overlap, each divider lies between the two children it parts, a pruned
//! split leaves its whole area to the child that stays, and a resize leaves
//! every first child its extent.

use crate::bintree::{lemma_plug_leaves, Path, Tree};
use crate::layout::{
    clip, lemma_fits_absorbs, lemma_fits_payloads, lemma_resized_fits, lemma_slots_inside,
    lemma_slots_len, rest, sized, Line, Slot,
};
use crate::pane::Pane;
use crate::prune::{lemma_promoted, lemma_pruned};
use crate::size::{PtySize, SplitDirection, SplitDirectionAndSize};
use crate::tab::Tab;
use vstd::prelude::*;

verus! {

impl Slot {
    /// The cell in column `x` and row `y` of the tab belongs to the pane.
    pub open spec fn covers(self, x: int, y: int) -> bool {
        &&& self.left <= x < self.left + self.size.cols
        &&& self.top <= y < self.top + self.size.rows
    }
}

impl Line {
    /// The cell in column `x` and row `y` of the tab belongs to the divider.
    pub open spec fn covers(self, x: int, y: int) -> bool {
        match self.direction {
            SplitDirection::Horizontal => x == self.left && self.top <= y < self.top + self.length,
            SplitDirection::Vertical => y == self.top && self.left <= x < self.left + self.length,
        }
    }
}

/// Some pane of `slots` holds the cell.
pub open spec fn in_some_slot(slots: Seq<Slot>, x: int, y: int) -> bool {
    exists|i: int| 0 <= i < slots.len() && (#[trigger] slots[i]).covers(x, y)
}

/// Some divider of `lines` holds the cell.
pub open spec fn on_some_line(lines: Seq<Line>, x: int, y: int) -> bool {
    exists|i: int| 0 <= i < lines.len() && (#[trigger] lines[i]).covers(x, y)
}

/// A pane of two lists of panes is a pane of one of them.
proof fn lemma_in_some_slot_concat(a: Seq<Slot>, b: Seq<Slot>, x: int, y: int)
    ensures
        in_some_slot(a + b, x, y) == (in_some_slot(a, x, y) || in_some_slot(b, x, y)),
{
    let c = a + b;
    if in_some_slot(c, x, y) {
        let i = choose|i: int| 0 <= i < c.len() && (#[trigger] c[i]).covers(x, y);
        if i < a.len() {
            assert(a[i].covers(x, y));
        } else {
            assert(b[i - a.len()].covers(x, y));
        }
    }
    if in_some_slot(a, x, y) {
        let i = choose|i: int| 0 <= i < a.len() && (#[trigger] a[i]).covers(x, y);
        assert(c[i].covers(x, y));
    }
    if in_some_slot(b, x, y) {
        let i = choose|i: int| 0 <= i < b.len() && (#[trigger] b[i]).covers(x, y);
        assert(c[i + a.len()].covers(x, y));
    }
}

/// A divider of two lists of dividers is a divider of one of them.
proof fn lemma_on_some_line_concat(a: Seq<Line>, b: Seq<Line>, x: int, y: int)
    ensures
        on_some_line(a + b, x, y) == (on_some_line(a, x, y) || on_some_line(b, x, y)),
{
    let c = a + b;
    if on_some_line(c, x, y) {
        let i = choose|i: int| 0 <= i < c.len() && (#[trigger] c[i]).covers(x, y);
        if i < a.len() {
            assert(a[i].covers(x, y));
        } else {
            assert(b[i - a.len()].covers(x, y));
        }
    }
    if on_some_line(a, x, y) {
        let i = choose|i: int| 0 <= i < a.len() && (#[trigger] a[i]).covers(x, y);
        assert(c[i].covers(x, y));
    }
    if on_some_line(b, x, y) {
        let i = choose|i: int| 0 <= i < b.len() && (#[trigger] b[i]).covers(x, y);
        assert(c[i + a.len()].covers(x, y));
    }
}

/// Coverage: a cell lies in the area of a tree that fits it and has a cell
/// for every divider iff a pane or
/// a divider of the tree holds it.
pub proof fn lemma_coverage<L>(
    t: Tree<L, SplitDirectionAndSize>,
    left: int,
    top: int,
    off_left: int,
    off_top: int,
    size: PtySize,
    x: int,
    y: int,
)
    requires
        t.fits(off_left, off_top, size.rows as int, size.cols as int),
        t.roomy(size.rows as int, size.cols as int),
        0 <= left,
        0 <= top,
        0 <= off_left <= usize::MAX,
        0 <= off_top <= usize::MAX,
        left + size.cols <= usize::MAX,
        top + size.rows <= usize::MAX,
    ensures
        (left <= x < left + size.cols && top <= y < top + size.rows) <==> (in_some_slot(
            t.slots(left, top, off_left, off_top, size),
            x,
            y,
        ) || on_some_line(t.lines(left, top), x, y)),
    decreases t,
{
    match t {
        Tree::Empty => {},
        Tree::Leaf(l) => {
            let s = t.slots(left, top, off_left, off_top, size);
            if left <= x < left + size.cols && top <= y < top + size.rows {
                assert(s[0].covers(x, y));
            }
        },
        Tree::Node { left: first, right: second, data } => {
            let d = data->0;
            let a = first.slots(left, top, 0, 0, d.first);
            let b = second.slots(
                clip(left + d.shift_left()),
                clip(top + d.shift_top()),
                d.shift_left(),
                d.shift_top(),
                d.second,
            );
            let la = first.lines(left, top);
            let lb = second.lines(clip(left + d.shift_left()), clip(top + d.shift_top()));
            let line = d.divider(left, top);
            lemma_coverage(*first, left, top, 0, 0, d.first, x, y);
            lemma_coverage(
                *second,
                clip(left + d.shift_left()),
                clip(top + d.shift_top()),
                d.shift_left(),
                d.shift_top(),
                d.second,
                x,
                y,
            );
            lemma_in_some_slot_concat(a, b, x, y);
            lemma_on_some_line_concat(seq![line], la, x, y);
            lemma_on_some_line_concat(seq![line] + la, lb, x, y);
            if line.covers(x, y) {
                assert(seq![line][0].covers(x, y));
            }
        },
    }
}

/// No overlap: two different panes of a tree that fits its area and has a
/// cell for every divider share no
/// cell.
pub proof fn lemma_panes_disjoint<L>(
    t: Tree<L, SplitDirectionAndSize>,
    left: int,
    top: int,
    off_left: int,
    off_top: int,
    size: PtySize,
    i: int,
    j: int,
    x: int,
    y: int,
)
    requires
        t.fits(off_left, off_top, size.rows as int, size.cols as int),
        t.roomy(size.rows as int, size.cols as int),
        0 <= left,
        0 <= top,
        0 <= off_left <= left,
        0 <= off_top <= top,
        off_left <= u16::MAX + 1,
        off_top <= u16::MAX + 1,
        left + size.cols <= usize::MAX,
        top + size.rows <= usize::MAX,
        0 <= i < j < t.leaves().len(),
    ensures
        !(t.slots(left, top, off_left, off_top, size)[i].covers(x, y) && t.slots(
            left,
            top,
            off_left,
            off_top,
            size,
        )[j].covers(x, y)),
    decreases t,
{
    match t {
        Tree::Node { left: first, right: second, data } => {
            let d = data->0;
            let a = first.slots(left, top, 0, 0, d.first);
            let b = second.slots(
                clip(left + d.shift_left()),
                clip(top + d.shift_top()),
                d.shift_left(),
                d.shift_top(),
                d.second,
            );
            lemma_slots_len(*first, left, top, 0, 0, d.first);
            lemma_slots_len(
                *second,
                clip(left + d.shift_left()),
                clip(top + d.shift_top()),
                d.shift_left(),
                d.shift_top(),
                d.second,
            );
            let n = first.leaves().len() as int;
            if j < n {
                assert((a + b)[i] == a[i] && (a + b)[j] == a[j]);
                lemma_panes_disjoint(*first, left, top, 0, 0, d.first, i, j, x, y);
            } else if i >= n {
                assert((a + b)[i] == b[i - n] && (a + b)[j] == b[j - n]);
                lemma_panes_disjoint(
                    *second,
                    clip(left + d.shift_left()),
                    clip(top + d.shift_top()),
                    d.shift_left(),
                    d.shift_top(),
                    d.second,
                    i - n,
                    j - n,
                    x,
                    y,
                );
            } else {
                assert((a + b)[i] == a[i] && (a + b)[j] == b[j - n]);
                lemma_slots_inside(*first, left, top, 0, 0, d.first, i);
                lemma_slots_inside(
                    *second,
                    clip(left + d.shift_left()),
                    clip(top + d.shift_top()),
                    d.shift_left(),
                    d.shift_top(),
                    d.second,
                    j - n,
                );
            }
        },
        _ => {},
    }
}

/// No pane shares a cell with a divider, in a tree that fits its area and
/// has a cell for every divider.
pub proof fn lemma_panes_off_lines<L>(
    t: Tree<L, SplitDirectionAndSize>,
    left: int,
    top: int,
    off_left: int,
    off_top: int,
    size: PtySize,
    x: int,
    y: int,
)
    requires
        t.fits(off_left, off_top, size.rows as int, size.cols as int),
        t.roomy(size.rows as int, size.cols as int),
        0 <= left,
        0 <= top,
        0 <= off_left <= usize::MAX,
        0 <= off_top <= usize::MAX,
        left + size.cols <= usize::MAX,
        top + size.rows <= usize::MAX,
    ensures
        !(in_some_slot(t.slots(left, top, off_left, off_top, size), x, y) && on_some_line(
            t.lines(left, top),
            x,
            y,
        )),
    decreases t,
{
    match t {
        Tree::Node { left: first, right: second, data } => {
            let d = data->0;
            let left2 = clip(left + d.shift_left());
            let top2 = clip(top + d.shift_top());
            let a = first.slots(left, top, 0, 0, d.first);
            let b = second.slots(left2, top2, d.shift_left(), d.shift_top(), d.second);
            let la = first.lines(left, top);
            let lb = second.lines(left2, top2);
            let line = d.divider(left, top);
            lemma_panes_off_lines(*first, left, top, 0, 0, d.first, x, y);
            lemma_panes_off_lines(
                *second,
                left2,
                top2,
                d.shift_left(),
                d.shift_top(),
                d.second,
                x,
                y,
            );
            lemma_coverage(*first, left, top, 0, 0, d.first, x, y);
            lemma_coverage(*second, left2, top2, d.shift_left(), d.shift_top(), d.second, x, y);
            lemma_in_some_slot_concat(a, b, x, y);
            lemma_on_some_line_concat(seq![line], la, x, y);
            lemma_on_some_line_concat(seq![line] + la, lb, x, y);
            if on_some_line(seq![line], x, y) {
                let k = choose|k: int|
                    0 <= k < seq![line].len() && (#[trigger] seq![line][k]).covers(x, y);
                assert(line.covers(x, y));
            }
        },
        Tree::Leaf(l) => {
            assert(t.lines(left, top) =~= Seq::empty());
        },
        Tree::Empty => {},
    }
}

/// The cells of the panes: the sum of rows times columns.
pub open spec fn pane_cells(slots: Seq<Slot>) -> int
    decreases slots.len(),
{
    if slots.len() == 0 {
        0
    } else {
        pane_cells(slots.drop_last()) + slots.last().size.rows * slots.last().size.cols
    }
}

/// The cells of the dividers: the sum of their lengths.
pub open spec fn line_cells(lines: Seq<Line>) -> int
    decreases lines.len(),
{
    if lines.len() == 0 {
        0
    } else {
        line_cells(lines.drop_last()) + lines.last().length
    }
}

/// The cells of panes in a row are those of the first and those of the
/// rest.
pub proof fn lemma_pane_cells_concat(a: Seq<Slot>, b: Seq<Slot>)
    ensures
        pane_cells(a + b) == pane_cells(a) + pane_cells(b),
    decreases b.len(),
{
    if b.len() == 0 {
        assert(a + b =~= a);
    } else {
        assert((a + b).drop_last() =~= a + b.drop_last());
        lemma_pane_cells_concat(a, b.drop_last());
    }
}

/// The cells of dividers in a row are those of the first and those of the
/// rest.
pub proof fn lemma_line_cells_concat(a: Seq<Line>, b: Seq<Line>)
    ensures
        line_cells(a + b) == line_cells(a) + line_cells(b),
    decreases b.len(),
{
    if b.len() == 0 {
        assert(a + b =~= a);
    } else {
        assert((a + b).drop_last() =~= a + b.drop_last());
        lemma_line_cells_concat(a, b.drop_last());
    }
}

/// The cells of the panes and of the dividers add up to the cells of the
/// area, in a tree that fits its area and has a cell for every divider.
pub proof fn lemma_cells_sum<L>(
    t: Tree<L, SplitDirectionAndSize>,
    left: int,
    top: int,
    off_left: int,
    off_top: int,
    size: PtySize,
)
    requires
        t.fits(off_left, off_top, size.rows as int, size.cols as int),
        t.roomy(size.rows as int, size.cols as int),
    ensures
        pane_cells(t.slots(left, top, off_left, off_top, size)) + line_cells(t.lines(left, top))
            == size.rows * size.cols,
    decreases t,
{
    match t {
        Tree::Node { left: first, right: second, data } => {
            let d = data->0;
            let left2 = clip(left + d.shift_left());
            let top2 = clip(top + d.shift_top());
            let a = first.slots(left, top, 0, 0, d.first);
            let b = second.slots(left2, top2, d.shift_left(), d.shift_top(), d.second);
            let la = first.lines(left, top);
            let lb = second.lines(left2, top2);
            let line = d.divider(left, top);
            lemma_cells_sum(*first, left, top, 0, 0, d.first);
            lemma_cells_sum(*second, left2, top2, d.shift_left(), d.shift_top(), d.second);
            lemma_pane_cells_concat(a, b);
            lemma_line_cells_concat(seq![line], la);
            lemma_line_cells_concat(seq![line] + la, lb);
            assert(seq![line].drop_last() =~= Seq::<Line>::empty());
            assert(line_cells(seq![line].drop_last()) == 0);
            assert(seq![line].last() == line);
            assert(line_cells(seq![line]) == line.length);
            let r = size.rows as int;
            let c = size.cols as int;
            let f = d.first;
            let g = d.second;
            match d.direction {
                SplitDirection::Horizontal => {
                    assert(r * f.cols + r * g.cols + r == r * c) by (nonlinear_arith)
                        requires
                            f.cols + 1 + g.cols == c,
                    ;
                },
                SplitDirection::Vertical => {
                    assert(f.rows * c + g.rows * c + c == r * c) by (nonlinear_arith)
                        requires
                            f.rows + 1 + g.rows == r,
                    ;
                },
            }
        },
        Tree::Leaf(l) => {
            let s = t.slots(left, top, off_left, off_top, size);
            assert(s.drop_last() =~= Seq::<Slot>::empty());
            assert(pane_cells(s.drop_last()) == 0);
            assert(s.last().size == size);
            assert(t.lines(left, top) =~= Seq::empty());
        },
        Tree::Empty => {},
    }
}

/// Where pruning leaves a single pane in the place of a split, the pane
/// has the corner, the offset and the whole size that the split had.
pub proof fn lemma_collapsed_place<L>(
    t: Tree<L, SplitDirectionAndSize>,
    left: int,
    top: int,
    off_left: int,
    off_top: int,
    size: PtySize,
    dead: Seq<bool>,
    start: int,
    cell_width: u16,
    cell_height: u16,
)
    requires
        t is Node,
        t.fits(off_left, off_top, size.rows as int, size.cols as int),
        0 <= off_left <= usize::MAX,
        0 <= off_top <= usize::MAX,
        t.pruned(dead, start, size.rows as int, size.cols as int, cell_width, cell_height)
            is Leaf,
    ensures
        t.pruned(dead, start, size.rows as int, size.cols as int, cell_width, cell_height).slots(
            left,
            top,
            off_left,
            off_top,
            size,
        ) == seq![
            Slot {
                left: left as usize,
                top: top as usize,
                off_left: off_left as usize,
                off_top: off_top as usize,
                size,
            },
        ],
{
}

/// A tree has as many areas as splits.
pub proof fn lemma_areas_len<L>(t: Tree<L, SplitDirectionAndSize>, rows: int, cols: int)
    ensures
        t.areas(rows, cols).len() == t.nodes().len(),
    decreases t,
{
    match t {
        Tree::Node { left, right, data } => match data {
            Some(d) => {
                lemma_areas_len(*left, d.first.rows as int, d.first.cols as int);
                lemma_areas_len(*right, d.second.rows as int, d.second.cols as int);
            },
            None => {
                lemma_areas_len(*left, rows, cols);
                lemma_areas_len(*right, rows, cols);
            },
        },
        _ => {},
    }
}

/// Area conservation: in a tree that fits its area and has a cell for
/// every divider, the two children of
/// every split and the divider of one cell add up to what the split is
/// given on the axis that is split, and each child has all of it on the
/// other axis.
pub proof fn lemma_area_conservation<L>(
    t: Tree<L, SplitDirectionAndSize>,
    off_left: int,
    off_top: int,
    rows: int,
    cols: int,
    k: int,
)
    requires
        t.fits(off_left, off_top, rows, cols),
        t.roomy(rows, cols),
        0 <= k < t.nodes().len(),
    ensures
        k < t.areas(rows, cols).len(),
        t.nodes()[k] matches Some(d) && match d.direction {
            SplitDirection::Horizontal => {
                &&& d.first.cols + 1 + d.second.cols == t.areas(rows, cols)[k].1
                &&& d.first.rows == t.areas(rows, cols)[k].0
                &&& d.second.rows == t.areas(rows, cols)[k].0
            },
            SplitDirection::Vertical => {
                &&& d.first.rows + 1 + d.second.rows == t.areas(rows, cols)[k].0
                &&& d.first.cols == t.areas(rows, cols)[k].1
                &&& d.second.cols == t.areas(rows, cols)[k].1
            },
        },
    decreases t,
{
    lemma_areas_len(t, rows, cols);
    match t {
        Tree::Node { left, right, data } => {
            let d = data->0;
            let n = seq![data] + left.nodes();
            let a = seq![(rows, cols)] + left.areas(d.first.rows as int, d.first.cols as int);
            lemma_areas_len(*left, d.first.rows as int, d.first.cols as int);
            lemma_areas_len(*right, d.second.rows as int, d.second.cols as int);
            if k == 0 {
                assert(t.nodes()[0] == data);
                assert(t.areas(rows, cols)[0] == (rows, cols));
            } else if k < n.len() {
                lemma_area_conservation(
                    *left,
                    0,
                    0,
                    d.first.rows as int,
                    d.first.cols as int,
                    k - 1,
                );
                assert(t.nodes()[k] == left.nodes()[k - 1]);
                assert(t.areas(rows, cols)[k] == left.areas(
                    d.first.rows as int,
                    d.first.cols as int,
                )[k - 1]);
            } else {
                lemma_area_conservation(
                    *right,
                    d.shift_left(),
                    d.shift_top(),
                    d.second.rows as int,
                    d.second.cols as int,
                    k - n.len(),
                );
                assert(t.nodes()[k] == right.nodes()[k - n.len()]);
                assert(t.areas(rows, cols)[k] == right.areas(
                    d.second.rows as int,
                    d.second.cols as int,
                )[k - a.len()]);
            }
        },
        _ => {},
    }
}

/// Divider placement: the divider of a split runs along the whole of the
/// split, right behind the panes of its first child and right before the
/// panes of its second child.
pub proof fn lemma_divider_between<L>(
    t: Tree<L, SplitDirectionAndSize>,
    left: int,
    top: int,
    off_left: int,
    off_top: int,
    size: PtySize,
    i: int,
)
    requires
        t is Node,
        t.fits(off_left, off_top, size.rows as int, size.cols as int),
        t.roomy(size.rows as int, size.cols as int),
        0 <= left,
        0 <= top,
        0 <= off_left <= left,
        0 <= off_top <= top,
        off_left <= u16::MAX + 1,
        off_top <= u16::MAX + 1,
        left + size.cols <= usize::MAX,
        top + size.rows <= usize::MAX,
        0 <= i < t.leaves().len(),
    ensures
        ({
            let line = t.lines(left, top)[0];
            let slot = t.slots(left, top, off_left, off_top, size)[i];
            let d = t->data->0;
            let in_first = i < t->left.leaves().len();
            &&& line.direction == d.direction
            &&& match line.direction {
                SplitDirection::Horizontal => {
                    &&& line.left == left + d.first.cols
                    &&& line.top == top
                    &&& line.length == size.rows
                    &&& in_first ==> slot.left + slot.size.cols <= line.left
                    &&& !in_first ==> line.left < slot.left
                    &&& top <= slot.top && slot.top + slot.size.rows <= top + line.length
                },
                SplitDirection::Vertical => {
                    &&& line.left == left
                    &&& line.top == top + d.first.rows
                    &&& line.length == size.cols
                    &&& in_first ==> slot.top + slot.size.rows <= line.top
                    &&& !in_first ==> line.top < slot.top
                    &&& left <= slot.left && slot.left + slot.size.cols <= left + line.length
                },
            }
        }),
{
    match t {
        Tree::Node { left: first, right: second, data } => {
            let d = data->0;
            let a = first.slots(left, top, 0, 0, d.first);
            let b = second.slots(
                clip(left + d.shift_left()),
                clip(top + d.shift_top()),
                d.shift_left(),
                d.shift_top(),
                d.second,
            );
            lemma_slots_len(*first, left, top, 0, 0, d.first);
            lemma_slots_len(
                *second,
                clip(left + d.shift_left()),
                clip(top + d.shift_top()),
                d.shift_left(),
                d.shift_top(),
                d.second,
            );
            assert(t.lines(left, top)[0] == d.divider(left, top));
            if i < first.leaves().len() {
                assert((a + b)[i] == a[i]);
                lemma_slots_inside(*first, left, top, 0, 0, d.first, i);
            } else {
                assert((a + b)[i] == b[i - a.len()]);
                lemma_slots_inside(
                    *second,
                    clip(left + d.shift_left()),
                    clip(top + d.shift_top()),
                    d.shift_left(),
                    d.shift_top(),
                    d.second,
                    i - first.leaves().len(),
                );
            }
        },
        _ => {},
    }
}

/// Prune collapse: where pruning takes all the panes of one child of a
/// split and not all of the other, what is left of the other child stands
/// in the place of the split, at its offset, and fits the whole area that
/// the split had: where every divider has a cell, both children and the
/// divider. A pane that stands there alone is told the size of both
/// children and the divider.
pub proof fn lemma_prune_collapse<L>(
    t: Tree<L, SplitDirectionAndSize>,
    off_left: int,
    off_top: int,
    rows: int,
    cols: int,
    dead: Seq<bool>,
    start: int,
    cell_width: u16,
    cell_height: u16,
)
    requires
        t is Node,
        t.fits(off_left, off_top, rows, cols),
        0 <= rows <= u16::MAX,
        0 <= cols <= u16::MAX,
        0 <= off_left <= usize::MAX,
        0 <= off_top <= usize::MAX,
        ({
            let d = t->data->0;
            (t->left.pruned(
                dead,
                start,
                d.first.rows as int,
                d.first.cols as int,
                cell_width,
                cell_height,
            ) is Empty) != (t->right.pruned(
                dead,
                start + t->left.leaves().len(),
                d.second.rows as int,
                d.second.cols as int,
                cell_width,
                cell_height,
            ) is Empty)
        }),
    ensures
        ({
            let d = t->data->0;
            let a = t->left.pruned(
                dead,
                start,
                d.first.rows as int,
                d.first.cols as int,
                cell_width,
                cell_height,
            );
            let b = t->right.pruned(
                dead,
                start + t->left.leaves().len(),
                d.second.rows as int,
                d.second.cols as int,
                cell_width,
                cell_height,
            );
            let stays = if a is Empty {
                b
            } else {
                a
            };
            let after = t.pruned(dead, start, rows, cols, cell_width, cell_height);
            let area = sized(d.spec_height(), d.spec_width(), cell_width, cell_height);
            &&& after == stays.promoted(d, rows, cols, cell_width, cell_height)
            &&& after.leaves() == stays.leaves()
            &&& after.fits(off_left, off_top, rows, cols)
            &&& t.roomy(rows, cols) ==> d.spec_height() == rows && d.spec_width() == cols
            &&& stays matches Tree::Leaf(pane) ==> after == stays && Tree::rejoined_notes(
                a,
                b,
                d,
                rows,
                cols,
                cell_width,
                cell_height,
            ) == seq![(pane, area)]
        }),
{
    let d = t->data->0;
    lemma_pruned(t, off_left, off_top, rows, cols, dead, start, cell_width, cell_height);
    lemma_pruned(
        *t->left,
        0,
        0,
        d.first.rows as int,
        d.first.cols as int,
        dead,
        start,
        cell_width,
        cell_height,
    );
    lemma_pruned(
        *t->right,
        d.shift_left(),
        d.shift_top(),
        d.second.rows as int,
        d.second.cols as int,
        dead,
        start + t->left.leaves().len(),
        cell_width,
        cell_height,
    );
    let a = t->left.pruned(
        dead,
        start,
        d.first.rows as int,
        d.first.cols as int,
        cell_width,
        cell_height,
    );
    let b = t->right.pruned(
        dead,
        start + t->left.leaves().len(),
        d.second.rows as int,
        d.second.cols as int,
        cell_width,
        cell_height,
    );
    let area = sized(d.spec_height(), d.spec_width(), cell_width, cell_height);
    if a is Empty {
        lemma_promoted(
            b,
            d,
            d.shift_left(),
            d.shift_top(),
            d.second.rows as int,
            d.second.cols as int,
            rows,
            cols,
            cell_width,
            cell_height,
        );

    } else {
        lemma_promoted(
            a,
            d,
            0,
            0,
            d.first.rows as int,
            d.first.cols as int,
            rows,
            cols,
            cell_width,
            cell_height,
        );

    }
}

/// Resize absorption: redistributing an area over a tree leaves every
/// split its direction and its offset, and every first child its extent
/// on the axis that is split.
pub proof fn lemma_resize_keeps_first<L>(
    t: Tree<L, SplitDirectionAndSize>,
    rows: int,
    cols: int,
    cell_width: u16,
    cell_height: u16,
    k: int,
)
    requires
        0 <= k < t.nodes().len(),
        t.nodes()[k] is Some,
    ensures
        t.resized(rows, cols, cell_width, cell_height).nodes().len() == t.nodes().len(),
        ({
            let d = t.nodes()[k]->0;
            let e = t.resized(rows, cols, cell_width, cell_height).nodes()[k];
            &&& e matches Some(e)
            &&& e.direction == d.direction
            &&& e.left == d.left
            &&& e.top == d.top
            &&& d.direction == SplitDirection::Horizontal ==> e.first.cols == d.first.cols
            &&& d.direction == SplitDirection::Vertical ==> e.first.rows == d.first.rows
        }),
    decreases t,
{
    lemma_resized_nodes_len(t, rows, cols, cell_width, cell_height);
    match t {
        Tree::Node { left, right, data } => match data {
            Some(d) => {
                let r = t.resized(rows, cols, cell_width, cell_height);
                let (r1, c1, r2, c2) = match d.direction {
                    SplitDirection::Horizontal => (
                        rows,
                        d.first.cols as int,
                        rows,
                        rest(cols, d.first.cols as int),
                    ),
                    SplitDirection::Vertical => (
                        d.first.rows as int,
                        cols,
                        rest(rows, d.first.rows as int),
                        cols,
                    ),
                };
                let ln = left.resized(r1, c1, cell_width, cell_height);
                let rn = right.resized(r2, c2, cell_width, cell_height);
                lemma_resized_nodes_len(*left, r1, c1, cell_width, cell_height);
                lemma_resized_nodes_len(*right, r2, c2, cell_width, cell_height);
                assert(r.nodes() == seq![r->data] + ln.nodes() + rn.nodes());
                let n = seq![data] + left.nodes();
                if k == 0 {
                    assert(r.nodes()[0] == r->data);
                } else if k < n.len() {
                    assert(t.nodes()[k] == left.nodes()[k - 1]);
                    lemma_resize_keeps_first(*left, r1, c1, cell_width, cell_height, k - 1);
                    assert(r.nodes()[k] == ln.nodes()[k - 1]);
                } else {
                    assert(t.nodes()[k] == right.nodes()[k - n.len()]);
                    lemma_resize_keeps_first(
                        *right,
                        r2,
                        c2,
                        cell_width,
                        cell_height,
                        k - n.len(),
                    );
                    assert(r.nodes()[k] == rn.nodes()[k - n.len()]);
                }
            },
            None => {},
        },
        _ => {},
    }
}

/// Redistributing an area over a tree keeps its splits.
pub proof fn lemma_resized_nodes_len<L>(
    t: Tree<L, SplitDirectionAndSize>,
    rows: int,
    cols: int,
    cell_width: u16,
    cell_height: u16,
)
    ensures
        t.resized(rows, cols, cell_width, cell_height).nodes().len() == t.nodes().len(),
    decreases t,
{
    match t {
        Tree::Node { left, right, data } => match data {
            Some(d) => match d.direction {
                SplitDirection::Horizontal => {
                    lemma_resized_nodes_len(
                        *left,
                        rows,
                        d.first.cols as int,
                        cell_width,
                        cell_height,
                    );
                    lemma_resized_nodes_len(
                        *right,
                        rows,
                        rest(cols, d.first.cols as int),
                        cell_width,
                        cell_height,
                    );
                },
                SplitDirection::Vertical => {
                    lemma_resized_nodes_len(
                        *left,
                        d.first.rows as int,
                        cols,
                        cell_width,
                        cell_height,
                    );
                    lemma_resized_nodes_len(
                        *right,
                        rest(rows, d.first.rows as int),
                        cols,
                        cell_width,
                        cell_height,
                    );
                },
            },
            None => {},
        },
        _ => {},
    }
}

/// A tab can always take an outer size that is no smaller than the one it
/// has.
pub proof fn lemma_grow_resizable<P: Pane>(tab: &Tab<P>, size: PtySize)
    requires
        tab.wf(),
        tab.size().rows <= size.rows,
        tab.size().cols <= size.cols,
    ensures
        tab.resizable(size),
{
    if !(tab.tree() is Empty) {
        lemma_fits_absorbs(
            tab.tree(),
            0,
            0,
            tab.size().rows as int,
            tab.size().cols as int,
            size.rows as int,
            size.cols as int,
        );
    }
}

impl<L> Path<L, SplitDirectionAndSize> {
    /// The sum of the left offsets that the ancestors record.
    pub open spec fn offsets_left(self) -> int
        decreases self,
    {
        match self {
            Path::Top => 0,
            Path::Left { right, data, up } => up.offsets_left() + match data {
                Some(d) => d.left as int,
                None => 0,
            },
            Path::Right { left, data, up } => up.offsets_left() + match data {
                Some(d) => d.left as int,
                None => 0,
            },
        }
    }

    /// The sum of the top offsets that the ancestors record.
    pub open spec fn offsets_top(self) -> int
        decreases self,
    {
        match self {
            Path::Top => 0,
            Path::Left { right, data, up } => up.offsets_top() + match data {
                Some(d) => d.top as int,
                None => 0,
            },
            Path::Right { left, data, up } => up.offsets_top() + match data {
                Some(d) => d.top as int,
                None => 0,
            },
        }
    }

    /// Columns from the left edge of the parent to the position: those of
    /// the first child and the divider, if the position is the second child
    /// of a horizontal split.
    pub open spec fn shift_left(self) -> int {
        match self {
            Path::Right { left, data: Some(d), up } => d.shift_left(),
            _ => 0,
        }
    }

    /// Rows from the top edge of the parent to the position.
    pub open spec fn shift_top(self) -> int {
        match self {
            Path::Right { left, data: Some(d), up } => d.shift_top(),
            _ => 0,
        }
    }

    /// The size that the parent records for the position, and `outer` at
    /// the root.
    pub open spec fn slot_size(self, outer: PtySize) -> PtySize {
        match self {
            Path::Left { right, data: Some(d), up } => d.first,
            Path::Right { left, data: Some(d), up } => d.second,
            _ => outer,
        }
    }

    /// Every ancestor records as its offset the shift of its own position.
    pub open spec fn placed(self) -> bool
        decreases self,
    {
        match self {
            Path::Top => true,
            Path::Left { right, data, up } => {
                &&& data matches Some(d)
                &&& d.left == up.shift_left()
                &&& d.top == up.shift_top()
                &&& up.placed()
            },
            Path::Right { left, data, up } => {
                &&& data matches Some(d)
                &&& d.left == up.shift_left()
                &&& d.top == up.shift_top()
                &&& up.placed()
            },
        }
    }

    /// The corner of the position in cells of the whole area: the shifts of
    /// the position and of all its ancestors.
    pub open spec fn corner_left(self) -> int
        decreases self,
    {
        match self {
            Path::Top => 0,
            Path::Left { right, data, up } => up.corner_left(),
            Path::Right { left, data, up } => clip(up.corner_left() + self.shift_left()),
        }
    }

    /// The corner of the position in cells of the whole area.
    pub open spec fn corner_top(self) -> int
        decreases self,
    {
        match self {
            Path::Top => 0,
            Path::Left { right, data, up } => up.corner_top(),
            Path::Right { left, data, up } => clip(up.corner_top() + self.shift_top()),
        }
    }
}

/// Where a whole tree fits its area, every ancestor of a position records
/// the shift of its own position, and the subtree at the position fits
/// the area that its parent records for it.
pub proof fn lemma_path_placed<L>(
    path: Path<L, SplitDirectionAndSize>,
    t: Tree<L, SplitDirectionAndSize>,
    outer: PtySize,
)
    requires
        path.plug(t).fits(0, 0, outer.rows as int, outer.cols as int),
    ensures
        path.placed(),
        t.fits(
            path.shift_left(),
            path.shift_top(),
            path.slot_size(outer).rows as int,
            path.slot_size(outer).cols as int,
        ),
        0 <= path.offsets_left() && 0 <= path.offsets_top(),
        path.corner_left() == clip(path.offsets_left() + path.shift_left()),
        path.corner_top() == clip(path.offsets_top() + path.shift_top()),
    decreases path,
{
    match path {
        Path::Top => {},
        Path::Left { right, data, up } => {
            lemma_path_placed(*up, Tree::Node { left: Box::new(t), right, data }, outer);
        },
        Path::Right { left, data, up } => {
            lemma_path_placed(*up, Tree::Node { left, right: Box::new(t), data }, outer);
        },
    }
}

/// The places of the panes under a position are those of the subtree at
/// the position, laid out from the corner of the position.
pub proof fn lemma_slots_under<L>(
    path: Path<L, SplitDirectionAndSize>,
    t: Tree<L, SplitDirectionAndSize>,
    outer: PtySize,
    k: int,
)
    requires
        path.plug(t).fits(0, 0, outer.rows as int, outer.cols as int),
        0 <= k < t.leaves().len(),
    ensures
        path.before().len() + k < path.plug(t).leaves().len(),
        path.plug(t).slots(0, 0, 0, 0, outer)[path.before().len() + k] == t.slots(
            path.corner_left(),
            path.corner_top(),
            path.shift_left(),
            path.shift_top(),
            path.slot_size(outer),
        )[k],
    decreases path,
{
    lemma_plug_leaves(path, t);
    match path {
        Path::Top => {},
        Path::Left { right, data, up } => {
            let n = Tree::Node { left: Box::new(t), right, data };
            lemma_path_placed(*up, n, outer);
            lemma_slots_under(*up, n, outer, k);
            let d = data->0;
            let a = t.slots(up.corner_left(), up.corner_top(), 0, 0, d.first);
            let b = right.slots(
                clip(up.corner_left() + d.shift_left()),
                clip(up.corner_top() + d.shift_top()),
                d.shift_left(),
                d.shift_top(),
                d.second,
            );
            lemma_slots_len(t, up.corner_left(), up.corner_top(), 0, 0, d.first);
            assert((a + b)[k] == a[k]);
        },
        Path::Right { left, data, up } => {
            let n = Tree::Node { left, right: Box::new(t), data };
            lemma_path_placed(*up, n, outer);
            let m = left.leaves().len() as int;
            lemma_slots_under(*up, n, outer, m + k);
            let d = data->0;
            let a = left.slots(up.corner_left(), up.corner_top(), 0, 0, d.first);
            let b = t.slots(
                clip(up.corner_left() + d.shift_left()),
                clip(up.corner_top() + d.shift_top()),
                d.shift_left(),
                d.shift_top(),
                d.second,
            );
            lemma_slots_len(*left, up.corner_left(), up.corner_top(), 0, 0, d.first);
            lemma_slots_len(
                t,
                clip(up.corner_left() + d.shift_left()),
                clip(up.corner_top() + d.shift_top()),
                d.shift_left(),
                d.shift_top(),
                d.second,
            );
            assert((a + b)[m + k] == b[k]);
        },
    }
}

/// Pane placement: in a tree that fits the area `outer`, the pane under a
/// cursor lies where a walk from the pane to the root finds it: at the sum
/// of the offsets that its ancestors record, shifted past the first child
/// and the divider if the pane is a second child, as far as a position
/// can hold it; and it has the size that its parent records for it, or
/// `outer` if it is the root.
pub proof fn lemma_pane_by_path<L>(path: Path<L, SplitDirectionAndSize>, pane: L, outer: PtySize)
    requires
        path.plug(Tree::Leaf(pane)).fits(0, 0, outer.rows as int, outer.cols as int),
    ensures
        ({
            let whole = path.plug(Tree::Leaf(pane));
            let i = path.before().len() as int;
            &&& i < whole.leaves().len()
            &&& whole.leaves()[i] == pane
            &&& whole.slots(0, 0, 0, 0, outer)[i] == Slot {
                left: clip(path.offsets_left() + path.shift_left()) as usize,
                top: clip(path.offsets_top() + path.shift_top()) as usize,
                off_left: path.shift_left() as usize,
                off_top: path.shift_top() as usize,
                size: path.slot_size(outer),
            }
        }),
{
    let t = Tree::<L, SplitDirectionAndSize>::Leaf(pane);
    lemma_plug_leaves(path, t);
    lemma_path_placed(path, t, outer);
    lemma_slots_under(path, t, outer, 0);
}

/// Coverage: the panes and the dividers of a tab with panes hold exactly
/// the cells of its outer size.
pub proof fn lemma_tab_coverage<P: Pane>(tab: &Tab<P>, x: int, y: int)
    requires
        tab.wf(),
        tab.tiled(),
        tab.panes().len() > 0,
    ensures
        (0 <= x < tab.size().cols && 0 <= y < tab.size().rows) <==> (in_some_slot(
            tab.slots(),
            x,
            y,
        ) || on_some_line(tab.lines(), x, y)),
{
    lemma_coverage(tab.tree(), 0, 0, 0, 0, tab.size(), x, y);
}

/// No overlap: two different panes of a tab share no cell.
pub proof fn lemma_tab_panes_disjoint<P: Pane>(tab: &Tab<P>, i: int, j: int, x: int, y: int)
    requires
        tab.wf(),
        tab.tiled(),
        0 <= i < j < tab.panes().len(),
    ensures
        !(tab.slots()[i].covers(x, y) && tab.slots()[j].covers(x, y)),
{
    lemma_panes_disjoint(tab.tree(), 0, 0, 0, 0, tab.size(), i, j, x, y);
}

/// No pane of a tiled tab shares a cell with a divider.
pub proof fn lemma_tab_panes_off_lines<P: Pane>(tab: &Tab<P>, x: int, y: int)
    requires
        tab.wf(),
        tab.tiled(),
        tab.panes().len() > 0,
    ensures
        !(in_some_slot(tab.slots(), x, y) && on_some_line(tab.lines(), x, y)),
{
    lemma_panes_off_lines(tab.tree(), 0, 0, 0, 0, tab.size(), x, y);
}

/// The cells of the panes and of the dividers of a tiled tab add up to the
/// cells of its outer size.
pub proof fn lemma_tab_cells_sum<P: Pane>(tab: &Tab<P>)
    requires
        tab.wf(),
        tab.tiled(),
        tab.panes().len() > 0,
    ensures
        pane_cells(tab.slots()) + line_cells(tab.lines()) == tab.size().rows * tab.size().cols,
{
    lemma_cells_sum(tab.tree(), 0, 0, 0, 0, tab.size());
}

/// Area conservation: every split of a tab hands on exactly the area it is
/// given, the root split the outer size.
pub proof fn lemma_tab_area_conservation<P: Pane>(tab: &Tab<P>, k: int)
    requires
        tab.wf(),
        tab.tiled(),
        0 <= k < tab.tree().nodes().len(),
    ensures
        ({
            let areas = tab.tree().areas(tab.size().rows as int, tab.size().cols as int);
            &&& k < areas.len()
            &&& tab.tree().nodes()[k] matches Some(d) && match d.direction {
                SplitDirection::Horizontal => {
                    &&& d.first.cols + 1 + d.second.cols == areas[k].1
                    &&& d.first.rows == areas[k].0
                    &&& d.second.rows == areas[k].0
                },
                SplitDirection::Vertical => {
                    &&& d.first.rows + 1 + d.second.rows == areas[k].0
                    &&& d.first.cols == areas[k].1
                    &&& d.second.cols == areas[k].1
                },
            }
        }),
{
    lemma_area_conservation(
        tab.tree(),
        0,
        0,
        tab.size().rows as int,
        tab.size().cols as int,
        k,
    );
}

/// Resize absorption: the tree that `resize` leaves for an outer size that
/// the tab can take has every first child as wide, or as high, as before
/// on the axis of its split.
pub proof fn lemma_tab_resize_absorption<P: Pane>(tab: &Tab<P>, size: PtySize, k: int)
    requires
        tab.wf(),
        tab.resizable(size),
        0 <= k < tab.tree().nodes().len(),
    ensures
        ({
            let after = tab.tree().resized(
                size.rows as int,
                size.cols as int,
                size.cell_width(),
                size.cell_height(),
            );
            let d = tab.tree().nodes()[k]->0;
            &&& after.nodes().len() == tab.tree().nodes().len()
            &&& after.fits(0, 0, size.rows as int, size.cols as int)
            &&& after.nodes()[k] matches Some(e) && e.direction == d.direction
                && match d.direction {
                SplitDirection::Horizontal => e.first.cols == d.first.cols,
                SplitDirection::Vertical => e.first.rows == d.first.rows,
            }
        }),
{
    lemma_fits_payloads(tab.tree(), 0, 0, tab.size().rows as int, tab.size().cols as int);
    lemma_resize_keeps_first(
        tab.tree(),
        size.rows as int,
        size.cols as int,
        size.cell_width(),
        size.cell_height(),
        k,
    );
    lemma_resized_fits(
        tab.tree(),
        0,
        0,
        tab.size().rows as int,
        tab.size().cols as int,
        size.rows as int,
        size.cols as int,
        size.cell_width(),
        size.cell_height(),
    );
}

} // verus!
