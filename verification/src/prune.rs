//! Taking dead panes out of a tree of splits: which panes leave, what the
//! tree looks like afterwards, and where the active index goes.

use crate::bintree::Tree;
use crate::layout::{
    lemma_fits_absorbs, lemma_grown_roomy, lemma_recorded_concat, lemma_recorded_none,
    lemma_recorded_one, lemma_resized_fits, lemma_scale_le, recorded, relayout, size_of, sized,
};
use crate::pane::{Pane, PaneError};
use crate::size::{PtySize, SplitDirectionAndSize};
use std::rc::Rc;
use vstd::prelude::*;

verus! {

/// The items of `s` whose flag is `want`, in order. The flag of `s[i]` is
/// `flags[start + i]`.
pub open spec fn select<L>(s: Seq<L>, flags: Seq<bool>, start: int, want: bool) -> Seq<L>
    decreases s.len(),
{
    if s.len() == 0 {
        Seq::empty()
    } else {
        select(s.drop_last(), flags, start, want) + (if flags[start + s.len() - 1] == want {
            seq![s.last()]
        } else {
            Seq::empty()
        })
    }
}

/// How many of the first `upto` flags are set.
pub open spec fn count_set(flags: Seq<bool>, upto: int) -> int
    decreases upto,
{
    if upto <= 0 {
        0
    } else {
        count_set(flags, upto - 1) + (if flags[upto - 1] { 1int } else { 0int })
    }
}

/// Where the active index goes when the panes flagged in `dead` leave: it
/// follows the active pane if that one stays; if it leaves, the index goes
/// to the pane that stays before it, or to 0.
pub open spec fn active_after(active: int, dead: Seq<bool>) -> int {
    if active < dead.len() {
        let stay_before = active - count_set(dead, active);
        if dead[active] {
            if stay_before == 0 {
                0
            } else {
                stay_before - 1
            }
        } else {
            stay_before
        }
    } else {
        active - count_set(dead, dead.len() as int)
    }
}

/// Selecting from two sequences in a row is selecting from each, the
/// flags of the second behind those of the first.
pub proof fn lemma_select_concat<L>(a: Seq<L>, b: Seq<L>, flags: Seq<bool>, start: int, want: bool)
    ensures
        select(a + b, flags, start, want) == select(a, flags, start, want) + select(
            b,
            flags,
            start + a.len(),
            want,
        ),
    decreases b.len(),
{
    if b.len() == 0 {
        assert(a + b =~= a);
        assert(select(a, flags, start, want) + Seq::<L>::empty() =~= select(
            a,
            flags,
            start,
            want,
        ));
    } else {
        assert((a + b).drop_last() =~= a + b.drop_last());
        lemma_select_concat(a, b.drop_last(), flags, start, want);
        let tail = if flags[start + a.len() + b.len() - 1] == want {
            seq![b.last()]
        } else {
            Seq::<L>::empty()
        };
        assert((select(a, flags, start, want) + select(
            b.drop_last(),
            flags,
            start + a.len(),
            want,
        )) + tail =~= select(a, flags, start, want) + (select(
            b.drop_last(),
            flags,
            start + a.len(),
            want,
        ) + tail));
    }
}

/// Every item is selected by its flag or by the opposite one, and the flags
/// that are set count the items that `true` selects.
pub proof fn lemma_select_len<L>(s: Seq<L>, flags: Seq<bool>)
    ensures
        select(s, flags, 0, true).len() == count_set(flags, s.len() as int),
        select(s, flags, 0, false).len() == s.len() - count_set(flags, s.len() as int),
    decreases s.len(),
{
    if s.len() > 0 {
        lemma_select_len(s.drop_last(), flags);
    }
}

/// Counting flags over a longer prefix counts no fewer, and no more than
/// the prefix grows by.
pub proof fn lemma_count_set_bounds(flags: Seq<bool>, a: int, b: int)
    requires
        0 <= a <= b,
    ensures
        0 <= count_set(flags, a) <= a,
        count_set(flags, a) <= count_set(flags, b),
        count_set(flags, b) - count_set(flags, a) <= b - a,
    decreases b,
{
    if a < b {
        lemma_count_set_bounds(flags, a, b - 1);
    } else if a > 0 {
        lemma_count_set_bounds(flags, a - 1, a - 1);
    }
}

/// An active index that named a pane names one of the panes that stay, or
/// is 0 where none stays.
pub proof fn lemma_active_after_valid(active: int, dead: Seq<bool>)
    requires
        0 <= active,
        if dead.len() == 0 {
            active == 0
        } else {
            active < dead.len()
        },
    ensures
        ({
            let stay = dead.len() - count_set(dead, dead.len() as int);
            let a = active_after(active, dead);
            if stay == 0 {
                a == 0
            } else {
                0 <= a < stay
            }
        }),
{
    let n = dead.len() as int;
    lemma_count_set_bounds(dead, 0, n);
    if n > 0 {
        lemma_count_set_bounds(dead, active, active + 1);
        lemma_count_set_bounds(dead, active + 1, n);
    }
}

impl<L> Tree<L, SplitDirectionAndSize> {
    /// The tree with the offset of its root set to `off_left`, `off_top`.
    pub open spec fn moved(self, off_left: usize, off_top: usize) -> Self {
        match self {
            Tree::Node { left, right, data: Some(d) } => Tree::Node {
                left,
                right,
                data: Some(
                    SplitDirectionAndSize {
                        direction: d.direction,
                        left: off_left,
                        top: off_top,
                        first: d.first,
                        second: d.second,
                    },
                ),
            },
            _ => self,
        }
    }

    /// The tree in the place of the split `parent` that held it and that
    /// had `rows` by `cols` cells: it takes the whole area of the split
    /// and its offset.
    pub open spec fn promoted(
        self,
        parent: SplitDirectionAndSize,
        rows: int,
        cols: int,
        cell_width: u16,
        cell_height: u16,
    ) -> Self {
        self.resized(rows, cols, cell_width, cell_height).moved(parent.left, parent.top)
    }

    /// The panes that are told a new size when the tree takes the place of
    /// the split `parent` that held it and that had `rows` by `cols`
    /// cells, each with that size: a single pane is told the size of both
    /// children and the divider of the split; the panes of a split are
    /// told the sizes they have in the area of `parent`.
    pub open spec fn promoted_notes(
        self,
        parent: SplitDirectionAndSize,
        rows: int,
        cols: int,
        cell_width: u16,
        cell_height: u16,
    ) -> Seq<(L, PtySize)> {
        match self {
            Tree::Leaf(l) => seq![
                (l, sized(parent.spec_height(), parent.spec_width(), cell_width, cell_height)),
            ],
            _ => self.resized(rows, cols, cell_width, cell_height).notes(
                sized(rows, cols, cell_width, cell_height),
            ),
        }
    }

    /// What is left of a split with payload `d` and `rows` by `cols` cells
    /// whose children have become `a` and `b`: the split, if both are
    /// still there; the one that is still there, in the place of the
    /// split; nothing, if none is.
    pub open spec fn rejoined(
        a: Self,
        b: Self,
        d: SplitDirectionAndSize,
        rows: int,
        cols: int,
        cell_width: u16,
        cell_height: u16,
    ) -> Self {
        if a is Empty {
            if b is Empty {
                Tree::Empty
            } else {
                b.promoted(d, rows, cols, cell_width, cell_height)
            }
        } else if b is Empty {
            a.promoted(d, rows, cols, cell_width, cell_height)
        } else {
            Tree::Node { left: Box::new(a), right: Box::new(b), data: Some(d) }
        }
    }

    /// The tree, which has `rows` by `cols` cells, without the panes that
    /// `dead` flags; the flag of the first pane of the tree is
    /// `dead[start]`. A split that loses one child is replaced by the
    /// other, which takes its place and its area; a split that loses both
    /// is gone.
    pub open spec fn pruned(
        self,
        dead: Seq<bool>,
        start: int,
        rows: int,
        cols: int,
        cell_width: u16,
        cell_height: u16,
    ) -> Self
        decreases self,
    {
        match self {
            Tree::Empty => self,
            Tree::Leaf(l) => if dead[start] {
                Tree::Empty
            } else {
                self
            },
            Tree::Node { left, right, data } => match data {
                Some(d) => Self::rejoined(
                    left.pruned(
                        dead,
                        start,
                        d.first.rows as int,
                        d.first.cols as int,
                        cell_width,
                        cell_height,
                    ),
                    right.pruned(
                        dead,
                        start + left.leaves().len(),
                        d.second.rows as int,
                        d.second.cols as int,
                        cell_width,
                        cell_height,
                    ),
                    d,
                    rows,
                    cols,
                    cell_width,
                    cell_height,
                ),
                None => self,
            },
        }
    }
}

/// Moving a tree changes the offset that it fits at, and nothing else.
pub proof fn lemma_moved_fits<L>(
    t: Tree<L, SplitDirectionAndSize>,
    off_left: int,
    off_top: int,
    rows: int,
    cols: int,
    to_left: usize,
    to_top: usize,
)
    requires
        t.fits(off_left, off_top, rows, cols),
    ensures
        t.moved(to_left, to_top).fits(to_left as int, to_top as int, rows, cols),
        t.moved(to_left, to_top).leaves() == t.leaves(),
{
}

/// Pruning keeps the panes that are not flagged, in order, and what is
/// left still fits the area.
pub proof fn lemma_pruned<L>(
    t: Tree<L, SplitDirectionAndSize>,
    off_left: int,
    off_top: int,
    rows: int,
    cols: int,
    dead: Seq<bool>,
    start: int,
    cell_width: u16,
    cell_height: u16,
)
    requires
        t.fits(off_left, off_top, rows, cols),
        0 <= rows <= u16::MAX,
        0 <= cols <= u16::MAX,
        0 <= off_left <= usize::MAX,
        0 <= off_top <= usize::MAX,
    ensures
        ({
            let p = t.pruned(dead, start, rows, cols, cell_width, cell_height);
            &&& p is Empty || p.fits(off_left, off_top, rows, cols)
            &&& p.leaves() == select(t.leaves(), dead, start, false)
        }),
    decreases t,
{
    let p = t.pruned(dead, start, rows, cols, cell_width, cell_height);
    match t {
        Tree::Empty => {},
        Tree::Leaf(l) => {
            lemma_select_one(l, dead, start, false);
        },
        Tree::Node { left, right, data } => {
            let d = data->0;
            let a = left.pruned(
                dead,
                start,
                d.first.rows as int,
                d.first.cols as int,
                cell_width,
                cell_height,
            );
            let b = right.pruned(
                dead,
                start + left.leaves().len(),
                d.second.rows as int,
                d.second.cols as int,
                cell_width,
                cell_height,
            );
            lemma_pruned(
                *left,
                0,
                0,
                d.first.rows as int,
                d.first.cols as int,
                dead,
                start,
                cell_width,
                cell_height,
            );
            lemma_pruned(
                *right,
                d.shift_left(),
                d.shift_top(),
                d.second.rows as int,
                d.second.cols as int,
                dead,
                start + left.leaves().len(),
                cell_width,
                cell_height,
            );
            lemma_select_concat(left.leaves(), right.leaves(), dead, start, false);
            if a is Empty {
                assert(a.leaves() =~= Seq::<L>::empty());
                if b is Empty {
                    assert(b.leaves() =~= Seq::<L>::empty());
                    assert(p.leaves() =~= a.leaves() + b.leaves());
                } else {
                    lemma_promoted(
                        b,
                        d,
                        d.shift_left(),
                        d.shift_top(),
                        d.second.rows as int,
                        d.second.cols as int,
                        rows,
                        cols,
                        cell_width,
                        cell_height,
                    );
                    assert(p.leaves() =~= a.leaves() + b.leaves());
                }
            } else if b is Empty {
                assert(b.leaves() =~= Seq::<L>::empty());
                lemma_promoted(
                    a,
                    d,
                    0,
                    0,
                    d.first.rows as int,
                    d.first.cols as int,
                    rows,
                    cols,
                    cell_width,
                    cell_height,
                );
                assert(p.leaves() =~= a.leaves() + b.leaves());
            }
        },
    }
}

/// A tree that takes the place of the split that held it fits the area of
/// the split at the offset of the split, and keeps its panes.
pub proof fn lemma_promoted<L>(
    t: Tree<L, SplitDirectionAndSize>,
    parent: SplitDirectionAndSize,
    off_left: int,
    off_top: int,
    had_rows: int,
    had_cols: int,
    rows: int,
    cols: int,
    cell_width: u16,
    cell_height: u16,
)
    requires
        t.fits(off_left, off_top, had_rows, had_cols),
        had_rows <= rows <= u16::MAX,
        had_cols <= cols <= u16::MAX,
        0 <= rows,
        0 <= cols,
    ensures
        t.absorbs(rows, cols),
        t.promoted(parent, rows, cols, cell_width, cell_height).fits(
            parent.left as int,
            parent.top as int,
            rows,
            cols,
        ),
        t.promoted(parent, rows, cols, cell_width, cell_height).leaves() == t.leaves(),
{
    lemma_fits_absorbs(t, off_left, off_top, had_rows, had_cols, rows, cols);
    lemma_resized_fits(
        t,
        off_left,
        off_top,
        had_rows,
        had_cols,
        rows,
        cols,
        cell_width,
        cell_height,
    );
    lemma_moved_fits(
        t.resized(rows, cols, cell_width, cell_height),
        off_left,
        off_top,
        rows,
        cols,
        parent.left,
        parent.top,
    );
}

/// Pruning leaves a cell to every divider that is left, if every divider
/// had one.
pub proof fn lemma_pruned_roomy<L>(
    t: Tree<L, SplitDirectionAndSize>,
    off_left: int,
    off_top: int,
    rows: int,
    cols: int,
    dead: Seq<bool>,
    start: int,
    cell_width: u16,
    cell_height: u16,
)
    requires
        t.fits(off_left, off_top, rows, cols),
        t.roomy(rows, cols),
        0 <= rows <= u16::MAX,
        0 <= cols <= u16::MAX,
        0 <= off_left <= usize::MAX,
        0 <= off_top <= usize::MAX,
    ensures
        t.pruned(dead, start, rows, cols, cell_width, cell_height).roomy(rows, cols),
    decreases t,
{
    match t {
        Tree::Node { left, right, data } => {
            let d = data->0;
            let a = left.pruned(
                dead,
                start,
                d.first.rows as int,
                d.first.cols as int,
                cell_width,
                cell_height,
            );
            let b = right.pruned(
                dead,
                start + left.leaves().len(),
                d.second.rows as int,
                d.second.cols as int,
                cell_width,
                cell_height,
            );
            lemma_pruned(
                *left,
                0,
                0,
                d.first.rows as int,
                d.first.cols as int,
                dead,
                start,
                cell_width,
                cell_height,
            );
            lemma_pruned(
                *right,
                d.shift_left(),
                d.shift_top(),
                d.second.rows as int,
                d.second.cols as int,
                dead,
                start + left.leaves().len(),
                cell_width,
                cell_height,
            );
            lemma_pruned_roomy(
                *left,
                0,
                0,
                d.first.rows as int,
                d.first.cols as int,
                dead,
                start,
                cell_width,
                cell_height,
            );
            lemma_pruned_roomy(
                *right,
                d.shift_left(),
                d.shift_top(),
                d.second.rows as int,
                d.second.cols as int,
                dead,
                start + left.leaves().len(),
                cell_width,
                cell_height,
            );
            if a is Empty && !(b is Empty) {
                lemma_grown_roomy(
                    b,
                    d.shift_left(),
                    d.shift_top(),
                    d.second.rows as int,
                    d.second.cols as int,
                    rows,
                    cols,
                    cell_width,
                    cell_height,
                );
            } else if b is Empty && !(a is Empty) {
                lemma_grown_roomy(
                    a,
                    0,
                    0,
                    d.first.rows as int,
                    d.first.cols as int,
                    rows,
                    cols,
                    cell_width,
                    cell_height,
                );
            }
        },
        _ => {},
    }
}

impl<L> Tree<L, SplitDirectionAndSize> {
    /// The panes that are told a new size when a split with payload `d`
    /// and `rows` by `cols` cells, whose children have become `a` and `b`,
    /// is put together again, each with that size: the panes of the
    /// child that takes the place of the split, if one does.
    pub open spec fn rejoined_notes(
        a: Self,
        b: Self,
        d: SplitDirectionAndSize,
        rows: int,
        cols: int,
        cell_width: u16,
        cell_height: u16,
    ) -> Seq<(L, PtySize)> {
        if a is Empty && !(b is Empty) {
            b.promoted_notes(d, rows, cols, cell_width, cell_height)
        } else if b is Empty && !(a is Empty) {
            a.promoted_notes(d, rows, cols, cell_width, cell_height)
        } else {
            Seq::empty()
        }
    }

    /// The panes that are told a new size when the tree is pruned, each
    /// with that size, in the order in which they are told: below every
    /// split that loses one child and not the other, the panes of what is
    /// left of the other, with the sizes they have in the area of the
    /// split.
    pub open spec fn pruned_notes(
        self,
        dead: Seq<bool>,
        start: int,
        rows: int,
        cols: int,
        cell_width: u16,
        cell_height: u16,
    ) -> Seq<(L, PtySize)>
        decreases self,
    {
        match self {
            Tree::Node { left, right, data: Some(d) } => left.pruned_notes(
                dead,
                start,
                d.first.rows as int,
                d.first.cols as int,
                cell_width,
                cell_height,
            ) + right.pruned_notes(
                dead,
                start + left.leaves().len(),
                d.second.rows as int,
                d.second.cols as int,
                cell_width,
                cell_height,
            ) + Self::rejoined_notes(
                left.pruned(
                    dead,
                    start,
                    d.first.rows as int,
                    d.first.cols as int,
                    cell_width,
                    cell_height,
                ),
                right.pruned(
                    dead,
                    start + left.leaves().len(),
                    d.second.rows as int,
                    d.second.cols as int,
                    cell_width,
                    cell_height,
                ),
                d,
                rows,
                cols,
                cell_width,
                cell_height,
            ),
            _ => Seq::empty(),
        }
    }
}

/// Puts `t` in the place of the split `parent` that held it and that had
/// `rows` by `cols` cells, and tells its panes their new sizes. Gives back
/// the answers of the panes beside the tree.
pub(crate) fn promote<P: Pane>(
    t: Tree<Rc<P>, SplitDirectionAndSize>,
    parent: &SplitDirectionAndSize,
    rows: u16,
    cols: u16,
    cell_width: u16,
    cell_height: u16,
) -> (r: (Tree<Rc<P>, SplitDirectionAndSize>, Ghost<Seq<Result<(), PaneError>>>))
    requires
        parent.seated(rows as int, cols as int),
        t.absorbs(rows as int, cols as int),
        cols * cell_width <= u16::MAX,
        rows * cell_height <= u16::MAX,
    ensures
        r.0 == t.promoted(*parent, rows as int, cols as int, cell_width, cell_height),
        recorded(
            r.1@,
            t.promoted_notes(*parent, rows as int, cols as int, cell_width, cell_height),
        ),
{
    match t {
        Tree::Leaf(pane) => {
            proof {
                lemma_scale_le(
                    parent.spec_width(),
                    if cols == 0 {
                        1
                    } else {
                        cols as int
                    },
                    cell_width as int,
                    u16::MAX as int,
                );
                lemma_scale_le(
                    parent.spec_height(),
                    if rows == 0 {
                        1
                    } else {
                        rows as int
                    },
                    cell_height as int,
                    u16::MAX as int,
                );
            }
            let size = size_of(parent.height(), parent.width(), cell_width, cell_height);
            let answer = pane.resize(size);
            let ghost answers = seq![answer];
            proof {
                lemma_recorded_one(pane, size, answer);
            }
            (Tree::Leaf(pane), Ghost(answers))
        },
        other => {
            let size = size_of(rows, cols, cell_width, cell_height);
            let mut t = other;
            let (_first, answers) = relayout(&mut t, size, cell_width, cell_height);
            let moved = match t {
                Tree::Node { left, right, data: Some(d) } => Tree::Node {
                    left,
                    right,
                    data: Some(
                        SplitDirectionAndSize {
                            direction: d.direction,
                            left: parent.left,
                            top: parent.top,
                            first: d.first,
                            second: d.second,
                        },
                    ),
                },
                other => other,
            };
            (moved, answers)
        },
    }
}

/// What is left of a split with payload `d` and `rows` by `cols` cells
/// whose children have become `a` and `b`, and the answers of the panes
/// that were told a new size.
pub(crate) fn rejoin<P: Pane>(
    a: Tree<Rc<P>, SplitDirectionAndSize>,
    b: Tree<Rc<P>, SplitDirectionAndSize>,
    d: &SplitDirectionAndSize,
    rows: u16,
    cols: u16,
    cell_width: u16,
    cell_height: u16,
) -> (r: (Tree<Rc<P>, SplitDirectionAndSize>, Ghost<Seq<Result<(), PaneError>>>))
    requires
        d.seated(rows as int, cols as int),
        a is Empty || a.fits(0, 0, d.first.rows as int, d.first.cols as int),
        b is Empty || b.fits(
            d.shift_left(),
            d.shift_top(),
            d.second.rows as int,
            d.second.cols as int,
        ),
        cols * cell_width <= u16::MAX,
        rows * cell_height <= u16::MAX,
    ensures
        r.0 == Tree::rejoined(a, b, *d, rows as int, cols as int, cell_width, cell_height),
        recorded(
            r.1@,
            Tree::rejoined_notes(a, b, *d, rows as int, cols as int, cell_width, cell_height),
        ),
{
    proof {
        lemma_recorded_none::<P>();
    }
    if a.is_empty() {
        if b.is_empty() {
            (Tree::Empty, Ghost(Seq::empty()))
        } else {
            proof {
                lemma_promoted(
                    b,
                    *d,
                    d.shift_left(),
                    d.shift_top(),
                    d.second.rows as int,
                    d.second.cols as int,
                    rows as int,
                    cols as int,
                    cell_width,
                    cell_height,
                );
            }
            promote(b, d, rows, cols, cell_width, cell_height)
        }
    } else if b.is_empty() {
        proof {
            lemma_promoted(
                a,
                *d,
                0,
                0,
                d.first.rows as int,
                d.first.cols as int,
                rows as int,
                cols as int,
                cell_width,
                cell_height,
            );
        }
        promote(a, d, rows, cols, cell_width, cell_height)
    } else {
        (
            Tree::Node { left: Box::new(a), right: Box::new(b), data: Some(*d) },
            Ghost(Seq::empty()),
        )
    }
}

/// Selecting from one item gives the item or nothing.
pub proof fn lemma_select_one<L>(item: L, flags: Seq<bool>, start: int, want: bool)
    ensures
        select(seq![item], flags, start, want) == if flags[start] == want {
            seq![item]
        } else {
            Seq::<L>::empty()
        },
{
    let s = seq![item];
    assert(s.drop_last() =~= Seq::<L>::empty());
    assert(select(s.drop_last(), flags, start, want) =~= Seq::<L>::empty());
    assert(s.last() == item);
    assert(select(s, flags, start, want) =~= if flags[start] == want {
        seq![item]
    } else {
        Seq::<L>::empty()
    });
}

/// What has been selected from the first of two sequences, and then from
/// the second, has been selected from both in a row.
pub proof fn lemma_select_append<L>(
    done: Seq<L>,
    a: Seq<L>,
    b: Seq<L>,
    flags: Seq<bool>,
    start: int,
    want: bool,
)
    ensures
        (done + select(a, flags, start, want)) + select(b, flags, start + a.len(), want) == done
            + select(a + b, flags, start, want),
{
    lemma_select_concat(a, b, flags, start, want);
    assert((done + select(a, flags, start, want)) + select(b, flags, start + a.len(), want)
        =~= done + (select(a, flags, start, want) + select(b, flags, start + a.len(), want)));
}

/// Takes the pane `pane` out if `dead[start]` flags it, and appends it to
/// `removed` then.
fn prune_leaf<P: Pane>(pane: Rc<P>, dead: &Vec<bool>, start: usize, removed: &mut Vec<Rc<P>>) -> (r:
    Tree<Rc<P>, SplitDirectionAndSize>)
    requires
        start < dead@.len(),
    ensures
        r == if dead@[start as int] {
            Tree::<Rc<P>, SplitDirectionAndSize>::Empty
        } else {
            Tree::<Rc<P>, SplitDirectionAndSize>::Leaf(pane)
        },
        final(removed)@ == old(removed)@ + select(seq![pane], dead@, start as int, true),
{
    proof {
        lemma_select_one(pane, dead@, start as int, true);
    }
    if dead[start] {
        removed.push(pane);
        assert(final(removed)@ =~= old(removed)@ + seq![pane]);
        Tree::Empty
    } else {
        assert(final(removed)@ =~= old(removed)@ + Seq::<Rc<P>>::empty());
        Tree::Leaf(pane)
    }
}

/// Takes the panes that `dead` flags out of `t`, whose first pane has the
/// flag `dead[start]`, and appends them to `removed`. Gives back what is
/// left of the tree, the index of the flag behind those of `t`, and the
/// answers of the panes that were told a new size.
pub(crate) fn prune_tree<P: Pane>(
    t: Tree<Rc<P>, SplitDirectionAndSize>,
    dead: &Vec<bool>,
    start: usize,
    off_left: Ghost<int>,
    off_top: Ghost<int>,
    rows: u16,
    cols: u16,
    cell_width: u16,
    cell_height: u16,
    removed: &mut Vec<Rc<P>>,
) -> (r: (Tree<Rc<P>, SplitDirectionAndSize>, usize, Ghost<Seq<Result<(), PaneError>>>))
    requires
        t.fits(off_left@, off_top@, rows as int, cols as int),
        0 <= off_left@ <= usize::MAX,
        0 <= off_top@ <= usize::MAX,
        start + t.leaves().len() <= dead@.len(),
        cols * cell_width <= u16::MAX,
        rows * cell_height <= u16::MAX,
    ensures
        r.0 == t.pruned(dead@, start as int, rows as int, cols as int, cell_width, cell_height),
        r.1 == start + t.leaves().len(),
        final(removed)@ == old(removed)@ + select(t.leaves(), dead@, start as int, true),
        recorded(
            r.2@,
            t.pruned_notes(
                dead@,
                start as int,
                rows as int,
                cols as int,
                cell_width,
                cell_height,
            ),
        ),
    decreases t,
{
    match t {
        Tree::Empty => {
            assert(old(removed)@ + select(t.leaves(), dead@, start as int, true) =~= old(
                removed,
            )@);
            proof {
                lemma_recorded_none::<P>();
            }
            (Tree::Empty, start, Ghost(Seq::empty()))
        },
        Tree::Leaf(pane) => {
            assert(t.leaves().len() == 1);
            assert(start < dead.len());
            proof {
                lemma_recorded_none::<P>();
            }
            let kept = prune_leaf(pane, dead, start, removed);
            (kept, start + 1, Ghost(Seq::empty()))
        },
        Tree::Node { left, right, data } => {
            match data {
                Some(d) => {
                    proof {
                        lemma_children_scale(d, rows, cols, cell_width, cell_height);
                        lemma_pruned(
                            *left,
                            0,
                            0,
                            d.first.rows as int,
                            d.first.cols as int,
                            dead@,
                            start as int,
                            cell_width,
                            cell_height,
                        );
                        lemma_pruned(
                            *right,
                            d.shift_left(),
                            d.shift_top(),
                            d.second.rows as int,
                            d.second.cols as int,
                            dead@,
                            start + left.leaves().len(),
                            cell_width,
                            cell_height,
                        );
                        lemma_select_append(
                            old(removed)@,
                            left.leaves(),
                            right.leaves(),
                            dead@,
                            start as int,
                            true,
                        );
                    }
                    let (a, mid, Ghost(said_a)) = prune_tree(
                        *left,
                        dead,
                        start,
                        Ghost(0),
                        Ghost(0),
                        d.first.rows,
                        d.first.cols,
                        cell_width,
                        cell_height,
                        removed,
                    );
                    let (b, end, Ghost(said_b)) = prune_tree(
                        *right,
                        dead,
                        mid,
                        Ghost(d.shift_left()),
                        Ghost(d.shift_top()),
                        d.second.rows,
                        d.second.cols,
                        cell_width,
                        cell_height,
                        removed,
                    );
                    let (kept, Ghost(said_c)) = rejoin(
                        a,
                        b,
                        &d,
                        rows,
                        cols,
                        cell_width,
                        cell_height,
                    );
                    proof {
                        lemma_pruned_said(
                            t,
                            dead@,
                            start as int,
                            rows as int,
                            cols as int,
                            cell_width,
                            cell_height,
                            said_a,
                            said_b,
                            said_c,
                        );
                    }
                    (kept, end, Ghost(said_a + said_b + said_c))
                },
                None => (Tree::Empty, start, Ghost(Seq::empty())),
            }
        },
    }
}

/// The answers recorded while the two children of a split were pruned,
/// and then while the split was put together again, are recorded for the
/// pruning of the split.
pub proof fn lemma_pruned_said<P: Pane>(
    t: Tree<Rc<P>, SplitDirectionAndSize>,
    dead: Seq<bool>,
    start: int,
    rows: int,
    cols: int,
    cell_width: u16,
    cell_height: u16,
    said_a: Seq<Result<(), PaneError>>,
    said_b: Seq<Result<(), PaneError>>,
    said_c: Seq<Result<(), PaneError>>,
)
    requires
        t matches Tree::Node { left, right, data: Some(d) } && {
            let a = left.pruned(
                dead,
                start,
                d.first.rows as int,
                d.first.cols as int,
                cell_width,
                cell_height,
            );
            let b = right.pruned(
                dead,
                start + left.leaves().len(),
                d.second.rows as int,
                d.second.cols as int,
                cell_width,
                cell_height,
            );
            &&& recorded(
                said_a,
                left.pruned_notes(
                    dead,
                    start,
                    d.first.rows as int,
                    d.first.cols as int,
                    cell_width,
                    cell_height,
                ),
            )
            &&& recorded(
                said_b,
                right.pruned_notes(
                    dead,
                    start + left.leaves().len(),
                    d.second.rows as int,
                    d.second.cols as int,
                    cell_width,
                    cell_height,
                ),
            )
            &&& recorded(
                said_c,
                Tree::rejoined_notes(a, b, d, rows, cols, cell_width, cell_height),
            )
        },
    ensures
        recorded(
            said_a + said_b + said_c,
            t.pruned_notes(dead, start, rows, cols, cell_width, cell_height),
        ),
{
    let left = t->left;
    let right = t->right;
    let d = t->data->0;
    let notes_a = left.pruned_notes(
        dead,
        start,
        d.first.rows as int,
        d.first.cols as int,
        cell_width,
        cell_height,
    );
    let notes_b = right.pruned_notes(
        dead,
        start + left.leaves().len(),
        d.second.rows as int,
        d.second.cols as int,
        cell_width,
        cell_height,
    );
    let notes_c = Tree::rejoined_notes(
        left.pruned(dead, start, d.first.rows as int, d.first.cols as int, cell_width, cell_height),
        right.pruned(
            dead,
            start + left.leaves().len(),
            d.second.rows as int,
            d.second.cols as int,
            cell_width,
            cell_height,
        ),
        d,
        rows,
        cols,
        cell_width,
        cell_height,
    );
    lemma_recorded_concat(said_a, notes_a, said_b, notes_b);
    lemma_recorded_concat(said_a + said_b, notes_a + notes_b, said_c, notes_c);
}

/// The pixels of the children of a split fit where those of the split do.
pub proof fn lemma_children_scale(
    d: SplitDirectionAndSize,
    rows: u16,
    cols: u16,
    cell_width: u16,
    cell_height: u16,
)
    requires
        d.seated(rows as int, cols as int),
        cols * cell_width <= u16::MAX,
        rows * cell_height <= u16::MAX,
    ensures
        d.first.cols * cell_width <= u16::MAX,
        d.second.cols * cell_width <= u16::MAX,
        d.first.rows * cell_height <= u16::MAX,
        d.second.rows * cell_height <= u16::MAX,
{
    lemma_scale_le(d.first.cols as int, cols as int, cell_width as int, u16::MAX as int);
    lemma_scale_le(d.second.cols as int, cols as int, cell_width as int, u16::MAX as int);
    lemma_scale_le(d.first.rows as int, rows as int, cell_height as int, u16::MAX as int);
    lemma_scale_le(d.second.rows as int, rows as int, cell_height as int, u16::MAX as int);
}

/// Where the active index goes when the panes that `dead` flags leave.
pub fn active_after_prune(active: usize, dead: &Vec<bool>) -> (a: usize)
    ensures
        a == active_after(active as int, dead@),
{
    let upto: usize = if active < dead.len() {
        active
    } else {
        dead.len()
    };
    let mut gone: usize = 0;
    let mut i: usize = 0;
    while i < upto
        invariant
            i <= upto <= dead@.len(),
            gone == count_set(dead@, i as int),
            gone <= i,
        decreases upto - i,
    {
        if dead[i] {
            gone = gone + 1;
        }
        i = i + 1;
    }
    let stay: usize = active - gone;
    if active < dead.len() && dead[active] {
        if stay == 0 {
            0
        } else {
            stay - 1
        }
    } else {
        stay
    }
}

/// Whether every flag is set.
pub fn all_set(flags: &Vec<bool>) -> (b: bool)
    ensures
        b == (forall|i: int| 0 <= i < flags@.len() ==> flags@[i]),
{
    let mut i: usize = 0;
    while i < flags.len()
        invariant
            i <= flags@.len(),
            forall|j: int| 0 <= j < i ==> flags@[j],
        decreases flags@.len() - i,
    {
        if !flags[i] {
            return false;
        }
        i = i + 1;
    }
    true
}

} // verus!
