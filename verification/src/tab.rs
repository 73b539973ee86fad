//! A tab: a rectangle of cells that a tree of splits divides among panes.

use crate::bintree::{lemma_plug_leaves, lemma_plug_split, lemma_split_leaves, Tree};
use crate::layout::{
    can_absorb, collect_leaves, collect_lines, collect_slots, first_refusal, halves,
    lemma_fits_payloads, lemma_grown_roomy, lemma_lines_len, lemma_recorded_none,
    lemma_resized_fits, lemma_scale_le, lemma_sizes_inside, lemma_slots_len, lemma_split_fits,
    lemma_split_roomy, recorded, relayout, size_of, split_of, Line, Slot,
};
use crate::pane::{Pane, PaneError, PositionedPane};
use crate::prune::{
    active_after, active_after_prune, all_set, lemma_active_after_valid, lemma_pruned,
    lemma_pruned_roomy, lemma_select_len, prune_tree, select,
};
use crate::size::{cell_extent_of, PositionedSplit, PtySize, SplitDirection, SplitDirectionAndSize};
use std::rc::Rc;
use vstd::prelude::*;

verus! {

/// The identifier of a tab.
pub type TabId = usize;

/// Why a tab could not do, or not wholly do, what it was asked.
#[derive(Debug, Clone, PartialEq, Eq)]
pub enum TabError {
    /// The index names no pane of the tab.
    InvalidPaneIndex(usize),
    /// A pane did not take the size that the layout gave it. The layout
    /// has changed all the same.
    Resize(PaneError),
}

/// What a split of the pane of index `pane_index` gives back once the two
/// panes have answered to their new sizes: the index of the new pane, or
/// the first refusal.
pub open spec fn split_outcome(
    pane_index: usize,
    first: Result<(), PaneError>,
    second: Result<(), PaneError>,
) -> Result<usize, TabError> {
    match first {
        Err(e) => Err(TabError::Resize(e)),
        Ok(_) => match second {
            Err(e) => Err(TabError::Resize(e)),
            Ok(_) => Ok((pane_index + 1) as usize),
        },
    }
}

/// What `split_and_insert` gives back for the answers of the two panes.
pub fn split_result(
    pane_index: usize,
    first: Result<(), PaneError>,
    second: Result<(), PaneError>,
) -> (r: Result<usize, TabError>)
    requires
        pane_index < usize::MAX,
    ensures
        r == split_outcome(pane_index, first, second),
{
    match first {
        Err(e) => Err(TabError::Resize(e)),
        Ok(_) => match second {
            Err(e) => Err(TabError::Resize(e)),
            Ok(_) => Ok(pane_index + 1),
        },
    }
}

/// A container of panes, laid out by a tree of splits.
pub struct Tab<P: Pane> {
    id: TabId,
    tree: Tree<Rc<P>, SplitDirectionAndSize>,
    size: PtySize,
    active: usize,
}

impl<P: Pane> Tab<P> {
    /// The identifier of the tab.
    pub closed spec fn id(&self) -> TabId {
        self.id
    }

    /// The tree of panes and splits.
    pub closed spec fn tree(&self) -> Tree<Rc<P>, SplitDirectionAndSize> {
        self.tree
    }

    /// The outer size.
    pub closed spec fn size(&self) -> PtySize {
        self.size
    }

    /// The index of the active pane.
    pub closed spec fn active(&self) -> usize {
        self.active
    }

    /// The panes in pre-order: the order of the pane indices.
    pub open spec fn panes(&self) -> Seq<Rc<P>> {
        self.tree().leaves()
    }

    /// A tab is empty or its tree fits the outer size, and its active index
    /// names a pane if there is one.
    pub open spec fn wf(&self) -> bool {
        &&& self.tree() is Empty || self.tree().fits(
            0,
            0,
            self.size().rows as int,
            self.size().cols as int,
        )
        &&& self.active_valid()
    }

    /// Every split of the tab has a cell for its divider: then the panes
    /// and the dividers tile the outer size.
    pub open spec fn tiled(&self) -> bool {
        self.tree().roomy(self.size().rows as int, self.size().cols as int)
    }

    /// The panes in pre-order, each with the size of its place.
    pub open spec fn notes(&self) -> Seq<(Rc<P>, PtySize)> {
        self.tree().notes(self.size())
    }

    /// The active index names a pane, or is 0 where there is none.
    pub open spec fn active_valid(&self) -> bool {
        if self.panes().len() == 0 {
            self.active() == 0
        } else {
            self.active() < self.panes().len()
        }
    }

    /// The places of the panes, in pre-order.
    pub open spec fn slots(&self) -> Seq<Slot> {
        self.tree().slots(0, 0, 0, 0, self.size())
    }

    /// The dividers of the splits, in pre-order.
    pub open spec fn lines(&self) -> Seq<Line> {
        self.tree().lines(0, 0)
    }

    /// The pane of index `i` with its place.
    pub open spec fn positioned_pane(&self, i: int) -> PositionedPane<P> {
        PositionedPane {
            index: i as usize,
            is_active: i == self.active(),
            left: self.slots()[i].left,
            top: self.slots()[i].top,
            width: self.slots()[i].size.cols as usize,
            height: self.slots()[i].size.rows as usize,
            pane: self.panes()[i],
        }
    }

    /// The split of index `i` with the place of its divider.
    pub open spec fn positioned_split(&self, i: int) -> PositionedSplit {
        PositionedSplit {
            index: i as usize,
            direction: self.lines()[i].direction,
            left: self.lines()[i].left,
            top: self.lines()[i].top,
            size: self.lines()[i].length,
        }
    }

    /// The size of one cell, in pixels, as a size of one row and one column.
    pub open spec fn cell_size(&self) -> PtySize {
        PtySize {
            rows: 1,
            cols: 1,
            pixel_width: self.size().cell_width(),
            pixel_height: self.size().cell_height(),
        }
    }

    /// An empty tab of the given size. It takes its first pane by
    /// `assign_pane`.
    pub fn new(id: TabId, size: &PtySize) -> (tab: Self)
        ensures
            tab.wf(),
            tab.tiled(),
            tab.id() == id,
            tab.size() == *size,
            tab.active() == 0,
            tab.tree() is Empty,
    {
        Tab { id, tree: Tree::new(), size: *size, active: 0 }
    }

    /// The identifier of the tab.
    pub fn tab_id(&self) -> (id: TabId)
        ensures
            id == self.id(),
    {
        self.id
    }

    /// The outer size.
    pub fn get_size(&self) -> (size: PtySize)
        ensures
            size == self.size(),
    {
        self.size
    }

    /// The index of the active pane.
    pub fn get_active_idx(&self) -> (idx: usize)
        ensures
            idx == self.active(),
    {
        self.active
    }

    /// Where the active index goes when it is set to `pane_index`: there,
    /// if that names a pane; else to the last pane, or to 0 where there is
    /// none.
    pub open spec fn active_for(&self, pane_index: usize) -> int {
        if pane_index < self.panes().len() {
            pane_index as int
        } else if self.panes().len() == 0 {
            0
        } else {
            self.panes().len() - 1
        }
    }

    /// Makes the pane of index `pane_index` the active one. An index
    /// behind the last pane makes the last pane the active one.
    pub fn set_active_idx(&mut self, pane_index: usize)
        requires
            old(self).wf(),
        ensures
            final(self).wf(),
            final(self).active() == old(self).active_for(pane_index),
            final(self).tree() == old(self).tree(),
            final(self).size() == old(self).size(),
            final(self).id() == old(self).id(),
    {
        let mut leaves: Vec<Rc<P>> = Vec::new();
        collect_leaves(&self.tree, &mut leaves);
        self.active = if pane_index < leaves.len() {
            pane_index
        } else if leaves.len() == 0 {
            0
        } else {
            leaves.len() - 1
        };
    }

    /// Gives an empty tab its root pane.
    pub fn assign_pane(&mut self, pane: &Rc<P>)
        requires
            old(self).wf(),
            old(self).tree() is Empty,
        ensures
            final(self).tree() == Tree::<Rc<P>, SplitDirectionAndSize>::Leaf(*pane),
            final(self).panes() == seq![*pane],
            final(self).wf(),
            final(self).tiled(),
            final(self).active() == 0,
            final(self).size() == old(self).size(),
            final(self).id() == old(self).id(),
    {
        let fresh: Tree<Rc<P>, SplitDirectionAndSize> = Tree::new();
        match fresh.cursor().assign_top(Rc::clone(pane)) {
            Ok(c) => {
                self.tree = c.tree();
            },
            Err(_) => {},
        }
    }

    /// The size of one cell, in pixels, as a size of one row and one column.
    fn cell_dimensions(&self) -> (cell: PtySize)
        ensures
            cell == self.cell_size(),
            cell.pixel_width * self.size().cols <= self.size().pixel_width,
            cell.pixel_height * self.size().rows <= self.size().pixel_height,
    {
        PtySize {
            rows: 1,
            cols: 1,
            pixel_width: cell_extent_of(self.size.pixel_width, self.size.cols),
            pixel_height: cell_extent_of(self.size.pixel_height, self.size.rows),
        }
    }

    /// The places of the panes, in pre-order.
    fn pane_slots(&self) -> (v: Vec<Slot>)
        requires
            self.wf(),
        ensures
            v@ == self.slots(),
            v@.len() == self.panes().len(),
    {
        let mut v: Vec<Slot> = Vec::new();
        proof {
            lemma_slots_len(self.tree, 0, 0, 0, 0, self.size);
        }
        match &self.tree {
            Tree::Empty => {},
            _ => {
                collect_slots(&self.tree, 0, 0, 0, 0, self.size, &mut v);
            },
        }
        v
    }

    /// The panes with their places, in pre-order.
    pub fn iter_panes(&self) -> (panes: Vec<PositionedPane<P>>)
        requires
            self.wf(),
        ensures
            panes@.len() == self.panes().len(),
            forall|i: int| 0 <= i < panes@.len() ==> panes@[i] == self.positioned_pane(i),
    {
        let slots = self.pane_slots();
        let mut leaves: Vec<Rc<P>> = Vec::new();
        collect_leaves(&self.tree, &mut leaves);
        let mut panes: Vec<PositionedPane<P>> = Vec::new();
        let mut i: usize = 0;
        while i < slots.len()
            invariant
                i <= slots@.len(),
                slots@ == self.slots(),
                leaves@ == self.panes(),
                slots@.len() == leaves@.len(),
                panes@.len() == i,
                forall|j: int| 0 <= j < i ==> panes@[j] == self.positioned_pane(j),
            decreases slots@.len() - i,
        {
            let slot = slots[i];
            panes.push(
                PositionedPane {
                    index: i,
                    is_active: i == self.active,
                    left: slot.left,
                    top: slot.top,
                    width: slot.size.cols as usize,
                    height: slot.size.rows as usize,
                    pane: Rc::clone(&leaves[i]),
                },
            );
            i = i + 1;
        }
        panes
    }

    /// The split that would divide the pane of index `i` in `direction`: its
    /// corner is the pane's corner, and its children share the pane's cells
    /// but for the divider.
    pub open spec fn split_size(&self, i: int, direction: SplitDirection) -> SplitDirectionAndSize {
        split_of(
            direction,
            self.slots()[i].left as int,
            self.slots()[i].top as int,
            self.slots()[i].size,
            self.size().cell_width(),
            self.size().cell_height(),
        )
    }

    /// The sizes that the pane of index `pane_index` and a new pane beside
    /// or below it would have if the pane were split in `direction`. `None`
    /// iff the index names no pane.
    pub fn compute_split_size(&self, pane_index: usize, direction: SplitDirection) -> (r: Option<
        SplitDirectionAndSize,
    >)
        requires
            self.wf(),
        ensures
            r == if pane_index < self.panes().len() {
                Some(self.split_size(pane_index as int, direction))
            } else {
                None
            },
    {
        let cell = self.cell_dimensions();
        let slots = self.pane_slots();
        if pane_index >= slots.len() {
            return None;
        }
        let slot = slots[pane_index];
        proof {
            lemma_sizes_inside(self.tree, 0, 0, 0, 0, self.size, pane_index as int);
        }
        Some(self.split_slot(&slot, direction, &cell))
    }

    /// The split of a pane's place.
    fn split_slot(&self, slot: &Slot, direction: SplitDirection, cell: &PtySize) -> (r:
        SplitDirectionAndSize)
        requires
            slot.size.cols <= self.size().cols,
            slot.size.rows <= self.size().rows,
            *cell == self.cell_size(),
            cell.pixel_width * self.size().cols <= self.size().pixel_width,
            cell.pixel_height * self.size().rows <= self.size().pixel_height,
        ensures
            r == split_of(
                direction,
                slot.left as int,
                slot.top as int,
                slot.size,
                self.size().cell_width(),
                self.size().cell_height(),
            ),
    {
        let (cols1, cols2): (u16, u16) = match direction {
            SplitDirection::Horizontal => halves(slot.size.cols),
            SplitDirection::Vertical => (slot.size.cols, slot.size.cols),
        };
        let (rows1, rows2): (u16, u16) = match direction {
            SplitDirection::Horizontal => (slot.size.rows, slot.size.rows),
            SplitDirection::Vertical => halves(slot.size.rows),
        };
        proof {
            let w = self.size().cols as int;
            let h = self.size().rows as int;
            let cw = cell.pixel_width as int;
            let ch = cell.pixel_height as int;
            assert(w * cw == cw * w && h * ch == ch * h) by (nonlinear_arith);
            lemma_scale_le(cols1 as int, w, cw, u16::MAX as int);
            lemma_scale_le(cols2 as int, w, cw, u16::MAX as int);
            lemma_scale_le(rows1 as int, h, ch, u16::MAX as int);
            lemma_scale_le(rows2 as int, h, ch, u16::MAX as int);
        }
        SplitDirectionAndSize {
            direction,
            left: slot.left,
            top: slot.top,
            first: size_of(rows1, cols1, cell.pixel_width, cell.pixel_height),
            second: size_of(rows2, cols2, cell.pixel_width, cell.pixel_height),
        }
    }

    /// The splits with the places of their dividers, in pre-order.
    pub fn iter_splits(&self) -> (splits: Vec<PositionedSplit>)
        requires
            self.wf(),
        ensures
            splits@.len() == self.tree().nodes().len(),
            splits@.len() == self.lines().len(),
            forall|i: int| 0 <= i < splits@.len() ==> splits@[i] == self.positioned_split(i),
    {
        let mut lines: Vec<Line> = Vec::new();
        match &self.tree {
            Tree::Empty => {},
            _ => {
                collect_lines(&self.tree, 0, 0, Ghost(0), Ghost(0), self.size, &mut lines);
            },
        }
        proof {
            lemma_fits_payloads(
                self.tree,
                0,
                0,
                self.size.rows as int,
                self.size.cols as int,
            );
            lemma_lines_len(self.tree, 0, 0);
        }
        let mut splits: Vec<PositionedSplit> = Vec::new();
        let mut i: usize = 0;
        while i < lines.len()
            invariant
                i <= lines@.len(),
                lines@ == self.lines(),
                splits@.len() == i,
                forall|j: int| 0 <= j < i ==> splits@[j] == self.positioned_split(j),
            decreases lines@.len() - i,
        {
            let line = lines[i];
            splits.push(
                PositionedSplit {
                    index: i,
                    direction: line.direction,
                    left: line.left,
                    top: line.top,
                    size: line.length,
                },
            );
            i = i + 1;
        }
        splits
    }

    /// The tab can take the outer size `size`: it is empty, or at every
    /// split the first child can keep its extent on the axis that is split
    /// and leave a cell to the divider, or has no cell there in an area
    /// that has none.
    pub open spec fn resizable(&self, size: PtySize) -> bool {
        self.tree() is Empty || self.tree().absorbs(size.rows as int, size.cols as int)
    }

    /// Whether `resize` to `size` would change the tab.
    pub fn can_resize(&self, size: &PtySize) -> (b: bool)
        ensures
            b == self.resizable(*size),
    {
        match &self.tree {
            Tree::Empty => true,
            _ => can_absorb(&self.tree, size.rows, size.cols),
        }
    }

    /// The outer size `size` is no smaller than the one the tab has.
    pub open spec fn grows_to(&self, size: PtySize) -> bool {
        self.size().rows <= size.rows && self.size().cols <= size.cols
    }

    /// Gives the tab a new outer size and redistributes it over the tree
    /// from the root down: every first child keeps its extent on the axis
    /// that is split, every second child takes what is left. Every pane is
    /// told its new size, in pre-order, the root pane the outer size
    /// itself; the first refusal of a pane comes back, and the layout has
    /// changed all the same. A size that the tab cannot take leaves it as
    /// it is, and no pane is told anything.
    pub fn resize(&mut self, size: PtySize) -> (r: Result<(), PaneError>)
        requires
            old(self).wf(),
        ensures
            final(self).wf(),
            final(self).id() == old(self).id(),
            final(self).active() == old(self).active(),
            final(self).panes() == old(self).panes(),
            old(self).resizable(size) ==> {
                &&& final(self).size() == size
                &&& final(self).tree() == old(self).tree().resized(
                    size.rows as int,
                    size.cols as int,
                    size.cell_width(),
                    size.cell_height(),
                )
                &&& (exists|answers: Seq<Result<(), PaneError>>| #[trigger]
                    recorded(answers, final(self).notes()) && r == first_refusal(answers))
            },
            !old(self).resizable(size) ==> {
                &&& final(self).size() == old(self).size()
                &&& final(self).tree() == old(self).tree()
                &&& r == Ok::<(), PaneError>(())
            },
            old(self).tiled() && old(self).grows_to(size) ==> final(self).tiled(),
    {
        if !self.can_resize(&size) {
            return Ok(());
        }
        let cell_width = cell_extent_of(size.pixel_width, size.cols);
        let cell_height = cell_extent_of(size.pixel_height, size.rows);
        proof {
            if !(self.tree is Empty) {
                lemma_resized_fits(
                    self.tree,
                    0,
                    0,
                    self.size.rows as int,
                    self.size.cols as int,
                    size.rows as int,
                    size.cols as int,
                    cell_width,
                    cell_height,
                );
                if self.tiled() && self.grows_to(size) {
                    lemma_grown_roomy(
                        self.tree,
                        0,
                        0,
                        self.size.rows as int,
                        self.size.cols as int,
                        size.rows as int,
                        size.cols as int,
                        cell_width,
                        cell_height,
                    );
                }
            }
            assert(size.cols * cell_width == cell_width * size.cols) by (nonlinear_arith);
            assert(size.rows * cell_height == cell_height * size.rows) by (nonlinear_arith);
        }
        self.size = size;
        let (r, Ghost(answers)) = match &self.tree {
            Tree::Empty => {
                proof {
                    lemma_recorded_none::<P>();
                    assert(self.notes() =~= Seq::empty());
                }
                (Ok(()), Ghost(Seq::empty()))
            },
            _ => relayout(&mut self.tree, size, cell_width, cell_height),
        };
        assert(recorded(answers, self.notes()) && r == first_refusal(answers));
        r
    }

    /// The pane of index `i` has a cell for a divider along the axis of a
    /// split in `direction`.
    pub open spec fn splittable(&self, i: int, direction: SplitDirection) -> bool {
        match direction {
            SplitDirection::Horizontal => self.slots()[i].size.cols >= 1,
            SplitDirection::Vertical => self.slots()[i].size.rows >= 1,
        }
    }

    /// The payload that a split of the pane of index `i` gets in the tree:
    /// the sizes of `split_size`, at the pane's offset within the split
    /// that holds the pane.
    pub open spec fn stored_split(
        &self,
        i: int,
        direction: SplitDirection,
    ) -> SplitDirectionAndSize {
        SplitDirectionAndSize {
            direction,
            left: self.slots()[i].off_left,
            top: self.slots()[i].off_top,
            first: self.split_size(i, direction).first,
            second: self.split_size(i, direction).second,
        }
    }

    /// The two panes of a split of the pane of index `i` have been told the
    /// sizes of `split_size`, the pane that was there the first and `pane`
    /// the second, and have answered `first` and `second`.
    pub open spec fn split_told(
        &self,
        i: int,
        direction: SplitDirection,
        pane: Rc<P>,
        first: Result<(), PaneError>,
        second: Result<(), PaneError>,
    ) -> bool {
        &&& call_ensures(
            P::resize,
            (&*self.panes()[i], self.split_size(i, direction).first),
            first,
        )
        &&& call_ensures(P::resize, (&*pane, self.split_size(i, direction).second), second)
    }

    /// Splits the pane of index `pane_index` in `direction`: the pane
    /// becomes the first child of a new split and `pane` the second, both
    /// are told their new sizes, and `pane` becomes the active pane. Gives
    /// back the index of `pane`, or the first refusal of a pane to take
    /// its size; the split is made all the same.
    pub fn split_and_insert(
        &mut self,
        pane_index: usize,
        direction: SplitDirection,
        pane: Rc<P>,
    ) -> (r: Result<usize, TabError>)
        requires
            old(self).wf(),
        ensures
            final(self).wf(),
            final(self).id() == old(self).id(),
            final(self).size() == old(self).size(),
            pane_index >= old(self).panes().len() ==> {
                &&& r == Err::<usize, TabError>(TabError::InvalidPaneIndex(pane_index))
                &&& final(self).tree() == old(self).tree()
                &&& final(self).active() == old(self).active()
            },
            pane_index < old(self).panes().len() ==> {
                &&& final(self).tree() == old(self).tree().split_leaf(
                    pane_index as int,
                    pane,
                    Some(old(self).stored_split(pane_index as int, direction)),
                )
                &&& final(self).panes() == old(self).panes().insert(pane_index + 1, pane)
                &&& final(self).active() == pane_index + 1
                &&& (exists|first: Result<(), PaneError>, second: Result<(), PaneError>| #[trigger]
                    old(self).split_told(pane_index as int, direction, pane, first, second) && r
                        == split_outcome(pane_index, first, second))
            },
            pane_index < old(self).panes().len() && old(self).tiled() && old(self).splittable(
                pane_index as int,
                direction,
            ) ==> final(self).tiled(),
    {
        let info = match self.compute_split_size(pane_index, direction) {
            Some(info) => info,
            None => {
                return Err(TabError::InvalidPaneIndex(pane_index));
            },
        };
        let slots = self.pane_slots();
        let slot = slots[pane_index];
        let stored = SplitDirectionAndSize {
            direction,
            left: slot.off_left,
            top: slot.off_top,
            first: info.first,
            second: info.second,
        };
        let ghost before = self.tree;
        proof {
            lemma_sizes_inside(before, 0, 0, 0, 0, self.size, pane_index as int);
            lemma_split_fits(before, 0, 0, 0, 0, self.size, pane_index as int, pane, stored);
            lemma_split_leaves(before, pane_index as int, pane, Some(stored));
            if self.tiled() && self.splittable(pane_index as int, direction) {
                lemma_split_roomy(before, 0, 0, 0, 0, self.size, pane_index as int, pane, stored);
            }
        }
        let mut tree: Tree<Rc<P>, SplitDirectionAndSize> = Tree::new();
        core::mem::swap(&mut self.tree, &mut tree);
        let mut cursor = match tree.cursor().go_to_nth_leaf(pane_index) {
            Ok(c) => c,
            Err(c) => {
                self.tree = c.tree();
                return Err(TabError::InvalidPaneIndex(pane_index));
            },
        };
        let ghost path = cursor.path;
        let existing = match cursor.leaf_mut() {
            Some(l) => Rc::clone(l),
            None => {
                self.tree = cursor.tree();
                return Err(TabError::InvalidPaneIndex(pane_index));
            },
        };
        proof {
            lemma_plug_split(path, Tree::Leaf(existing), 0, pane, Some(stored));
            lemma_plug_leaves(path, Tree::Leaf(existing));
            assert(before.leaves()[pane_index as int] == existing);
        }
        let first = existing.resize(info.first);
        let second = pane.resize(info.second);
        assert(old(self).split_told(pane_index as int, direction, pane, first, second));
        let cursor = match cursor.split_leaf_and_insert_right(pane) {
            Ok(c) => c,
            Err(c) => {
                self.tree = c.tree();
                return Err(TabError::InvalidPaneIndex(pane_index));
            },
        };
        let cursor = match cursor.assign_node(Some(stored)) {
            Ok(c) => c,
            Err(c) => c,
        };
        self.tree = cursor.tree();
        assert(pane_index < slots.len());
        self.active = pane_index + 1;
        split_result(pane_index, first, second)
    }

    /// Asks every pane, in pre-order, whether it is dead, and gives back
    /// the answers in that order: each is what the pane of the same index
    /// said.
    fn dead_flags(&self) -> (flags: Vec<bool>)
        ensures
            self.dead_answers(flags@),
    {
        let mut leaves: Vec<Rc<P>> = Vec::new();
        collect_leaves(&self.tree, &mut leaves);
        let mut flags: Vec<bool> = Vec::new();
        while flags.len() < leaves.len()
            invariant
                leaves@ == self.panes(),
                Self::answers_of(leaves@, flags@),
            decreases leaves@.len() - flags@.len(),
        {
            let dead = leaves[flags.len()].is_dead();
            flags.push(dead);
        }
        flags
    }

    /// True iff every pane of the tab says that it is dead; true of a tab
    /// without panes.
    pub fn is_dead(&self) -> (b: bool)
        ensures
            self.panes().len() == 0 ==> b,
            (exists|flags: Seq<bool>| #[trigger]
                self.dead_answers(flags) && b == Self::all_dead(flags)),
    {
        let flags = self.dead_flags();
        all_set(&flags)
    }

    /// `flags` are answers that the first panes of `panes` can give when
    /// they are asked whether they are dead, one answer for each.
    pub open spec fn answers_of(panes: Seq<Rc<P>>, flags: Seq<bool>) -> bool {
        &&& flags.len() <= panes.len()
        &&& forall|i: int|
            0 <= i < flags.len() ==> call_ensures(P::is_dead, (&*panes[i],), #[trigger] flags[i])
    }

    /// `flags` are answers that the panes of the tab can give when they are
    /// asked whether they are dead, one for each pane, in pre-order.
    pub open spec fn dead_answers(&self, flags: Seq<bool>) -> bool {
        flags.len() == self.panes().len() && Self::answers_of(self.panes(), flags)
    }

    /// Every answer is that the pane is dead.
    pub open spec fn all_dead(flags: Seq<bool>) -> bool {
        forall|i: int| 0 <= i < flags.len() ==> flags[i]
    }

    /// `after` is this tab once the panes that `dead` flags have been taken
    /// out of it, and `removed` are those panes.
    pub open spec fn pruned_to(&self, after: &Self, removed: Seq<Rc<P>>, dead: Seq<bool>) -> bool {
        &&& dead.len() == self.panes().len()
        &&& after.id() == self.id()
        &&& after.size() == self.size()
        &&& after.tree() == self.tree().pruned(
            dead,
            0,
            self.size().rows as int,
            self.size().cols as int,
            self.size().cell_width(),
            self.size().cell_height(),
        )
        &&& after.panes() == select(self.panes(), dead, 0, false)
        &&& removed == select(self.panes(), dead, 0, true)
        &&& after.active() == active_after(self.active() as int, dead)
    }

    /// The panes that are told a new size when the panes that `dead` flags
    /// are taken out, each with that size, in the order in which they are
    /// told.
    pub open spec fn prune_notes(&self, dead: Seq<bool>) -> Seq<(Rc<P>, PtySize)> {
        self.tree().pruned_notes(
            dead,
            0,
            self.size().rows as int,
            self.size().cols as int,
            self.size().cell_width(),
            self.size().cell_height(),
        )
    }

    /// Every pane of `prune_notes` has been told its size and has given an
    /// answer.
    pub open spec fn prune_told(&self, dead: Seq<bool>) -> bool {
        exists|answers: Seq<Result<(), PaneError>>| #[trigger]
            recorded(answers, self.prune_notes(dead))
    }

    /// Takes the panes that `dead` flags out of the tab and gives them
    /// back, in pre-order. Where a split loses one child, the other takes
    /// the place and the whole area of the split, and the panes in it are
    /// told their new sizes; what they answer is not looked at. The active
    /// index follows the active pane; if that one leaves, it goes to the
    /// pane before it.
    pub fn prune_panes(&mut self, dead: &Vec<bool>) -> (removed: Vec<Rc<P>>)
        requires
            old(self).wf(),
            dead@.len() == old(self).panes().len(),
        ensures
            final(self).wf(),
            old(self).pruned_to(final(self), removed@, dead@),
            old(self).prune_told(dead@),
            old(self).tiled() ==> final(self).tiled(),
    {
        let mut removed: Vec<Rc<P>> = Vec::new();
        let cell = self.cell_dimensions();
        let active = active_after_prune(self.active, dead);
        proof {
            lemma_select_len(self.tree.leaves(), dead@);
            lemma_active_after_valid(self.active as int, dead@);
            assert(self.size.cols * cell.pixel_width == cell.pixel_width * self.size.cols)
                by (nonlinear_arith);
            assert(self.size.rows * cell.pixel_height == cell.pixel_height * self.size.rows)
                by (nonlinear_arith);
        }
        let mut tree: Tree<Rc<P>, SplitDirectionAndSize> = Tree::new();
        core::mem::swap(&mut self.tree, &mut tree);
        match tree {
            Tree::Empty => {
                assert(select(tree.leaves(), dead@, 0, false) =~= tree.leaves());
                assert(select(tree.leaves(), dead@, 0, true) =~= removed@);
                proof {
                    lemma_recorded_none::<P>();
                    assert(old(self).prune_notes(dead@) =~= Seq::empty());
                    assert(recorded::<P>(Seq::empty(), old(self).prune_notes(dead@)));
                }
            },
            other => {
                proof {
                    lemma_pruned(
                        other,
                        0,
                        0,
                        self.size.rows as int,
                        self.size.cols as int,
                        dead@,
                        0,
                        cell.pixel_width,
                        cell.pixel_height,
                    );
                    if old(self).tiled() {
                        lemma_pruned_roomy(
                            other,
                            0,
                            0,
                            self.size.rows as int,
                            self.size.cols as int,
                            dead@,
                            0,
                            cell.pixel_width,
                            cell.pixel_height,
                        );
                    }
                }
                let (kept, _end, Ghost(answers)) = prune_tree(
                    other,
                    dead,
                    0,
                    Ghost(0),
                    Ghost(0),
                    self.size.rows,
                    self.size.cols,
                    cell.pixel_width,
                    cell.pixel_height,
                    &mut removed,
                );
                assert(recorded(answers, old(self).prune_notes(dead@)));
                self.tree = kept;
            },
        }
        self.active = active;
        removed
    }

    /// Takes the panes that say they are dead out of the tab and gives
    /// them back, as `prune_panes` does for the flags that the panes gave.
    pub fn prune_dead_panes(&mut self) -> (removed: Vec<Rc<P>>)
        requires
            old(self).wf(),
        ensures
            final(self).wf(),
            (exists|dead: Seq<bool>| #[trigger]
                old(self).dead_answers(dead) && old(self).pruned_to(final(self), removed@, dead)
                    && old(self).prune_told(dead)),
            old(self).tiled() ==> final(self).tiled(),
    {
        let dead = self.dead_flags();
        self.prune_panes(&dead)
    }

    /// The active pane, if the active index names one.
    pub fn get_active_pane(&self) -> (pane: Option<Rc<P>>)
        ensures
            pane == if self.active() < self.panes().len() {
                Some(self.panes()[self.active() as int])
            } else {
                None
            },
    {
        let mut leaves: Vec<Rc<P>> = Vec::new();
        collect_leaves(&self.tree, &mut leaves);
        if self.active < leaves.len() {
            Some(Rc::clone(&leaves[self.active]))
        } else {
            None
        }
    }
}

} // verus!
