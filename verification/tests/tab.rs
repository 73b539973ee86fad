use mux_tab::pane::{Pane, PaneError, PaneId};
use mux_tab::size::{PtySize, SplitDirection, SplitDirectionAndSize};
use mux_tab::prune::{active_after_prune, all_set};
use mux_tab::tab::{split_result, Tab, TabError};
use std::cell::{Cell, RefCell};
use std::rc::Rc;

struct FakePane {
    id: PaneId,
    size: RefCell<PtySize>,
    dead: Cell<bool>,
    refuse_resize: Cell<bool>,
    resizes: Cell<usize>,
}

impl FakePane {
    fn new(id: PaneId, size: PtySize) -> Rc<FakePane> {
        Rc::new(Self {
            id,
            size: RefCell::new(size),
            dead: Cell::new(false),
            refuse_resize: Cell::new(false),
            resizes: Cell::new(0),
        })
    }
}

impl Pane for FakePane {
    fn pane_id(&self) -> PaneId {
        self.id
    }
    fn is_dead(&self) -> bool {
        self.dead.get()
    }
    fn resize(&self, size: PtySize) -> Result<(), PaneError> {
        self.resizes.set(self.resizes.get() + 1);
        if self.refuse_resize.get() {
            return Err(PaneError {
                message: format!("pane {} refuses", self.id),
            });
        }
        *self.size.borrow_mut() = size;
        Ok(())
    }
    fn send_paste(&self, _text: &str) -> Result<(), PaneError> {
        unreachable!()
    }
}

fn size_24_80() -> PtySize {
    PtySize {
        rows: 24,
        cols: 80,
        pixel_width: 800,
        pixel_height: 600,
    }
}

fn cells_px(rows: u16, cols: u16, pixel_width: u16, pixel_height: u16) -> PtySize {
    PtySize {
        rows,
        cols,
        pixel_width,
        pixel_height,
    }
}

fn cells(rows: u16, cols: u16) -> PtySize {
    PtySize {
        rows,
        cols,
        pixel_width: cols * 10,
        pixel_height: rows * 25,
    }
}

fn three_panes() -> (Tab<FakePane>, Rc<FakePane>, Rc<FakePane>, Rc<FakePane>) {
    let size = size_24_80();
    let mut tab = Tab::new(7, &size);
    let a = FakePane::new(1, size);
    let b = FakePane::new(2, size);
    let c = FakePane::new(3, size);
    tab.assign_pane(&a);
    tab.split_and_insert(0, SplitDirection::Horizontal, Rc::clone(&b))
        .unwrap();
    tab.split_and_insert(0, SplitDirection::Vertical, Rc::clone(&c))
        .unwrap();
    (tab, a, b, c)
}

#[test]
fn tab_splitting() {
    let size = PtySize {
        rows: 24,
        cols: 80,
        pixel_width: 800,
        pixel_height: 600,
    };

    let mut tab = Tab::new(0, &size);
    tab.assign_pane(&FakePane::new(1, size));

    let panes = tab.iter_panes();
    assert_eq!(1, panes.len());
    assert_eq!(0, panes[0].index);
    assert_eq!(true, panes[0].is_active);
    assert_eq!(0, panes[0].left);
    assert_eq!(0, panes[0].top);
    assert_eq!(80, panes[0].width);
    assert_eq!(24, panes[0].height);

    assert!(tab
        .compute_split_size(1, SplitDirection::Horizontal)
        .is_none());

    let horz_size = tab
        .compute_split_size(0, SplitDirection::Horizontal)
        .unwrap();
    assert_eq!(
        horz_size,
        SplitDirectionAndSize {
            direction: SplitDirection::Horizontal,
            left: 0,
            top: 0,
            first: PtySize {
                rows: 24,
                cols: 40,
                pixel_width: 400,
                pixel_height: 600
            },
            second: PtySize {
                rows: 24,
                cols: 39,
                pixel_width: 390,
                pixel_height: 600
            },
        }
    );

    let vert_size = tab.compute_split_size(0, SplitDirection::Vertical).unwrap();
    assert_eq!(
        vert_size,
        SplitDirectionAndSize {
            direction: SplitDirection::Vertical,
            left: 0,
            top: 0,
            first: PtySize {
                rows: 12,
                cols: 80,
                pixel_width: 800,
                pixel_height: 300
            },
            second: PtySize {
                rows: 11,
                cols: 80,
                pixel_width: 800,
                pixel_height: 275
            }
        }
    );

    let new_index = tab
        .split_and_insert(
            0,
            SplitDirection::Horizontal,
            FakePane::new(2, horz_size.second),
        )
        .unwrap();
    assert_eq!(new_index, 1);

    let panes = tab.iter_panes();
    assert_eq!(2, panes.len());

    assert_eq!(0, panes[0].index);
    assert_eq!(false, panes[0].is_active);
    assert_eq!(0, panes[0].left);
    assert_eq!(0, panes[0].top);
    assert_eq!(40, panes[0].width);
    assert_eq!(24, panes[0].height);
    assert_eq!(1, panes[0].pane.pane_id());

    assert_eq!(1, panes[1].index);
    assert_eq!(true, panes[1].is_active);
    assert_eq!(41, panes[1].left);
    assert_eq!(0, panes[1].top);
    assert_eq!(39, panes[1].width);
    assert_eq!(24, panes[1].height);
    assert_eq!(2, panes[1].pane.pane_id());

    let vert_size = tab.compute_split_size(0, SplitDirection::Vertical).unwrap();
    let new_index = tab
        .split_and_insert(
            0,
            SplitDirection::Vertical,
            FakePane::new(3, vert_size.second),
        )
        .unwrap();
    assert_eq!(new_index, 1);

    let panes = tab.iter_panes();
    assert_eq!(3, panes.len());

    assert_eq!(0, panes[0].index);
    assert_eq!(false, panes[0].is_active);
    assert_eq!(0, panes[0].left);
    assert_eq!(0, panes[0].top);
    assert_eq!(40, panes[0].width);
    assert_eq!(12, panes[0].height);
    assert_eq!(1, panes[0].pane.pane_id());

    assert_eq!(1, panes[1].index);
    assert_eq!(true, panes[1].is_active);
    assert_eq!(0, panes[1].left);
    assert_eq!(13, panes[1].top);
    assert_eq!(40, panes[1].width);
    assert_eq!(11, panes[1].height);
    assert_eq!(3, panes[1].pane.pane_id());

    assert_eq!(2, panes[2].index);
    assert_eq!(false, panes[2].is_active);
    assert_eq!(41, panes[2].left);
    assert_eq!(0, panes[2].top);
    assert_eq!(39, panes[2].width);
    assert_eq!(24, panes[2].height);
    assert_eq!(2, panes[2].pane.pane_id());
}

#[test]
fn new_tab_is_empty_and_dead() {
    let size = size_24_80();
    let tab: Tab<FakePane> = Tab::new(42, &size);
    assert_eq!(tab.tab_id(), 42);
    assert_eq!(tab.get_size(), size);
    assert_eq!(tab.get_active_idx(), 0);
    assert!(tab.iter_panes().is_empty());
    assert!(tab.iter_splits().is_empty());
    assert!(tab.get_active_pane().is_none());
    assert!(tab.is_dead());
    assert!(tab
        .compute_split_size(0, SplitDirection::Vertical)
        .is_none());
}

#[test]
fn split_tells_both_panes_their_sizes() {
    let size = size_24_80();
    let mut tab = Tab::new(1, &size);
    let a = FakePane::new(1, size);
    let b = FakePane::new(2, size);
    tab.assign_pane(&a);
    tab.split_and_insert(0, SplitDirection::Horizontal, Rc::clone(&b))
        .unwrap();
    assert_eq!(
        *a.size.borrow(),
        PtySize {
            rows: 24,
            cols: 40,
            pixel_width: 400,
            pixel_height: 600
        }
    );
    assert_eq!(
        *b.size.borrow(),
        PtySize {
            rows: 24,
            cols: 39,
            pixel_width: 390,
            pixel_height: 600
        }
    );
    assert_eq!(tab.get_active_idx(), 1);
    assert_eq!(tab.get_active_pane().unwrap().pane_id(), 2);
}

#[test]
fn split_of_odd_width_needs_no_extra_cell() {
    let size = cells(10, 81);
    let mut tab = Tab::new(1, &size);
    tab.assign_pane(&FakePane::new(1, size));
    let info = tab
        .compute_split_size(0, SplitDirection::Horizontal)
        .unwrap();
    assert_eq!(info.first.cols, 40);
    assert_eq!(info.second.cols, 40);
    assert_eq!(info.first.pixel_width, 400);
    assert_eq!(info.width(), 81);
    assert_eq!(info.height(), 10);
}

#[test]
fn split_index_out_of_range_is_refused() {
    let (mut tab, _a, _b, _c) = three_panes();
    let r = tab.split_and_insert(3, SplitDirection::Horizontal, FakePane::new(9, size_24_80()));
    assert_eq!(r, Err(TabError::InvalidPaneIndex(3)));
    assert_eq!(tab.iter_panes().len(), 3);
    assert_eq!(tab.get_active_idx(), 1);
}

#[test]
fn pane_without_cells_is_split_into_two_without_cells() {
    let size = cells(5, 1);
    let mut tab = Tab::new(1, &size);
    tab.assign_pane(&FakePane::new(1, size));
    // one column: the divider takes it, both panes are left without one
    let idx = tab
        .split_and_insert(0, SplitDirection::Horizontal, FakePane::new(2, size))
        .unwrap();
    assert_eq!(idx, 1);
    let panes = tab.iter_panes();
    assert_eq!(panes[0].width, 0);
    assert_eq!(panes[1].width, 0);
    assert_eq!(panes[1].left, 1);
    let info = tab
        .compute_split_size(0, SplitDirection::Horizontal)
        .unwrap();
    assert_eq!(info.first.cols, 0);
    assert_eq!(info.second.cols, 0);
    // a pane without a column is split all the same: both halves have none
    let c = FakePane::new(3, size);
    let r = tab.split_and_insert(0, SplitDirection::Horizontal, Rc::clone(&c));
    assert_eq!(r, Ok(1));
    assert_eq!(tab.get_active_idx(), 1);
    assert_eq!(
        *c.size.borrow(),
        PtySize {
            rows: 5,
            cols: 0,
            pixel_width: 0,
            pixel_height: 125
        }
    );
    let got: Vec<(usize, usize, usize, usize, usize, bool)> = tab
        .iter_panes()
        .iter()
        .map(|p| (p.pane.pane_id(), p.left, p.top, p.width, p.height, p.is_active))
        .collect();
    assert_eq!(
        got,
        vec![
            (1, 0, 0, 0, 5, false),
            (3, 1, 0, 0, 5, true),
            (2, 1, 0, 0, 5, false),
        ]
    );
    let lines: Vec<(usize, usize, usize)> = tab
        .iter_splits()
        .iter()
        .map(|s| (s.left, s.top, s.size))
        .collect();
    assert_eq!(lines, vec![(0, 0, 5), (0, 0, 5)]);
    // along the other axis there is room
    let r = tab.split_and_insert(0, SplitDirection::Vertical, FakePane::new(4, size));
    assert_eq!(r, Ok(1));
    assert_eq!(tab.iter_panes().len(), 4);
    // the tab can still grow, and a dead pane can still leave
    assert!(tab.can_resize(&cells(9, 7)));
    tab.resize(cells(9, 7)).unwrap();
    let got: Vec<(usize, usize, usize, usize, usize)> = tab
        .iter_panes()
        .iter()
        .map(|p| (p.pane.pane_id(), p.left, p.top, p.width, p.height))
        .collect();
    assert_eq!(
        got,
        vec![
            (1, 0, 0, 0, 2),
            (4, 0, 3, 0, 6),
            (3, 1, 0, 0, 9),
            (2, 1, 0, 6, 9),
        ]
    );
    c.dead.set(true);
    let removed = tab.prune_dead_panes();
    assert_eq!(removed.len(), 1);
    let got: Vec<(usize, usize, usize, usize, usize)> = tab
        .iter_panes()
        .iter()
        .map(|p| (p.pane.pane_id(), p.left, p.top, p.width, p.height))
        .collect();
    assert_eq!(got, vec![(1, 0, 0, 0, 2), (4, 0, 3, 0, 6), (2, 1, 0, 6, 9)]);
}

#[test]
fn refused_resize_is_reported_and_layout_still_changes() {
    let size = size_24_80();
    let mut tab = Tab::new(1, &size);
    let a = FakePane::new(1, size);
    tab.assign_pane(&a);
    a.refuse_resize.set(true);
    let r = tab.split_and_insert(0, SplitDirection::Horizontal, FakePane::new(2, size));
    assert_eq!(
        r,
        Err(TabError::Resize(PaneError {
            message: String::from("pane 1 refuses")
        }))
    );
    let panes = tab.iter_panes();
    assert_eq!(panes.len(), 2);
    assert_eq!(panes[1].left, 41);
    assert_eq!(tab.get_active_idx(), 1);
}

#[test]
fn split_result_reports_first_refusal() {
    let e1 = PaneError {
        message: String::from("one"),
    };
    let e2 = PaneError {
        message: String::from("two"),
    };
    assert_eq!(split_result(4, Ok(()), Ok(())), Ok(5));
    assert_eq!(
        split_result(4, Err(e1.clone()), Ok(())),
        Err(TabError::Resize(e1.clone()))
    );
    assert_eq!(
        split_result(4, Ok(()), Err(e2.clone())),
        Err(TabError::Resize(e2.clone()))
    );
    assert_eq!(
        split_result(4, Err(e1.clone()), Err(e2)),
        Err(TabError::Resize(e1))
    );
}

#[test]
fn splits_are_reported_in_preorder() {
    let (tab, _a, _b, _c) = three_panes();
    let splits = tab.iter_splits();
    assert_eq!(splits.len(), 2);
    assert_eq!(splits[0].index, 0);
    assert_eq!(splits[0].direction, SplitDirection::Horizontal);
    assert_eq!(splits[0].left, 40);
    assert_eq!(splits[0].top, 0);
    assert_eq!(splits[0].size, 24);
    assert_eq!(splits[1].index, 1);
    assert_eq!(splits[1].direction, SplitDirection::Vertical);
    assert_eq!(splits[1].left, 0);
    assert_eq!(splits[1].top, 12);
    assert_eq!(splits[1].size, 40);
}

#[test]
fn nested_split_on_the_right_keeps_absolute_positions() {
    let size = size_24_80();
    let mut tab = Tab::new(1, &size);
    tab.assign_pane(&FakePane::new(1, size));
    tab.split_and_insert(0, SplitDirection::Horizontal, FakePane::new(2, size))
        .unwrap();
    // pane 1 is at column 41, 39 wide
    tab.split_and_insert(1, SplitDirection::Horizontal, FakePane::new(3, size))
        .unwrap();
    // pane 1 is now at column 41, 19 wide; split it once more
    let info = tab
        .compute_split_size(1, SplitDirection::Horizontal)
        .unwrap();
    assert_eq!(info.left, 41);
    assert_eq!(info.top, 0);
    tab.split_and_insert(1, SplitDirection::Horizontal, FakePane::new(4, size))
        .unwrap();
    let panes = tab.iter_panes();
    let got: Vec<(usize, usize, usize, usize, usize)> = panes
        .iter()
        .map(|p| (p.pane.pane_id(), p.left, p.top, p.width, p.height))
        .collect();
    assert_eq!(
        got,
        vec![
            (1, 0, 0, 40, 24),
            (2, 41, 0, 9, 24),
            (4, 51, 0, 9, 24),
            (3, 61, 0, 19, 24),
        ]
    );
    let splits = tab.iter_splits();
    let lines: Vec<(usize, usize, usize)> =
        splits.iter().map(|s| (s.left, s.top, s.size)).collect();
    assert_eq!(lines, vec![(40, 0, 24), (60, 0, 24), (50, 0, 24)]);
}

#[test]
fn panes_and_dividers_cover_every_cell_once() {
    let (mut tab, _a, _b, _c) = three_panes();
    tab.split_and_insert(2, SplitDirection::Vertical, FakePane::new(4, size_24_80()))
        .unwrap();
    let panes = tab.iter_panes();
    let splits = tab.iter_splits();
    for y in 0..24usize {
        for x in 0..80usize {
            let mut hits = 0;
            for p in panes.iter() {
                if p.left <= x && x < p.left + p.width && p.top <= y && y < p.top + p.height {
                    hits += 1;
                }
            }
            let mut in_pane = hits;
            for s in splits.iter() {
                let on = match s.direction {
                    SplitDirection::Horizontal => x == s.left && s.top <= y && y < s.top + s.size,
                    SplitDirection::Vertical => y == s.top && s.left <= x && x < s.left + s.size,
                };
                if on {
                    hits += 1;
                    in_pane += 0;
                }
            }
            assert!(in_pane <= 1);
            assert_eq!(hits, 1);
        }
    }
    for p in panes.iter() {
        assert!(p.left + p.width <= 80);
        assert!(p.top + p.height <= 24);
    }
}

#[test]
fn resize_grows_second_children() {
    let (mut tab, a, b, c) = three_panes();
    let bigger = PtySize {
        rows: 30,
        cols: 100,
        pixel_width: 1000,
        pixel_height: 600,
    };
    assert!(tab.can_resize(&bigger));
    assert_eq!(tab.resize(bigger), Ok(()));
    assert_eq!(tab.get_size(), bigger);
    let panes = tab.iter_panes();
    let got: Vec<(usize, usize, usize, usize, usize)> = panes
        .iter()
        .map(|p| (p.pane.pane_id(), p.left, p.top, p.width, p.height))
        .collect();
    assert_eq!(
        got,
        vec![(1, 0, 0, 40, 12), (3, 0, 13, 40, 17), (2, 41, 0, 59, 30)]
    );
    assert_eq!(
        *a.size.borrow(),
        PtySize {
            rows: 12,
            cols: 40,
            pixel_width: 400,
            pixel_height: 240
        }
    );
    assert_eq!(
        *c.size.borrow(),
        PtySize {
            rows: 17,
            cols: 40,
            pixel_width: 400,
            pixel_height: 340
        }
    );
    assert_eq!(
        *b.size.borrow(),
        PtySize {
            rows: 30,
            cols: 59,
            pixel_width: 590,
            pixel_height: 600
        }
    );
    assert_eq!(tab.get_active_idx(), 1);
}

#[test]
fn resize_of_single_pane_passes_the_outer_size() {
    let size = size_24_80();
    let mut tab = Tab::new(1, &size);
    let a = FakePane::new(1, size);
    tab.assign_pane(&a);
    let other = PtySize {
        rows: 3,
        cols: 7,
        pixel_width: 75,
        pixel_height: 31,
    };
    tab.resize(other).unwrap();
    assert_eq!(*a.size.borrow(), other);
    let panes = tab.iter_panes();
    assert_eq!((panes[0].width, panes[0].height), (7, 3));
}

#[test]
fn resize_shrinks_until_first_child_no_longer_fits() {
    let (mut tab, _a, _b, _c) = three_panes();
    // first children are 40 columns wide and 12 rows high
    let tight = PtySize {
        rows: 13,
        cols: 41,
        pixel_width: 410,
        pixel_height: 130,
    };
    assert!(tab.can_resize(&tight));
    tab.resize(tight).unwrap();
    let panes = tab.iter_panes();
    let got: Vec<(usize, usize, usize, usize)> = panes
        .iter()
        .map(|p| (p.left, p.top, p.width, p.height))
        .collect();
    assert_eq!(got, vec![(0, 0, 40, 12), (0, 13, 40, 0), (41, 0, 0, 13)]);

    let too_small = PtySize {
        rows: 13,
        cols: 40,
        pixel_width: 400,
        pixel_height: 130,
    };
    assert!(!tab.can_resize(&too_small));
    assert_eq!(tab.resize(too_small), Ok(()));
    assert_eq!(tab.get_size(), tight);
    assert_eq!(tab.iter_panes().len(), 3);
    assert_eq!(tab.iter_panes()[2].left, 41);
    let too_low = PtySize {
        rows: 12,
        cols: 80,
        pixel_width: 800,
        pixel_height: 120,
    };
    assert!(!tab.can_resize(&too_low));
}

#[test]
fn set_active_idx_names_a_pane() {
    let (mut tab, _a, _b, _c) = three_panes();
    tab.set_active_idx(2);
    assert_eq!(tab.get_active_idx(), 2);
    assert_eq!(tab.get_active_pane().unwrap().pane_id(), 2);
    assert!(tab.iter_panes()[2].is_active);
    tab.set_active_idx(0);
    assert_eq!(tab.get_active_idx(), 0);
    // an index behind the last pane makes the last pane active
    tab.set_active_idx(17);
    assert_eq!(tab.get_active_idx(), 2);
    assert_eq!(tab.get_active_pane().unwrap().pane_id(), 2);
    assert_eq!(tab.iter_panes().iter().filter(|p| p.is_active).count(), 1);
    let mut empty: Tab<FakePane> = Tab::new(1, &size_24_80());
    empty.set_active_idx(3);
    assert_eq!(empty.get_active_idx(), 0);
}

#[test]
fn prune_gives_the_area_to_the_sibling() {
    let (mut tab, a, _b, c) = three_panes();
    // panes in pre-order: 1 (0,0,40x12), 3 (0,13,40x11), 2 (41,0,39x24)
    c.dead.set(true);
    assert!(!tab.is_dead());
    let before = a.resizes.get();
    let removed = tab.prune_dead_panes();
    assert_eq!(removed.len(), 1);
    assert_eq!(removed[0].pane_id(), 3);
    let panes = tab.iter_panes();
    let got: Vec<(usize, usize, usize, usize, usize)> = panes
        .iter()
        .map(|p| (p.pane.pane_id(), p.left, p.top, p.width, p.height))
        .collect();
    assert_eq!(got, vec![(1, 0, 0, 40, 24), (2, 41, 0, 39, 24)]);
    assert_eq!(a.resizes.get(), before + 1);
    assert_eq!(
        *a.size.borrow(),
        PtySize {
            rows: 24,
            cols: 40,
            pixel_width: 400,
            pixel_height: 600
        }
    );
    // the active pane was the dead one: the index goes to the pane before it
    assert_eq!(tab.get_active_idx(), 0);
    assert_eq!(tab.iter_splits().len(), 1);
}

#[test]
fn prune_lets_a_split_take_the_place_of_its_parent() {
    let size = size_24_80();
    let mut tab = Tab::new(1, &size);
    let a = FakePane::new(1, size);
    let b = FakePane::new(2, size);
    let c = FakePane::new(3, size);
    tab.assign_pane(&a);
    tab.split_and_insert(0, SplitDirection::Horizontal, Rc::clone(&b))
        .unwrap();
    tab.split_and_insert(1, SplitDirection::Vertical, Rc::clone(&c))
        .unwrap();
    // 1 (0,0,40x24), 2 (41,0,39x12), 3 (41,13,39x11); active is 2 (pane 3)
    a.dead.set(true);
    let removed = tab.prune_dead_panes();
    assert_eq!(removed.len(), 1);
    assert_eq!(removed[0].pane_id(), 1);
    let panes = tab.iter_panes();
    let got: Vec<(usize, usize, usize, usize, usize, bool)> = panes
        .iter()
        .map(|p| (p.pane.pane_id(), p.left, p.top, p.width, p.height, p.is_active))
        .collect();
    assert_eq!(
        got,
        vec![(2, 0, 0, 80, 12, false), (3, 0, 13, 80, 11, true)]
    );
    assert_eq!(tab.get_active_idx(), 1);
    let splits = tab.iter_splits();
    assert_eq!(splits.len(), 1);
    assert_eq!((splits[0].left, splits[0].top, splits[0].size), (0, 12, 80));
    assert_eq!(
        *b.size.borrow(),
        PtySize {
            rows: 12,
            cols: 80,
            pixel_width: 800,
            pixel_height: 300
        }
    );
    assert_eq!(
        *c.size.borrow(),
        PtySize {
            rows: 11,
            cols: 80,
            pixel_width: 800,
            pixel_height: 275
        }
    );
}

#[test]
fn prune_of_all_panes_empties_the_tab() {
    let (mut tab, a, b, c) = three_panes();
    a.dead.set(true);
    b.dead.set(true);
    c.dead.set(true);
    assert!(tab.is_dead());
    let removed = tab.prune_dead_panes();
    let ids: Vec<usize> = removed.iter().map(|p| p.pane_id()).collect();
    assert_eq!(ids, vec![1, 3, 2]);
    assert!(tab.iter_panes().is_empty());
    assert!(tab.iter_splits().is_empty());
    assert_eq!(tab.get_active_idx(), 0);
    assert!(tab.is_dead());
    // an emptied tab takes a root pane again
    let d = FakePane::new(4, size_24_80());
    tab.assign_pane(&d);
    assert_eq!(tab.iter_panes().len(), 1);
    assert!(tab.iter_panes()[0].is_active);
}

#[test]
fn prune_of_the_root_pane_empties_the_tab() {
    let size = size_24_80();
    let mut tab = Tab::new(1, &size);
    let a = FakePane::new(1, size);
    tab.assign_pane(&a);
    a.dead.set(true);
    let removed = tab.prune_dead_panes();
    assert_eq!(removed.len(), 1);
    assert_eq!(a.resizes.get(), 0);
    assert!(tab.iter_panes().is_empty());
}

#[test]
fn prune_without_dead_panes_changes_nothing() {
    let (mut tab, a, _b, _c) = three_panes();
    let before = a.resizes.get();
    let removed = tab.prune_dead_panes();
    assert!(removed.is_empty());
    assert_eq!(tab.iter_panes().len(), 3);
    assert_eq!(tab.get_active_idx(), 1);
    assert_eq!(a.resizes.get(), before);
}

#[test]
fn prune_panes_follows_the_flags_it_is_given() {
    let (mut tab, _a, _b, _c) = three_panes();
    tab.set_active_idx(2);
    let removed = tab.prune_panes(&vec![true, false, false]);
    assert_eq!(removed.len(), 1);
    assert_eq!(removed[0].pane_id(), 1);
    // the active pane stays active under its new index
    assert_eq!(tab.get_active_idx(), 1);
    assert_eq!(tab.get_active_pane().unwrap().pane_id(), 2);
    let got: Vec<(usize, usize, usize, usize, usize)> = tab
        .iter_panes()
        .iter()
        .map(|p| (p.pane.pane_id(), p.left, p.top, p.width, p.height))
        .collect();
    assert_eq!(got, vec![(3, 0, 0, 40, 24), (2, 41, 0, 39, 24)]);
}

#[test]
fn active_index_after_prune() {
    assert_eq!(active_after_prune(2, &vec![true, false, false]), 1);
    assert_eq!(active_after_prune(2, &vec![true, true, false]), 0);
    assert_eq!(active_after_prune(2, &vec![false, false, true]), 1);
    assert_eq!(active_after_prune(2, &vec![true, false, true]), 0);
    assert_eq!(active_after_prune(0, &vec![true, false, false]), 0);
    assert_eq!(active_after_prune(0, &vec![true, true, true]), 0);
    assert_eq!(active_after_prune(1, &vec![false, false, false]), 1);
    assert_eq!(active_after_prune(0, &vec![]), 0);
    assert_eq!(active_after_prune(5, &vec![true, false]), 4);
}

#[test]
fn all_set_is_true_of_no_flags() {
    assert!(all_set(&vec![]));
    assert!(all_set(&vec![true, true]));
    assert!(!all_set(&vec![true, false, true]));
}

#[test]
fn preorder_indices_are_stable() {
    let (tab, _a, _b, _c) = three_panes();
    let one = tab.iter_panes();
    let two = tab.iter_panes();
    assert_eq!(one.len(), two.len());
    for i in 0..one.len() {
        assert_eq!(one[i].index, i);
        assert_eq!(two[i].index, i);
        assert_eq!(one[i].pane.pane_id(), two[i].pane.pane_id());
        assert_eq!(
            (one[i].left, one[i].top, one[i].width, one[i].height),
            (two[i].left, two[i].top, two[i].width, two[i].height)
        );
    }
    let copy = one[1].clone();
    assert_eq!(copy.index, 1);
    assert_eq!(copy.pane.pane_id(), 3);
}

#[test]
fn tab_without_cells_has_cells_of_no_extent() {
    let size = PtySize {
        rows: 0,
        cols: 0,
        pixel_width: 100,
        pixel_height: 100,
    };
    let mut tab = Tab::new(1, &size);
    tab.assign_pane(&FakePane::new(1, size));
    let info = tab.compute_split_size(0, SplitDirection::Vertical).unwrap();
    assert_eq!(
        info.first,
        PtySize {
            rows: 0,
            cols: 0,
            pixel_width: 0,
            pixel_height: 0
        }
    );
    let r = tab.split_and_insert(0, SplitDirection::Vertical, FakePane::new(2, size));
    assert_eq!(r, Ok(1));
    let got: Vec<(usize, usize, usize, usize)> = tab
        .iter_panes()
        .iter()
        .map(|p| (p.left, p.top, p.width, p.height))
        .collect();
    assert_eq!(got, vec![(0, 0, 0, 0), (0, 1, 0, 0)]);
}

#[test]
fn children_and_divider_add_up_to_the_pane() {
    let (tab, _a, _b, _c) = three_panes();
    let panes = tab.iter_panes();
    for (i, p) in panes.iter().enumerate() {
        let h = tab
            .compute_split_size(i, SplitDirection::Horizontal)
            .unwrap();
        assert_eq!(h.first.cols as usize + 1 + h.second.cols as usize, p.width);
        assert_eq!(h.first.rows as usize, p.height);
        assert_eq!(h.second.rows as usize, p.height);
        assert_eq!((h.left, h.top), (p.left, p.top));
        let v = tab.compute_split_size(i, SplitDirection::Vertical).unwrap();
        assert_eq!(v.first.rows as usize + 1 + v.second.rows as usize, p.height);
        assert_eq!(v.first.cols as usize, p.width);
        assert_eq!(v.second.cols as usize, p.width);
        assert!(h.is_consistent());
        assert!(v.is_consistent());
    }
}

#[test]
fn active_index_names_a_pane_after_every_change() {
    let size = size_24_80();
    let mut tab = Tab::new(1, &size);
    let a = FakePane::new(1, size);
    tab.assign_pane(&a);
    assert!(tab.get_active_idx() < tab.iter_panes().len());
    let mut panes = vec![a];
    for i in 0..6usize {
        let p = FakePane::new(i + 2, size);
        let dir = if i % 2 == 0 {
            SplitDirection::Horizontal
        } else {
            SplitDirection::Vertical
        };
        let idx = tab
            .split_and_insert(i / 2, dir, Rc::clone(&p))
            .unwrap();
        assert_eq!(idx, i / 2 + 1);
        assert_eq!(tab.get_active_idx(), idx);
        assert!(tab.get_active_idx() < tab.iter_panes().len());
        panes.push(p);
    }
    tab.resize(cells(50, 160)).unwrap();
    assert!(tab.get_active_idx() < tab.iter_panes().len());
    let active = tab.get_active_pane().unwrap().pane_id();
    // every other pane dies, the active one among them or not
    for (i, p) in panes.iter().enumerate() {
        p.dead.set(i % 2 == 0);
    }
    let removed = tab.prune_dead_panes();
    assert_eq!(removed.len(), 4);
    let left = tab.iter_panes();
    assert_eq!(left.len(), 3);
    assert!(tab.get_active_idx() < left.len());
    if left.iter().any(|p| p.pane.pane_id() == active) {
        assert_eq!(tab.get_active_pane().unwrap().pane_id(), active);
    }
    assert_eq!(left.iter().filter(|p| p.is_active).count(), 1);
}

#[test]
fn divider_lies_between_the_children_of_its_split() {
    let (tab, _a, _b, _c) = three_panes();
    let panes = tab.iter_panes();
    let splits = tab.iter_splits();
    // the root split parts panes 0 and 1 on the left from pane 2 on the right
    assert_eq!(splits[0].left, panes[0].left + panes[0].width);
    assert_eq!(splits[0].left, panes[1].left + panes[1].width);
    assert_eq!(splits[0].left + 1, panes[2].left);
    assert_eq!(splits[0].top, panes[2].top);
    assert_eq!(splits[0].size, panes[2].height);
    // the second split parts pane 0 above from pane 1 below
    assert_eq!(splits[1].top, panes[0].top + panes[0].height);
    assert_eq!(splits[1].top + 1, panes[1].top);
    assert_eq!(splits[1].left, panes[0].left);
    assert_eq!(splits[1].size, panes[0].width);
    assert_eq!(splits[1].size, panes[1].width);
}

#[test]
fn refused_size_on_resize_comes_back_and_layout_still_changes() {
    let (mut tab, a, b, c) = three_panes();
    // panes in pre-order: 1, 3, 2
    c.refuse_resize.set(true);
    b.refuse_resize.set(true);
    let before = (a.resizes.get(), c.resizes.get(), b.resizes.get());
    let r = tab.resize(cells(30, 100));
    assert_eq!(
        r,
        Err(PaneError {
            message: String::from("pane 3 refuses")
        })
    );
    assert_eq!(tab.get_size(), cells(30, 100));
    let got: Vec<(usize, usize, usize, usize, usize)> = tab
        .iter_panes()
        .iter()
        .map(|p| (p.pane.pane_id(), p.left, p.top, p.width, p.height))
        .collect();
    assert_eq!(
        got,
        vec![(1, 0, 0, 40, 12), (3, 0, 13, 40, 17), (2, 41, 0, 59, 30)]
    );
    // every pane was told once, the refusing ones too
    assert_eq!(
        (a.resizes.get(), c.resizes.get(), b.resizes.get()),
        (before.0 + 1, before.1 + 1, before.2 + 1)
    );
    assert_eq!(*a.size.borrow(), cells_px(12, 40, 400, 300));
    // a size that the tab cannot take asks no pane
    let r = tab.resize(cells(30, 40));
    assert_eq!(r, Ok(()));
    assert_eq!(a.resizes.get(), before.0 + 1);
}

#[test]
fn split_tells_each_pane_once() {
    let size = size_24_80();
    let mut tab = Tab::new(1, &size);
    let a = FakePane::new(1, size);
    let b = FakePane::new(2, size);
    tab.assign_pane(&a);
    b.refuse_resize.set(true);
    let r = tab.split_and_insert(0, SplitDirection::Vertical, Rc::clone(&b));
    assert_eq!(
        r,
        Err(TabError::Resize(PaneError {
            message: String::from("pane 2 refuses")
        }))
    );
    assert_eq!((a.resizes.get(), b.resizes.get()), (1, 1));
    assert_eq!(*a.size.borrow(), cells_px(12, 80, 800, 300));
    assert_eq!(tab.iter_panes().len(), 2);
}

#[test]
fn prune_tells_a_lone_pane_the_size_of_both_children_and_the_divider() {
    let size = cells(5, 1);
    let mut tab = Tab::new(1, &size);
    let a = FakePane::new(1, size);
    let b = FakePane::new(2, size);
    let c = FakePane::new(3, size);
    tab.assign_pane(&a);
    tab.split_and_insert(0, SplitDirection::Horizontal, Rc::clone(&b))
        .unwrap();
    tab.split_and_insert(0, SplitDirection::Horizontal, Rc::clone(&c))
        .unwrap();
    // pane 1 and pane 3 share a split without a column
    c.dead.set(true);
    let told = a.resizes.get();
    let removed = tab.prune_dead_panes();
    assert_eq!(removed.len(), 1);
    assert_eq!(a.resizes.get(), told + 1);
    assert_eq!(*a.size.borrow(), cells_px(5, 1, 10, 125));
    let got: Vec<(usize, usize, usize, usize, usize)> = tab
        .iter_panes()
        .iter()
        .map(|p| (p.pane.pane_id(), p.left, p.top, p.width, p.height))
        .collect();
    assert_eq!(got, vec![(1, 0, 0, 0, 5), (2, 1, 0, 0, 5)]);
    assert_eq!(tab.get_active_idx(), 0);
}
