//! Layout core of a terminal multiplexer tab: a binary tree of panes and
//! splits, the cell geometry computed from it, and the operations that
//! split, resize and prune it.

pub mod bintree;
pub mod ids;
pub mod laws;
pub mod layout;
pub mod pane;
pub mod paste;
pub mod prune;
pub mod size;
pub mod tab;

pub use crate::ids::{alloc_pane_id, alloc_tab_id, IdCounter};
pub use crate::pane::{Pane, PaneError, PaneId, Pattern, PositionedPane, SearchResult};
pub use crate::size::{PositionedSplit, PtySize, SplitDirection, SplitDirectionAndSize};
pub use crate::tab::{Tab, TabError, TabId};
