//! Identifiers of tabs and panes: positive integers handed out in
//! increasing order by a counter, none of them twice.

use crate::pane::PaneId;
use crate::tab::TabId;
use vstd::prelude::*;

verus! {

/// A source of identifiers. It remembers the last one it handed out.
pub struct IdCounter {
    last: usize,
}

impl IdCounter {
    /// The identifier handed out last, 0 before the first.
    pub closed spec fn last(&self) -> usize {
        self.last
    }

    /// A counter that has handed out nothing yet.
    pub fn new() -> (counter: Self)
        ensures
            counter.last() == 0,
    {
        IdCounter { last: 0 }
    }

    /// True once the counter has handed out every identifier there is.
    pub fn is_exhausted(&self) -> (b: bool)
        ensures
            b == (self.last() == usize::MAX),
    {
        self.last == usize::MAX
    }

    /// The next identifier: one more than the last.
    pub fn fresh(&mut self) -> (id: usize)
        requires
            old(self).last() < usize::MAX,
        ensures
            id == old(self).last() + 1,
            final(self).last() == id,
    {
        self.last = self.last + 1;
        self.last
    }
}

/// A new identifier for a pane, greater than all that `counter` gave before.
pub fn alloc_pane_id(counter: &mut IdCounter) -> (id: PaneId)
    requires
        old(counter).last() < usize::MAX,
    ensures
        id == old(counter).last() + 1,
        final(counter).last() == id,
{
    counter.fresh()
}

/// A new identifier for a tab, greater than all that `counter` gave before.
pub fn alloc_tab_id(counter: &mut IdCounter) -> (id: TabId)
    requires
        old(counter).last() < usize::MAX,
    ensures
        id == old(counter).last() + 1,
        final(counter).last() == id,
{
    counter.fresh()
}

} // verus!
