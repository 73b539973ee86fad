//! What the layout needs from a pane, and the values that describe a pane's
//! place and a search in its contents.

use crate::paste::{chunk_end, first_piece, started, Paste, PASTE_CHUNK_SIZE};
use crate::size::PtySize;
use std::rc::Rc;
use vstd::prelude::*;
use vstd::utf8::encode_utf8;

verus! {

/// The identifier of a pane.
pub type PaneId = usize;

/// The number of a row that stays the same when the scrollback shifts.
pub type StableRowIndex = isize;

/// The reason a pane gives when it cannot carry out a request.
#[derive(Debug, Clone, PartialEq, Eq)]
pub struct PaneError {
    pub message: String,
}

/// A view on a terminal, as far as the layout of a tab deals with it.
pub trait Pane {
    /// A unique identifier that never changes.
    fn pane_id(&self) -> PaneId;

    /// True once the process behind the pane has exited.
    fn is_dead(&self) -> bool;

    /// Gives the pane new interior dimensions.
    fn resize(&self, size: PtySize) -> Result<(), PaneError>;

    /// Sends text to the pane's input as if it had been pasted.
    fn send_paste(&self, text: &str) -> Result<(), PaneError>;

    /// Pastes `text` into the pane: sends the first piece now and gives
    /// back what is left to send in later turns, if anything.
    fn trickle_paste(&self, text: String) -> (r: Result<Option<Paste>, PaneError>)
        default_ensures
            (exists|piece: &str, sent: Result<(), PaneError>|
                encode_utf8(piece@) == first_piece(text@) && #[trigger] call_ensures(
                    Self::send_paste,
                    (self, piece),
                    sent,
                ) && started(text@, sent, r)),
            r matches Ok(Some(paste)) ==> call_ensures(Self::pane_id, (self,), paste.pane()),
            match r {
                Ok(None) => encode_utf8(text@).len() <= PASTE_CHUNK_SIZE,
                Ok(Some(paste)) => {
                    &&& encode_utf8(text@).len() > PASTE_CHUNK_SIZE
                    &&& paste.wf()
                    &&& paste.bytes() == encode_utf8(text@)
                    &&& paste.sent() == chunk_end(encode_utf8(text@), 0)
                },
                Err(_) => true,
            },
    {
        let first = Paste::new(self.pane_id(), text);
        let sent = self.send_paste(first.chunk());
        first.after_first_chunk(sent)
    }
}

/// A pane with its place in the tab, in cells from the tab's top left
/// corner.
pub struct PositionedPane<P: Pane> {
    /// Position of the pane among the panes of the tab, in pre-order.
    pub index: usize,
    /// True if this was the active pane when the place was computed.
    pub is_active: bool,
    pub left: usize,
    pub top: usize,
    pub width: usize,
    pub height: usize,
    pub pane: Rc<P>,
}

impl<P: Pane> Clone for PositionedPane<P> {
    fn clone(&self) -> (r: Self)
        ensures
            r == *self,
    {
        PositionedPane {
            index: self.index,
            is_active: self.is_active,
            left: self.left,
            top: self.top,
            width: self.width,
            height: self.height,
            pane: Rc::clone(&self.pane),
        }
    }
}

/// What to look for in the contents of a pane.
#[derive(Debug, Clone, PartialEq, Eq)]
pub enum Pattern {
    CaseSensitiveString(String),
    CaseInSensitiveString(String),
    Regex(String),
}

impl Pattern {
    /// The text of the pattern, whatever its kind.
    pub open spec fn text(self) -> String {
        match self {
            Pattern::CaseSensitiveString(s) => s,
            Pattern::CaseInSensitiveString(s) => s,
            Pattern::Regex(s) => s,
        }
    }

    /// The kind and the text of a pattern make it up.
    pub open spec fn with_text(self, text: String) -> Pattern {
        match self {
            Pattern::CaseSensitiveString(_) => Pattern::CaseSensitiveString(text),
            Pattern::CaseInSensitiveString(_) => Pattern::CaseInSensitiveString(text),
            Pattern::Regex(_) => Pattern::Regex(text),
        }
    }

    /// Access to the text for changing it; the kind stays.
    pub fn text_mut(&mut self) -> (s: &mut String)
        ensures
            *s == old(self).text(),
            *final(self) == old(self).with_text(*final(s)),
    {
        match self {
            Pattern::CaseSensitiveString(s) => s,
            Pattern::CaseInSensitiveString(s) => s,
            Pattern::Regex(s) => s,
        }
    }
}

impl core::ops::Deref for Pattern {
    type Target = String;

    fn deref(&self) -> (s: &String)
        ensures
            *s == self.text(),
    {
        match self {
            Pattern::CaseSensitiveString(s) => s,
            Pattern::CaseInSensitiveString(s) => s,
            Pattern::Regex(s) => s,
        }
    }
}

/// A match in the contents of a pane: from the cell `start_x` of the row
/// `start_y` up to, and not including, the cell `end_x` of the row `end_y`.
#[derive(Debug, Clone, Copy, PartialEq, Eq, PartialOrd, Ord)]
pub struct SearchResult {
    pub start_y: StableRowIndex,
    pub end_y: StableRowIndex,
    pub start_x: usize,
    pub end_x: usize,
}

} // verus!
