//! Pasting a long text into a pane piece by piece: which piece comes next,
//! and that the pieces make up the text.

use crate::pane::{Pane, PaneError, PaneId};
use vstd::prelude::*;
use vstd::string::StringSliceAdditionalSpecFns;
use vstd::utf8::{
    encode_utf8, encode_utf8_valid_utf8, is_char_boundary,
    is_char_boundary_iff_not_is_continuation_byte, is_char_boundary_start_end_of_seq,
    length_of_first_scalar, pop_first_scalar, valid_utf8, valid_utf8_split,
};

verus! {

/// The most bytes that one piece holds.
pub const PASTE_CHUNK_SIZE: usize = 1024;

/// The last character boundary of `bytes` at or before `at`.
pub open spec fn last_boundary(bytes: Seq<u8>, at: int) -> int
    decreases at,
{
    if at <= 0 || is_char_boundary(bytes, at) {
        at
    } else {
        last_boundary(bytes, at - 1)
    }
}

/// Where the piece that starts at `offset` ends: as far behind `offset` as
/// a piece may reach, or at the end of the text, and back from there to a
/// character boundary.
pub open spec fn chunk_end(bytes: Seq<u8>, offset: int) -> int {
    let reach = if bytes.len() - offset <= PASTE_CHUNK_SIZE {
        bytes.len() as int
    } else {
        offset + PASTE_CHUNK_SIZE
    };
    last_boundary(bytes, reach)
}

/// The pieces that the text is sent in from `offset` on.
pub open spec fn chunks(bytes: Seq<u8>, offset: int) -> Seq<Seq<u8>>
    decreases bytes.len() - offset,
{
    let end = chunk_end(bytes, offset);
    if 0 <= offset < end <= bytes.len() {
        seq![bytes.subrange(offset, end)] + chunks(bytes, end)
    } else {
        Seq::empty()
    }
}

/// The pieces one after the other.
pub open spec fn joined(pieces: Seq<Seq<u8>>) -> Seq<u8>
    decreases pieces.len(),
{
    if pieces.len() == 0 {
        Seq::empty()
    } else {
        pieces[0] + joined(pieces.subrange(1, pieces.len() as int))
    }
}

/// A character of a text ends at most four bytes behind its start.
pub proof fn lemma_next_boundary(bytes: Seq<u8>, offset: int)
    requires
        valid_utf8(bytes),
        0 <= offset < bytes.len(),
        is_char_boundary(bytes, offset),
    ensures
        exists|b: int| offset < b <= offset + 4 && b <= bytes.len() && is_char_boundary(bytes, b),
{
    let rest = bytes.subrange(offset, bytes.len() as int);
    valid_utf8_split(bytes, offset);
    assert(valid_utf8(rest));
    let width = length_of_first_scalar(rest);
    assert(1 <= width <= 4 && width <= rest.len());
    assert(valid_utf8(pop_first_scalar(rest)));
    assert(is_char_boundary(rest, width)) by {
        reveal_with_fuel(is_char_boundary, 2);
    }
    let b = offset + width;
    if b < bytes.len() {
        is_char_boundary_iff_not_is_continuation_byte(rest, width);
        assert(rest[width] == bytes[b]);
        is_char_boundary_iff_not_is_continuation_byte(bytes, b);
    } else {
        is_char_boundary_start_end_of_seq(bytes);
    }
    assert(is_char_boundary(bytes, b));
}

/// The last boundary at or before `at` is a boundary, and no boundary lies
/// between it and `at`.
pub proof fn lemma_last_boundary(bytes: Seq<u8>, at: int, b: int)
    requires
        valid_utf8(bytes),
        0 <= b <= at,
        is_char_boundary(bytes, b),
    ensures
        b <= last_boundary(bytes, at) <= at,
        is_char_boundary(bytes, last_boundary(bytes, at)),
    decreases at,
{
    if at <= 0 || is_char_boundary(bytes, at) {
    } else {
        lemma_last_boundary(bytes, at - 1, b);
    }
}

/// A piece that starts at a boundary before the end of the text is not
/// empty, holds at most `PASTE_CHUNK_SIZE` bytes and ends at a boundary.
pub proof fn lemma_chunk_end(bytes: Seq<u8>, offset: int)
    requires
        valid_utf8(bytes),
        0 <= offset <= bytes.len(),
        is_char_boundary(bytes, offset),
    ensures
        offset <= chunk_end(bytes, offset) <= bytes.len(),
        chunk_end(bytes, offset) - offset <= PASTE_CHUNK_SIZE,
        is_char_boundary(bytes, chunk_end(bytes, offset)),
        offset < bytes.len() ==> offset < chunk_end(bytes, offset),
        bytes.len() - offset <= PASTE_CHUNK_SIZE ==> chunk_end(bytes, offset) == bytes.len(),
{
    let reach = if bytes.len() - offset <= PASTE_CHUNK_SIZE {
        bytes.len() as int
    } else {
        offset + PASTE_CHUNK_SIZE
    };
    lemma_last_boundary(bytes, reach, offset);
    is_char_boundary_start_end_of_seq(bytes);
    if offset < bytes.len() {
        lemma_next_boundary(bytes, offset);
        let b = choose|b: int|
            offset < b <= offset + 4 && b <= bytes.len() && is_char_boundary(bytes, b);
        lemma_last_boundary(bytes, reach, b);
    }
}

/// Paste completeness: the pieces from a boundary on, one after the other,
/// are the text from that boundary on, and each piece holds between one
/// and `PASTE_CHUNK_SIZE` bytes.
pub proof fn lemma_chunks_complete(bytes: Seq<u8>, offset: int)
    requires
        valid_utf8(bytes),
        0 <= offset <= bytes.len(),
        is_char_boundary(bytes, offset),
    ensures
        joined(chunks(bytes, offset)) == bytes.subrange(offset, bytes.len() as int),
        forall|i: int|
            0 <= i < chunks(bytes, offset).len() ==> 1 <= (#[trigger] chunks(
                bytes,
                offset,
            )[i]).len() <= PASTE_CHUNK_SIZE,
    decreases bytes.len() - offset,
{
    lemma_chunk_end(bytes, offset);
    let end = chunk_end(bytes, offset);
    let all = chunks(bytes, offset);
    if offset < bytes.len() {
        lemma_chunks_complete(bytes, end);
        let head = bytes.subrange(offset, end);
        let tail = chunks(bytes, end);
        assert(all == seq![head] + tail);
        assert(all.subrange(1, all.len() as int) =~= tail);
        assert(joined(all) =~= bytes.subrange(offset, bytes.len() as int));
        assert forall|i: int| 0 <= i < all.len() implies 1 <= (#[trigger] all[i]).len()
            <= PASTE_CHUNK_SIZE by {
            if i > 0 {
                assert(all[i] == tail[i - 1]);
            }
        }
    } else {
        assert(joined(all) =~= bytes.subrange(offset, bytes.len() as int));
    }
}

/// Paste completeness: the pieces that any text is sent in, one after the
/// other, are the bytes of the text, and none holds more than
/// `PASTE_CHUNK_SIZE` bytes.
pub proof fn lemma_text_complete(text: Seq<char>)
    ensures
        joined(chunks(encode_utf8(text), 0)) == encode_utf8(text),
        forall|i: int|
            0 <= i < chunks(encode_utf8(text), 0).len() ==> 1 <= (#[trigger] chunks(
                encode_utf8(text),
                0,
            )[i]).len() <= PASTE_CHUNK_SIZE,
{
    let bytes = encode_utf8(text);
    encode_utf8_valid_utf8(text);
    is_char_boundary_start_end_of_seq(bytes);
    lemma_chunks_complete(bytes, 0);
    assert(bytes.subrange(0, bytes.len() as int) =~= bytes);
}

/// The number of bytes of a text.
fn byte_len(text: &str) -> (n: usize)
    ensures
        n == encode_utf8(text@).len(),
{
    text.as_bytes().len()
}

/// A paste that is under way: the pane it goes to, the text, and how many
/// bytes of the text have been sent.
pub struct Paste {
    pane_id: PaneId,
    text: String,
    offset: usize,
}

impl Paste {
    /// The pane that the paste goes to.
    pub closed spec fn pane(&self) -> PaneId {
        self.pane_id
    }

    /// The bytes of the whole text.
    pub closed spec fn bytes(&self) -> Seq<u8> {
        encode_utf8(self.text@)
    }

    /// How many bytes have been sent.
    pub closed spec fn sent(&self) -> int {
        self.offset as int
    }

    /// The bytes are those of a text, and what has been sent ends at a
    /// character boundary of it.
    pub open spec fn wf(&self) -> bool {
        &&& valid_utf8(self.bytes())
        &&& 0 <= self.sent() <= self.bytes().len()
        &&& is_char_boundary(self.bytes(), self.sent())
    }

    /// The pieces that are still to be sent.
    pub open spec fn pending(&self) -> Seq<Seq<u8>> {
        chunks(self.bytes(), self.sent())
    }

    /// A paste of `text` into the pane `pane_id` of which nothing has been
    /// sent.
    pub fn new(pane_id: PaneId, text: String) -> (paste: Self)
        ensures
            paste.wf(),
            paste.pane() == pane_id,
            paste.bytes() == encode_utf8(text@),
            paste.sent() == 0,
    {
        proof {
            encode_utf8_valid_utf8(text@);
            is_char_boundary_start_end_of_seq(encode_utf8(text@));
        }
        Paste { pane_id, text, offset: 0 }
    }

    /// The pane that the paste goes to.
    pub fn pane_id(&self) -> (id: PaneId)
        ensures
            id == self.pane(),
    {
        self.pane_id
    }

    /// How many bytes of the text have been sent.
    pub fn offset(&self) -> (n: usize)
        ensures
            n == self.sent(),
    {
        self.offset
    }

    /// True once the whole text has been sent.
    pub fn is_done(&self) -> (done: bool)
        requires
            self.wf(),
        ensures
            done == (self.sent() == self.bytes().len()),
            done == (self.pending().len() == 0),
    {
        proof {
            encode_utf8_valid_utf8(self.text@);
            lemma_chunk_end(self.bytes(), self.sent());
        }
        self.offset == byte_len(self.text.as_str())
    }

    /// Where the next piece ends.
    fn next_end(&self) -> (end: usize)
        requires
            self.wf(),
        ensures
            end == chunk_end(self.bytes(), self.sent()),
            self.sent() <= end <= self.bytes().len(),
            is_char_boundary(self.bytes(), end as int),
    {
        let text = self.text.as_str();
        let len = byte_len(text);
        proof {
            encode_utf8_valid_utf8(self.text@);
            lemma_chunk_end(self.bytes(), self.sent());
        }
        let mut end: usize = if len - self.offset <= PASTE_CHUNK_SIZE {
            len
        } else {
            self.offset + PASTE_CHUNK_SIZE
        };
        while !text.is_char_boundary(end)
            invariant
                self.wf(),
                text@ == self.text@,
                self.offset <= end <= self.bytes().len(),
                last_boundary(self.bytes(), end as int) == chunk_end(self.bytes(), self.sent()),
            decreases end,
        {
            end = end - 1;
        }
        end
    }

    /// The next piece of the text: empty once the whole text has been sent.
    pub fn chunk(&self) -> (piece: &str)
        requires
            self.wf(),
        ensures
            encode_utf8(piece@) == self.bytes().subrange(
                self.sent(),
                chunk_end(self.bytes(), self.sent()),
            ),
            encode_utf8(piece@).len() <= PASTE_CHUNK_SIZE,
            self.pending().len() > 0 ==> encode_utf8(piece@) == self.pending()[0],
    {
        let end = self.next_end();
        let text = self.text.as_str();
        proof {
            encode_utf8_valid_utf8(self.text@);
            lemma_chunk_end(self.bytes(), self.sent());
        }
        let (_, rest) = text.split_at(self.offset);
        proof {
            let bytes = self.bytes();
            let width = end - self.offset;
            valid_utf8_split(bytes, self.offset as int);
            assert(rest.spec_bytes() == bytes.subrange(self.offset as int, bytes.len() as int));
            if (end as int) < bytes.len() {
                is_char_boundary_iff_not_is_continuation_byte(bytes, end as int);
                assert(rest.spec_bytes()[width] == bytes[end as int]);
                is_char_boundary_iff_not_is_continuation_byte(rest.spec_bytes(), width);
            } else {
                is_char_boundary_start_end_of_seq(rest.spec_bytes());
            }
        }
        let (piece, _) = rest.split_at(end - self.offset);
        assert(piece.spec_bytes() =~= self.bytes().subrange(self.sent(), end as int));
        piece
    }

    /// What the first piece of a new paste leaves to do, given the answer
    /// of the pane to it: nothing if the pane did not take it, or if the
    /// text is no longer than one piece; else the rest of the paste, for
    /// later turns.
    pub fn after_first_chunk(self, sent: Result<(), PaneError>) -> (r: Result<
        Option<Paste>,
        PaneError,
    >)
        requires
            self.wf(),
            self.sent() == 0,
        ensures
            match sent {
                Err(e) => r == Err::<Option<Paste>, PaneError>(e),
                Ok(_) => if self.bytes().len() <= PASTE_CHUNK_SIZE {
                    r == Ok::<Option<Paste>, PaneError>(None)
                } else {
                    &&& r matches Ok(Some(paste))
                    &&& paste.wf()
                    &&& paste.pane() == self.pane()
                    &&& paste.bytes() == self.bytes()
                    &&& paste.sent() == chunk_end(self.bytes(), 0)
                },
            },
    {
        match sent {
            Err(e) => Err(e),
            Ok(_) => {
                if byte_len(self.text.as_str()) <= PASTE_CHUNK_SIZE {
                    Ok(None)
                } else {
                    let mut paste = self;
                    let _more = paste.advance();
                    Ok(Some(paste))
                }
            },
        }
    }

    /// Sends the next piece to `pane`. If the pane takes it, the piece
    /// counts as sent and the answer says whether there is more to send;
    /// if not, the paste stays where it was.
    pub fn send_next<P: Pane>(&mut self, pane: &P) -> (r: Result<bool, PaneError>)
        requires
            old(self).wf(),
        ensures
            final(self).wf(),
            final(self).pane() == old(self).pane(),
            final(self).bytes() == old(self).bytes(),
            (exists|sent: Result<(), PaneError>| #[trigger]
                answered(pane, old(self).next_piece(), sent) && r == old(self).outcome(sent)
                    && final(self).sent() == old(self).sent_after(sent)),
            match r {
                Ok(more) => {
                    &&& final(self).sent() == chunk_end(old(self).bytes(), old(self).sent())
                    &&& more == (final(self).sent() < final(self).bytes().len())
                },
                Err(_) => final(self).sent() == old(self).sent(),
            },
    {
        let sent = pane.send_paste(self.chunk());
        let r = self.after_chunk(sent);
        assert(answered(pane, old(self).next_piece(), sent));
        r
    }

    /// The bytes of the piece that is sent next: none once the whole text
    /// has been sent.
    pub open spec fn next_piece(&self) -> Seq<u8> {
        self.bytes().subrange(self.sent(), chunk_end(self.bytes(), self.sent()))
    }

    /// What a turn gives back when the pane has answered `sent` to the next
    /// piece: the refusal of the pane, or whether there is more to send
    /// after that piece.
    pub open spec fn outcome(&self, sent: Result<(), PaneError>) -> Result<bool, PaneError> {
        match sent {
            Err(e) => Err(e),
            Ok(_) => Ok(chunk_end(self.bytes(), self.sent()) < self.bytes().len()),
        }
    }

    /// How many bytes count as sent when the pane has answered `sent` to
    /// the next piece: those of the piece too if the pane took it.
    pub open spec fn sent_after(&self, sent: Result<(), PaneError>) -> int {
        match sent {
            Err(_) => self.sent(),
            Ok(_) => chunk_end(self.bytes(), self.sent()),
        }
    }

    /// Takes note of what the pane has answered to the next piece: if it
    /// took the piece, the piece counts as sent and the answer says
    /// whether there is more to send; if not, the paste stays where it was
    /// and the refusal is handed on.
    pub fn after_chunk(&mut self, sent: Result<(), PaneError>) -> (r: Result<bool, PaneError>)
        requires
            old(self).wf(),
        ensures
            final(self).wf(),
            final(self).pane() == old(self).pane(),
            final(self).bytes() == old(self).bytes(),
            r == old(self).outcome(sent),
            final(self).sent() == old(self).sent_after(sent),
    {
        match sent {
            Ok(_) => Ok(self.advance()),
            Err(e) => Err(e),
        }
    }

    /// Counts the next piece as sent. True iff there is more to send.
    pub fn advance(&mut self) -> (more: bool)
        requires
            old(self).wf(),
        ensures
            final(self).wf(),
            final(self).pane() == old(self).pane(),
            final(self).bytes() == old(self).bytes(),
            final(self).sent() == chunk_end(old(self).bytes(), old(self).sent()),
            old(self).pending().len() > 0 ==> final(self).pending() == old(self).pending().subrange(
                1,
                old(self).pending().len() as int,
            ),
            more == (final(self).sent() < final(self).bytes().len()),
    {
        let end = self.next_end();
        proof {
            encode_utf8_valid_utf8(self.text@);
            lemma_chunk_end(self.bytes(), self.sent());
            let all = self.pending();
            if all.len() > 0 {
                assert(all.subrange(1, all.len() as int) =~= chunks(self.bytes(), end as int));
            }
        }
        self.offset = end;
        end < byte_len(self.text.as_str())
    }
}

/// The bytes of the first piece that `text` is sent in: the whole text
/// if it is no longer than a piece may be.
pub open spec fn first_piece(text: Seq<char>) -> Seq<u8> {
    encode_utf8(text).subrange(0, chunk_end(encode_utf8(text), 0))
}

/// `r` is what a paste of `text` gives back once the pane has answered
/// `sent` to the first piece: the refusal of the pane; nothing to do if the
/// text is no longer than one piece; else the paste with the first piece
/// counted as sent.
pub open spec fn started(
    text: Seq<char>,
    sent: Result<(), PaneError>,
    r: Result<Option<Paste>, PaneError>,
) -> bool {
    match sent {
        Err(e) => r == Err::<Option<Paste>, PaneError>(e),
        Ok(_) => if encode_utf8(text).len() <= PASTE_CHUNK_SIZE {
            r == Ok::<Option<Paste>, PaneError>(None)
        } else {
            &&& r matches Ok(Some(paste))
            &&& paste.wf()
            &&& paste.bytes() == encode_utf8(text)
            &&& paste.sent() == chunk_end(encode_utf8(text), 0)
        },
    }
}

/// `sent` is an answer that `pane` can give when a text with the bytes
/// `bytes` is pasted into it.
pub open spec fn answered<P: Pane + ?Sized>(
    pane: &P,
    bytes: Seq<u8>,
    sent: Result<(), PaneError>,
) -> bool {
    exists|piece: &str|
        encode_utf8(piece@) == bytes && #[trigger] call_ensures(
            P::send_paste,
            (pane, piece),
            sent,
        )
}

/// The pieces that a paste has still to send are, one after the other,
/// the bytes of its text that have not been sent.
pub proof fn lemma_pending_complete(paste: &Paste)
    requires
        paste.wf(),
    ensures
        joined(paste.pending()) == paste.bytes().subrange(
            paste.sent(),
            paste.bytes().len() as int,
        ),
        forall|i: int|
            0 <= i < paste.pending().len() ==> 1 <= (#[trigger] paste.pending()[i]).len()
                <= PASTE_CHUNK_SIZE,
{
    encode_utf8_valid_utf8(paste.text@);
    lemma_chunks_complete(paste.bytes(), paste.sent());
}

} // verus!
