use mux_tab::pane::{Pane, PaneError, PaneId};
use mux_tab::paste::{Paste, PASTE_CHUNK_SIZE};
use mux_tab::size::PtySize;
use std::cell::{Cell, RefCell};

struct Sink {
    got: RefCell<Vec<String>>,
    refuse_from: Cell<usize>,
}

impl Sink {
    fn new() -> Sink {
        Sink {
            got: RefCell::new(vec![]),
            refuse_from: Cell::new(usize::MAX),
        }
    }
}

impl Pane for Sink {
    fn pane_id(&self) -> PaneId {
        11
    }
    fn is_dead(&self) -> bool {
        false
    }
    fn resize(&self, _size: PtySize) -> Result<(), PaneError> {
        unreachable!()
    }
    fn send_paste(&self, text: &str) -> Result<(), PaneError> {
        if self.got.borrow().len() >= self.refuse_from.get() {
            return Err(PaneError {
                message: String::from("closed"),
            });
        }
        self.got.borrow_mut().push(text.to_string());
        Ok(())
    }
}

fn text_of(len: usize) -> String {
    let mut s = String::new();
    for i in 0..len {
        s.push((b'a' + (i % 26) as u8) as char);
    }
    s
}

fn paste_all(sink: &Sink, text: String) {
    let mut turns = 0;
    let mut state = sink.trickle_paste(text).unwrap();
    while let Some(mut paste) = state {
        turns += 1;
        assert!(turns < 10_000);
        let more = paste.send_next(sink).unwrap();
        assert_eq!(more, !paste.is_done());
        state = if more { Some(paste) } else { None };
    }
}

#[test]
fn chunk_size_is_1024() {
    assert_eq!(PASTE_CHUNK_SIZE, 1024);
}

#[test]
fn paste_trickle_of_2500_bytes_takes_three_sends() {
    let text = text_of(2500);
    let sink = Sink::new();
    paste_all(&sink, text.clone());
    let got = sink.got.borrow();
    assert_eq!(got.len(), 3);
    assert_eq!(got[0], text[0..1024]);
    assert_eq!(got[1], text[1024..2048]);
    assert_eq!(got[2], text[2048..2500]);
}

#[test]
fn short_paste_is_sent_at_once() {
    let sink = Sink::new();
    let r = sink.trickle_paste(String::from("hello")).unwrap();
    assert!(r.is_none());
    assert_eq!(*sink.got.borrow(), vec![String::from("hello")]);
}

#[test]
fn paste_of_exactly_one_chunk_is_sent_at_once() {
    let text = text_of(1024);
    let sink = Sink::new();
    let r = sink.trickle_paste(text.clone()).unwrap();
    assert!(r.is_none());
    assert_eq!(*sink.got.borrow(), vec![text]);
}

#[test]
fn empty_paste_sends_one_empty_piece() {
    let sink = Sink::new();
    let r = sink.trickle_paste(String::new()).unwrap();
    assert!(r.is_none());
    assert_eq!(*sink.got.borrow(), vec![String::new()]);
}

#[test]
fn paste_of_1025_bytes_leaves_one_byte_for_later() {
    let text = text_of(1025);
    let sink = Sink::new();
    let mut paste = sink.trickle_paste(text.clone()).unwrap().unwrap();
    assert_eq!(paste.pane_id(), 11);
    assert!(!paste.is_done());
    assert_eq!(paste.chunk(), &text[1024..]);
    let more = paste.send_next(&sink).unwrap();
    assert!(!more);
    assert!(paste.is_done());
    assert_eq!(paste.chunk(), "");
    assert_eq!(sink.got.borrow().len(), 2);
}

#[test]
fn pieces_end_at_character_boundaries() {
    // 1023 bytes of ASCII, then characters of three bytes each: the byte
    // 1024 is the first of a character that does not fit in the first piece
    let mut text = text_of(1023);
    for _ in 0..700 {
        text.push('\u{20ac}');
    }
    let sink = Sink::new();
    paste_all(&sink, text.clone());
    let got = sink.got.borrow();
    assert_eq!(got[0].len(), 1023);
    assert_eq!(got[1].len(), 1023);
    let joined: String = got.concat();
    assert_eq!(joined, text);
    for piece in got.iter() {
        assert!(piece.len() <= 1024);
        assert!(!piece.is_empty());
    }
}

#[test]
fn pieces_of_any_text_make_up_the_text() {
    let mut text = String::new();
    let alphabet = ['a', '\u{e9}', '\u{20ac}', '\u{1f600}', 'z'];
    for i in 0..3000usize {
        text.push(alphabet[(i * 7 + i / 3) % 5]);
    }
    let sink = Sink::new();
    paste_all(&sink, text.clone());
    let got = sink.got.borrow();
    assert_eq!(got.concat(), text);
    for (i, piece) in got.iter().enumerate() {
        assert!(piece.len() <= 1024);
        if i + 1 < got.len() {
            assert!(piece.len() >= 1021);
        } else {
            assert!(!piece.is_empty());
        }
    }
}

#[test]
fn refused_first_piece_ends_the_paste() {
    let sink = Sink::new();
    sink.refuse_from.set(0);
    let r = sink.trickle_paste(text_of(3000));
    assert_eq!(
        r.err(),
        Some(PaneError {
            message: String::from("closed")
        })
    );
    assert!(sink.got.borrow().is_empty());
}

#[test]
fn refused_later_piece_leaves_the_paste_where_it_was() {
    let text = text_of(3000);
    let sink = Sink::new();
    sink.refuse_from.set(1);
    let mut paste = sink.trickle_paste(text.clone()).unwrap().unwrap();
    let r = paste.send_next(&sink);
    assert!(r.is_err());
    assert_eq!(paste.chunk(), &text[1024..2048]);
    sink.refuse_from.set(usize::MAX);
    assert_eq!(paste.send_next(&sink), Ok(true));
    assert_eq!(paste.send_next(&sink), Ok(false));
    assert_eq!(sink.got.borrow().concat(), text);
}

#[test]
fn after_first_chunk_for_each_answer() {
    let e = PaneError {
        message: String::from("no"),
    };
    assert_eq!(
        Paste::new(3, text_of(5000))
            .after_first_chunk(Err(e.clone()))
            .err(),
        Some(e)
    );
    assert!(Paste::new(3, text_of(10))
        .after_first_chunk(Ok(()))
        .unwrap()
        .is_none());
    assert!(Paste::new(3, text_of(1024))
        .after_first_chunk(Ok(()))
        .unwrap()
        .is_none());
    let text = text_of(5000);
    let paste = Paste::new(3, text.clone())
        .after_first_chunk(Ok(()))
        .unwrap()
        .unwrap();
    assert_eq!(paste.pane_id(), 3);
    assert_eq!(paste.chunk(), &text[1024..2048]);
}

#[test]
fn new_paste_starts_at_the_first_byte() {
    let text = text_of(2000);
    let mut paste = Paste::new(5, text.clone());
    assert_eq!(paste.pane_id(), 5);
    assert!(!paste.is_done());
    assert_eq!(paste.offset(), 0);
    assert_eq!(paste.chunk(), &text[0..1024]);
    assert!(paste.advance());
    assert_eq!(paste.offset(), 1024);
    assert_eq!(paste.chunk(), &text[1024..]);
    assert!(!paste.advance());
    assert!(paste.is_done());
    let mut empty = Paste::new(5, String::new());
    assert!(empty.is_done());
    assert!(!empty.advance());
}

#[test]
fn after_chunk_for_each_answer() {
    let text = text_of(3000);
    let mut paste = Paste::new(5, text.clone());
    let e = PaneError {
        message: String::from("busy"),
    };
    assert_eq!(paste.after_chunk(Err(e.clone())), Err(e));
    assert_eq!(paste.offset(), 0);
    assert_eq!(paste.chunk(), &text[0..1024]);
    assert_eq!(paste.after_chunk(Ok(())), Ok(true));
    assert_eq!(paste.offset(), 1024);
    assert_eq!(paste.after_chunk(Ok(())), Ok(true));
    assert_eq!(paste.offset(), 2048);
    assert_eq!(paste.chunk(), &text[2048..]);
    assert_eq!(paste.after_chunk(Ok(())), Ok(false));
    assert_eq!(paste.offset(), 3000);
    assert!(paste.is_done());
    assert_eq!(paste.after_chunk(Ok(())), Ok(false));
    assert_eq!(paste.offset(), 3000);
}
