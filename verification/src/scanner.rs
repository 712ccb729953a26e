//! The scanner that takes a streamed answer apart into plain text, reasoning
//! and function blocks.
//!
//! An answer arrives in chunks that may end anywhere, also within a tag. What
//! cannot be decided yet stays in the scanner until more text comes.

use vstd::prelude::*;
use vstd::slice::slice_subrange;

use crate::text::{
    append_chars, begins_with, chars_of, find, find_in, lacks, lemma_find, releasable, release,
    text_of,
};

verus! {

/// What the text at the front of the scanner's buffer belongs to.
#[derive(Clone, Copy, Debug, PartialEq, Eq, Structural)]
pub enum Mode {
    /// Plain text, or the start of a tag that is not decided yet.
    Text,
    /// The inside of `<think>`.
    Think,
    /// A function block, from its opening tag on.
    Function,
}

/// A part of the answer that the scanner has decided on.
///
/// A plain text or a think block may leave the scanner in several pieces;
/// `joins` marks those that go on where the piece before ended.
#[derive(Debug)]
pub enum Piece {
    Text { text: String, joins: bool },
    Reasoning { text: String, joins: bool },
    /// A function block: its opening tag and body, without `</function>`.
    Block(String),
}

/// The mathematical content of a [`Piece`].
pub enum PieceView {
    Text { text: Seq<char>, joins: bool },
    Reasoning { text: Seq<char>, joins: bool },
    Block(Seq<char>),
}

impl View for Piece {
    type V = PieceView;

    open spec fn view(&self) -> PieceView {
        match self {
            Piece::Text { text, joins } => PieceView::Text { text: text@, joins: *joins },
            Piece::Reasoning { text, joins } => PieceView::Reasoning { text: text@, joins: *joins },
            Piece::Block(raw) => PieceView::Block(raw@),
        }
    }
}

/// The contents of a list of pieces.
pub open spec fn piece_views(s: Seq<Piece>) -> Seq<PieceView> {
    s.map_values(|p: Piece| p@)
}

/// The state of a scanner: the text that is not decided yet, what it belongs
/// to, and whether the piece that left last may still go on.
pub struct ScanView {
    pub pending: Seq<char>,
    pub mode: Mode,
    pub open: bool,
}

/// What one step of the scanner does: the pieces that leave it, its next
/// state, and whether there is more to decide in that state.
pub struct StepView {
    pub pieces: Seq<PieceView>,
    pub next: ScanView,
    pub more: bool,
}

/// The piece that holds `text`; none where it is empty.
pub open spec fn text_piece(text: Seq<char>, joins: bool) -> Seq<PieceView> {
    if text.len() == 0 {
        Seq::empty()
    } else {
        seq![PieceView::Text { text, joins }]
    }
}

/// The piece that holds the reasoning `text`; none where it is empty.
pub open spec fn reasoning_piece(text: Seq<char>, joins: bool) -> Seq<PieceView> {
    if text.len() == 0 {
        Seq::empty()
    } else {
        seq![PieceView::Reasoning { text, joins }]
    }
}

/// Nothing can be decided before more text comes.
pub open spec fn wait(s: ScanView) -> StepView {
    StepView { pieces: Seq::empty(), next: s, more: false }
}

/// The number of bytes that a think block holds back: as many as an
/// unfinished `</think>` can have.
pub open spec fn held_back() -> nat {
    7
}

/// A step inside of `<think>`.
///
/// Up to `</think>` all is reasoning. Where that tag has not come yet, all
/// that cannot be a part of it leaves the scanner.
pub open spec fn think_step(s: ScanView) -> StepView {
    let p = s.pending;
    match find(p, "</think>"@) {
        Some(e) => StepView {
            pieces: reasoning_piece(p.take(e), s.open),
            next: ScanView {
                pending: p.skip(e + "</think>"@.len()),
                mode: Mode::Text,
                open: false,
            },
            more: true,
        },
        None => {
            let k = release(p, held_back());
            StepView {
                pieces: reasoning_piece(p.take(k), s.open),
                next: ScanView { pending: p.skip(k), mode: Mode::Think, open: s.open || k > 0 },
                more: false,
            }
        },
    }
}

/// A step inside of a function block: it leaves the scanner when
/// `</function>` has come.
pub open spec fn function_step(s: ScanView) -> StepView {
    let p = s.pending;
    match find(p, "</function>"@) {
        Some(e) => StepView {
            pieces: seq![PieceView::Block(p.take(e))],
            next: ScanView {
                pending: p.skip(e + "</function>"@.len()),
                mode: Mode::Text,
                open: false,
            },
            more: true,
        },
        None => wait(s),
    }
}

/// A step on a text that begins with `<`.
///
/// `<think` and `<function` open a block, any other tag is plain text. The
/// tag is decided on when its `>` has come; with `eager`, `<function` at once.
pub open spec fn tag_step(eager: bool, s: ScanView) -> StepView {
    let p = s.pending;
    if "<think"@.is_prefix_of(p) {
        match find(p, ">"@) {
            Some(gt) => StepView {
                pieces: Seq::empty(),
                next: ScanView { pending: p.skip(gt + 1), mode: Mode::Think, open: false },
                more: true,
            },
            None => wait(s),
        }
    } else if "<function"@.is_prefix_of(p) {
        if eager || find(p, ">"@) is Some {
            StepView {
                pieces: Seq::empty(),
                next: ScanView { pending: p, mode: Mode::Function, open: false },
                more: true,
            }
        } else {
            wait(s)
        }
    } else {
        match find(p, ">"@) {
            Some(gt) => StepView {
                pieces: seq![PieceView::Text { text: p.take(gt + 1), joins: false }],
                next: ScanView { pending: p.skip(gt + 1), mode: Mode::Text, open: false },
                more: true,
            },
            None => wait(s),
        }
    }
}

/// A step on plain text: all before the first `<` leaves the scanner.
pub open spec fn text_step(eager: bool, s: ScanView) -> StepView {
    let p = s.pending;
    match find(p, "<"@) {
        Some(lt) => if lt > 0 {
            StepView {
                pieces: seq![PieceView::Text { text: p.take(lt), joins: s.open }],
                next: ScanView { pending: p.skip(lt), mode: Mode::Text, open: true },
                more: true,
            }
        } else {
            tag_step(eager, s)
        },
        None => StepView {
            pieces: text_piece(p, s.open),
            next: ScanView {
                pending: Seq::empty(),
                mode: Mode::Text,
                open: s.open || p.len() > 0,
            },
            more: false,
        },
    }
}

/// One step of the scanner.
pub open spec fn step(eager: bool, s: ScanView) -> StepView {
    match s.mode {
        Mode::Think => think_step(s),
        Mode::Function => function_step(s),
        Mode::Text => text_step(eager, s),
    }
}

/// Grows smaller with every step that leaves more to decide.
pub open spec fn measure(s: ScanView) -> nat {
    2 * s.pending.len() + if s.mode == Mode::Text {
        1nat
    } else {
        0nat
    }
}

/// What the scanner does with the text it holds: the pieces that leave it,
/// and the state that it waits in.
pub open spec fn scan(eager: bool, s: ScanView) -> (Seq<PieceView>, ScanView)
    decreases measure(s),
{
    proof {
        lemma_step_shrinks(eager, s);
    }
    let st = step(eager, s);
    if st.more {
        let (pieces, end) = scan(eager, st.next);
        (st.pieces + pieces, end)
    } else {
        (st.pieces, st.next)
    }
}

/// `s` with `chunk` behind the text that it holds.
pub open spec fn fed(s: ScanView, chunk: Seq<char>) -> ScanView {
    ScanView { pending: s.pending + chunk, mode: s.mode, open: s.open }
}

/// The state of a scanner before any text has come.
pub open spec fn start() -> ScanView {
    ScanView { pending: Seq::empty(), mode: Mode::Text, open: false }
}

/// A step that leaves more to decide has brought the scanner forward.
pub proof fn lemma_step_shrinks(eager: bool, s: ScanView)
    ensures
        step(eager, s).more ==> measure(step(eager, s).next) < measure(s),
{
    reveal_strlit("</think>");
    reveal_strlit("</function>");
    reveal_strlit(">");
    reveal_strlit("<");
    lemma_find(s.pending, "</think>"@);
    lemma_find(s.pending, "</function>"@);
    lemma_find(s.pending, ">"@);
    lemma_find(s.pending, "<"@);
}

/// A scanner over a streamed answer.
pub struct Scanner {
    pending: Vec<char>,
    mode: Mode,
    open: bool,
}

impl View for Scanner {
    type V = ScanView;

    closed spec fn view(&self) -> ScanView {
        ScanView { pending: self.pending@, mode: self.mode, open: self.open }
    }
}

impl Scanner {
    /// A scanner that holds nothing.
    pub fn new() -> (r: Scanner)
        ensures
            r@ == start(),
    {
        Scanner { pending: Vec::new(), mode: Mode::Text, open: false }
    }

    /// Puts `chunk` behind the text that the scanner holds.
    pub fn feed(&mut self, chunk: &str)
        ensures
            final(self)@ == fed(old(self)@, chunk@),
    {
        let extra = chars_of(chunk);
        append_chars(&mut self.pending, extra.as_slice());
    }

    /// What the text that the scanner holds belongs to.
    pub fn mode(&self) -> (r: Mode)
        ensures
            r == self@.mode,
    {
        self.mode
    }

    /// Whether the piece that left last may still go on.
    pub fn open(&self) -> (r: bool)
        ensures
            r == self@.open,
    {
        self.open
    }

    /// The text that the scanner holds.
    pub fn pending(&self) -> (r: String)
        ensures
            r@ == self@.pending,
    {
        text_of(self.pending.as_slice())
    }

    /// Leaves the block that the scanner is in; the text that it holds stays.
    pub fn leave(&mut self)
        ensures
            final(self)@ == (ScanView { pending: old(self)@.pending, mode: Mode::Text, open: false }),
    {
        self.mode = Mode::Text;
        self.open = false;
    }

    /// Drops the text that the scanner holds, and leaves the block it is in.
    pub fn clear(&mut self)
        ensures
            final(self)@ == start(),
    {
        self.pending = Vec::new();
        self.mode = Mode::Text;
        self.open = false;
        assert(self.pending@ =~= Seq::<char>::empty());
    }

    /// Takes the first `n` characters out of the text that the scanner holds.
    fn take_front(&mut self, n: usize) -> (r: String)
        requires
            n <= old(self)@.pending.len(),
        ensures
            r@ == old(self)@.pending.take(n as int),
            final(self)@ == (ScanView { pending: old(self)@.pending.skip(n as int), ..old(self)@ }),
    {
        let all = self.pending.as_slice();
        let front = text_of(slice_subrange(all, 0, n));
        let mut rest: Vec<char> = Vec::new();
        append_chars(&mut rest, slice_subrange(all, n, all.len()));
        proof {
            assert(front@ =~= self.pending@.take(n as int));
            assert(rest@ =~= self.pending@.skip(n as int));
        }
        self.pending = rest;
        front
    }

    /// Drops the first `n` characters of the text that the scanner holds.
    fn drop_front(&mut self, n: usize)
        requires
            n <= old(self)@.pending.len(),
        ensures
            final(self)@ == (ScanView { pending: old(self)@.pending.skip(n as int), ..old(self)@ }),
    {
        let all = self.pending.as_slice();
        let mut rest: Vec<char> = Vec::new();
        append_chars(&mut rest, slice_subrange(all, n, all.len()));
        proof {
            assert(rest@ =~= self.pending@.skip(n as int));
        }
        self.pending = rest;
    }

    /// Finds the first `p` in the text that the scanner holds.
    fn find(&self, p: &str) -> (r: Option<usize>)
        ensures
            match r {
                Some(i) => find(self@.pending, p@) == Some(i as int) && i + p@.len()
                    <= self@.pending.len() <= usize::MAX,
                None => lacks(self@.pending, p@),
            },
    {
        let needle = chars_of(p);
        let n = self.pending.len();
        find_in(self.pending.as_slice(), needle.as_slice())
    }

    /// Whether the text that the scanner holds begins with `p`.
    fn begins_with(&self, p: &str) -> (r: bool)
        ensures
            r == p@.is_prefix_of(self@.pending),
    {
        let needle = chars_of(p);
        begins_with(self.pending.as_slice(), needle.as_slice())
    }

    fn step_think(&mut self, out: &mut Vec<Piece>) -> (more: bool)
        requires
            old(self)@.mode == Mode::Think,
        ensures
            ({
                let st = think_step(old(self)@);
                &&& more == st.more
                &&& final(self)@ == st.next
                &&& piece_views(final(out)@) == piece_views(old(out)@) + st.pieces
            }),
    {
        proof {
            reveal_strlit("</think>");
        }
        let ghost p = self@.pending;
        match self.find("</think>") {
            Some(e) => {
                let joins = self.open;
                let text = self.take_front(e);
                self.drop_front(8);
                self.mode = Mode::Text;
                self.open = false;
                if e > 0 {
                    out.push(Piece::Reasoning { text, joins });
                }
                proof {
                    assert(p.skip(e as int).skip(8) =~= p.skip(e + 8));
                    assert(piece_views(out@) =~= piece_views(old(out)@) + reasoning_piece(
                        p.take(e as int),
                        joins,
                    ));
                }
                true
            },
            None => {
                let k = releasable(self.pending.as_slice(), 7);
                let joins = self.open;
                let text = self.take_front(k);
                if k > 0 {
                    out.push(Piece::Reasoning { text, joins });
                    self.open = true;
                }
                proof {
                    assert(piece_views(out@) =~= piece_views(old(out)@) + reasoning_piece(
                        p.take(k as int),
                        joins,
                    ));
                }
                false
            },
        }
    }

    fn step_function(&mut self, out: &mut Vec<Piece>) -> (more: bool)
        requires
            old(self)@.mode == Mode::Function,
        ensures
            ({
                let st = function_step(old(self)@);
                &&& more == st.more
                &&& final(self)@ == st.next
                &&& piece_views(final(out)@) == piece_views(old(out)@) + st.pieces
            }),
    {
        proof {
            reveal_strlit("</function>");
        }
        let ghost p = self@.pending;
        match self.find("</function>") {
            Some(e) => {
                let raw = self.take_front(e);
                self.drop_front(11);
                self.mode = Mode::Text;
                self.open = false;
                out.push(Piece::Block(raw));
                proof {
                    assert(p.skip(e as int).skip(11) =~= p.skip(e + 11));
                    assert(piece_views(out@) =~= piece_views(old(out)@) + seq![
                        PieceView::Block(p.take(e as int)),
                    ]);
                }
                true
            },
            None => {
                assert(piece_views(out@) =~= piece_views(old(out)@) + Seq::<PieceView>::empty());
                false
            },
        }
    }

    fn step_tag(&mut self, eager: bool, out: &mut Vec<Piece>) -> (more: bool)
        requires
            old(self)@.mode == Mode::Text,
        ensures
            ({
                let st = tag_step(eager, old(self)@);
                &&& more == st.more
                &&& final(self)@ == st.next
                &&& piece_views(final(out)@) == piece_views(old(out)@) + st.pieces
            }),
    {
        proof {
            reveal_strlit(">");
            assert(piece_views(out@) =~= piece_views(out@) + Seq::<PieceView>::empty());
        }
        let ghost p = self@.pending;
        let end = self.find(">");
        if self.begins_with("<think") {
            match end {
                Some(gt) => {
                    self.drop_front(gt + 1);
                    self.mode = Mode::Think;
                    self.open = false;
                    true
                },
                None => false,
            }
        } else if self.begins_with("<function") {
            if eager || end.is_some() {
                self.mode = Mode::Function;
                self.open = false;
                true
            } else {
                false
            }
        } else {
            match end {
                Some(gt) => {
                    let text = self.take_front(gt + 1);
                    self.open = false;
                    out.push(Piece::Text { text, joins: false });
                    proof {
                        assert(piece_views(out@) =~= piece_views(old(out)@) + seq![
                            PieceView::Text { text: p.take(gt + 1), joins: false },
                        ]);
                    }
                    true
                },
                None => false,
            }
        }
    }

    fn step_text(&mut self, eager: bool, out: &mut Vec<Piece>) -> (more: bool)
        requires
            old(self)@.mode == Mode::Text,
        ensures
            ({
                let st = text_step(eager, old(self)@);
                &&& more == st.more
                &&& final(self)@ == st.next
                &&& piece_views(final(out)@) == piece_views(old(out)@) + st.pieces
            }),
    {
        let ghost p = self@.pending;
        let joins = self.open;
        match self.find("<") {
            Some(lt) => {
                if lt > 0 {
                    let text = self.take_front(lt);
                    self.open = true;
                    out.push(Piece::Text { text, joins });
                    proof {
                        assert(piece_views(out@) =~= piece_views(old(out)@) + seq![
                            PieceView::Text { text: p.take(lt as int), joins },
                        ]);
                    }
                    true
                } else {
                    self.step_tag(eager, out)
                }
            },
            None => {
                let n = self.pending.len();
                let text = self.take_front(n);
                if n > 0 {
                    out.push(Piece::Text { text, joins });
                    self.open = true;
                }
                proof {
                    assert(p.take(n as int) =~= p);
                    assert(p.skip(n as int) =~= Seq::<char>::empty());
                    assert(piece_views(out@) =~= piece_views(old(out)@) + text_piece(p, joins));
                }
                false
            },
        }
    }

    /// Decides on the text that the scanner holds as far as it can be decided.
    pub fn drain(&mut self, eager: bool) -> (r: Vec<Piece>)
        ensures
            (piece_views(r@), final(self)@) == scan(eager, old(self)@),
    {
        let mut out: Vec<Piece> = Vec::new();
        let ghost first = self@;
        assert(piece_views(out@) =~= Seq::<PieceView>::empty());
        assert(piece_views(out@) + scan(eager, first).0 =~= scan(eager, first).0);
        let mut more = true;
        while more
            invariant
                more ==> ({
                    let (rest, end) = scan(eager, self@);
                    scan(eager, first) == (piece_views(out@) + rest, end)
                }),
                !more ==> scan(eager, first) == (piece_views(out@), self@),
            decreases (if more { measure(self@) + 1 } else { 0 }),
        {
            let ghost before = self@;
            let ghost left = piece_views(out@);
            proof {
                lemma_step_shrinks(eager, before);
            }
            more = match self.mode {
                Mode::Think => self.step_think(&mut out),
                Mode::Function => self.step_function(&mut out),
                Mode::Text => self.step_text(eager, &mut out),
            };
            proof {
                let st = step(eager, before);
                if st.more {
                    let rest = scan(eager, st.next).0;
                    assert(left + (st.pieces + rest) =~= (left + st.pieces) + rest);
                }
            }
        }
        out
    }
}

} // verus!
