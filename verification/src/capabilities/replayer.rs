//! The replayer: streamed answer text in, text, reasoning and calls out.

use vstd::prelude::*;

use crate::call::{call_of, read_call, reads_back, CallView};
use crate::markup::Cdata;
use crate::scanner::{
    fed, piece_views, scan, start, Mode, Piece, PieceView, ScanView, Scanner,
};

verus! {

/// What the replayer makes of a part of the answer.
#[derive(Debug)]
pub enum Flush {
    Text(String),
    Reasoning(String),
    ToolCall { name: String, arguments: String },
}

/// The mathematical content of a [`Flush`].
pub enum FlushView {
    Text(Seq<char>),
    Reasoning(Seq<char>),
    ToolCall(CallView),
}

impl View for Flush {
    type V = FlushView;

    open spec fn view(&self) -> FlushView {
        match self {
            Flush::Text(s) => FlushView::Text(s@),
            Flush::Reasoning(s) => FlushView::Reasoning(s@),
            Flush::ToolCall { name, arguments } => FlushView::ToolCall(
                CallView { name: name@, arguments: arguments@ },
            ),
        }
    }
}

/// The contents of a list of flushes.
pub open spec fn flush_views(s: Seq<Flush>) -> Seq<FlushView> {
    s.map_values(|f: Flush| f@)
}

/// What becomes of a piece: a function block that is broken is dropped.
pub open spec fn flush_of(p: PieceView) -> Seq<FlushView> {
    match p {
        PieceView::Text { text, .. } => seq![FlushView::Text(text)],
        PieceView::Reasoning { text, .. } => seq![FlushView::Reasoning(text)],
        PieceView::Block(raw) => match call_of(Cdata::Lenient, raw) {
            Some(call) => seq![FlushView::ToolCall(call)],
            None => Seq::empty(),
        },
    }
}

/// What becomes of the pieces, in their order.
pub open spec fn flushes(pieces: Seq<PieceView>) -> Seq<FlushView>
    decreases pieces.len(),
{
    if pieces.len() == 0 {
        Seq::empty()
    } else {
        flushes(pieces.drop_last()) + flush_of(pieces.last())
    }
}

/// What the replayer makes of `chunk`, and the state that it is in then. A
/// function block begins with `<function`, whatever follows.
pub open spec fn pushed(s: ScanView, chunk: Seq<char>) -> (Seq<FlushView>, ScanView) {
    let (pieces, end) = scan(true, fed(s, chunk));
    (flushes(pieces), end)
}

/// What the replayer makes of the text it holds when no more can come. A
/// function block that was cut short still makes its call where it can be read,
/// and is text where not.
pub open spec fn finished(s: ScanView) -> Seq<FlushView> {
    let p = s.pending;
    match s.mode {
        Mode::Function => match call_of(Cdata::Lenient, p) {
            Some(call) => seq![FlushView::ToolCall(call)],
            None => if p.len() > 0 {
                seq![FlushView::Text(p)]
            } else {
                Seq::empty()
            },
        },
        Mode::Think => if p.len() > 0 {
            seq![FlushView::Reasoning(p)]
        } else {
            Seq::empty()
        },
        Mode::Text => if p.len() > 0 {
            seq![FlushView::Text(p)]
        } else {
            Seq::empty()
        },
    }
}

/// The state of the replayer when it has finished: it is in no block, and
/// holds nothing but the function block that it has just made a call of.
pub open spec fn after_finish(s: ScanView) -> ScanView {
    if s.mode == Mode::Function && call_of(Cdata::Lenient, s.pending) is Some {
        ScanView { pending: s.pending, mode: Mode::Text, open: false }
    } else {
        start()
    }
}

/// Reads the call that a function block makes. The end of a CDATA section may
/// be cut short.
pub fn parse_function_block(raw: &str) -> (r: Option<(String, String)>)
    ensures
        match r {
            Some((name, arguments)) => call_of(Cdata::Lenient, raw@) == Some(
                CallView { name: name@, arguments: arguments@ },
            ) && reads_back(Cdata::Lenient, raw@, arguments@),
            None => call_of(Cdata::Lenient, raw@) is None,
        },
{
    read_call(Cdata::Lenient, raw)
}

/// Takes a streamed answer apart into text, reasoning and calls.
pub struct XmlReplayer {
    scanner: Scanner,
}

impl View for XmlReplayer {
    type V = ScanView;

    closed spec fn view(&self) -> ScanView {
        self.scanner@
    }
}

impl XmlReplayer {
    /// A replayer at the start of an answer.
    pub fn new() -> (r: XmlReplayer)
        ensures
            r@ == start(),
    {
        XmlReplayer { scanner: Scanner::new() }
    }

    /// Takes in the next chunk of the answer.
    pub fn push(&mut self, chunk: &str) -> (r: Vec<Flush>)
        ensures
            (flush_views(r@), final(self)@) == pushed(old(self)@, chunk@),
    {
        self.scanner.feed(chunk);
        let mut out: Vec<Flush> = Vec::new();
        self.drain(&mut out);
        proof {
            let made = flushes(scan(true, fed(old(self)@, chunk@)).0);
            assert(flush_views(out@) =~= made);
        }
        out
    }

    /// Ends the answer.
    pub fn finish(&mut self) -> (r: Vec<Flush>)
        ensures
            flush_views(r@) == finished(old(self)@),
            final(self)@ == after_finish(old(self)@),
    {
        let mut out: Vec<Flush> = Vec::new();
        let pending = self.scanner.pending();
        let mode = self.scanner.mode();
        match mode {
            Mode::Think => {
                self.scanner.clear();
                if !pending.as_str().is_empty() {
                    out.push(Flush::Reasoning(pending));
                }
            },
            Mode::Function => {
                match parse_function_block(pending.as_str()) {
                    Some((name, arguments)) => {
                        self.scanner.leave();
                        out.push(Flush::ToolCall { name, arguments });
                    },
                    None => {
                        self.scanner.clear();
                        if !pending.as_str().is_empty() {
                            out.push(Flush::Text(pending));
                        }
                    },
                }
            },
            Mode::Text => {
                self.scanner.clear();
                if !pending.as_str().is_empty() {
                    out.push(Flush::Text(pending));
                }
            },
        }
        assert(flush_views(out@) =~= finished(old(self)@));
        out
    }

    /// Decides on the text that the replayer holds as far as it can be decided.
    pub fn drain(&mut self, out: &mut Vec<Flush>)
        ensures
            final(self)@ == scan(true, old(self)@).1,
            flush_views(final(out)@) == flush_views(old(out)@) + flushes(
                scan(true, old(self)@).0,
            ),
    {
        let pieces = self.scanner.drain(true);
        let ghost all = piece_views(pieces@);
        assert(flush_views(out@) =~= flush_views(old(out)@) + flushes(all.take(0)));
        for piece in it: pieces
            invariant
                piece_views(it.seq()) == all,
                flush_views(out@) == flush_views(old(out)@) + flushes(all.take(it.index())),
        {
            let ghost i = it.index();
            let ghost seen = flush_views(out@);
            proof {
                assert(piece_views(it.seq())[i] == piece@);
                assert(all.take(i + 1).drop_last() =~= all.take(i));
                assert(all.take(i + 1).last() == piece@);
            }
            match piece {
                Piece::Text { text, joins: _ } => out.push(Flush::Text(text)),
                Piece::Reasoning { text, joins: _ } => out.push(Flush::Reasoning(text)),
                Piece::Block(raw) => {
                    if let Some((name, arguments)) = parse_function_block(raw.as_str()) {
                        out.push(Flush::ToolCall { name, arguments });
                    }
                },
            }
            proof {
                assert(flush_views(out@) =~= seen + flush_of(all[i]));
                assert(flush_views(out@) =~= flush_views(old(out)@) + flushes(all.take(i + 1)));
            }
        }
        assert(all.take(all.len() as int) =~= all);
    }
}

} // verus!
