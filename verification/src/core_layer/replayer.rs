//! The replayer: streamed answer text in, text, reasoning and calls out.

use vstd::prelude::*;

use crate::call::{call_of, read_call, reads_back, CallView};
use crate::markup::Cdata;
use crate::scanner::{
    fed, piece_views, scan, start, Mode, Piece, PieceView, ScanView, Scanner,
};
use crate::streaming::collect;

verus! {

/// What the replayer makes of a part of the answer.
#[derive(Debug)]
pub enum Flush {
    /// Assistant text.
    Delta(String),
    /// The inside of a think block.
    Reasoning(String),
    /// The call that a function block makes.
    ToolCall { name: String, arguments: String },
}

/// The mathematical content of a [`Flush`].
pub enum FlushView {
    Delta(Seq<char>),
    Reasoning(Seq<char>),
    ToolCall(CallView),
}

impl View for Flush {
    type V = FlushView;

    open spec fn view(&self) -> FlushView {
        match self {
            Flush::Delta(s) => FlushView::Delta(s@),
            Flush::Reasoning(s) => FlushView::Reasoning(s@),
            Flush::ToolCall { name, arguments } => FlushView::ToolCall(
                CallView { name: name@, arguments: arguments@ },
            ),
        }
    }
}

/// The contents of a list of flushes.
pub open spec fn flush_views(s: Seq<Flush>) -> Seq<FlushView> {
    s.map_values(|f: Flush| f@)
}

/// `out` with `text` behind the assistant text at its back; a new entry where
/// `joins` does not hold, or where there is none to go on with.
pub open spec fn with_delta(out: Seq<FlushView>, text: Seq<char>, joins: bool) -> Seq<FlushView> {
    if joins && out.len() > 0 && out.last() is Delta {
        out.drop_last().push(FlushView::Delta(out.last()->Delta_0 + text))
    } else {
        out.push(FlushView::Delta(text))
    }
}

/// `out` with `text` behind the reasoning at its back; a new entry where
/// `joins` does not hold, or where there is none to go on with.
pub open spec fn with_reasoning(
    out: Seq<FlushView>,
    text: Seq<char>,
    joins: bool,
) -> Seq<FlushView> {
    if joins && out.len() > 0 && out.last() is Reasoning {
        out.drop_last().push(FlushView::Reasoning(out.last()->Reasoning_0 + text))
    } else {
        out.push(FlushView::Reasoning(text))
    }
}

/// What a piece brings to `out`: a text or a reasoning that goes on is joined
/// to what is there of it, a function block that is broken is dropped.
pub open spec fn put(out: Seq<FlushView>, p: PieceView) -> Seq<FlushView> {
    match p {
        PieceView::Text { text, joins } => with_delta(out, text, joins),
        PieceView::Reasoning { text, joins } => with_reasoning(out, text, joins),
        PieceView::Block(raw) => match call_of(Cdata::Strict, raw) {
            Some(call) => out.push(FlushView::ToolCall(call)),
            None => out,
        },
    }
}

/// [`put`] as a function value.
pub open spec fn putting() -> spec_fn(Seq<FlushView>, PieceView) -> Seq<FlushView> {
    |out: Seq<FlushView>, p: PieceView| put(out, p)
}

/// What the pieces bring to `out`.
pub open spec fn put_all(out: Seq<FlushView>, pieces: Seq<PieceView>) -> Seq<FlushView> {
    collect(putting(), out, pieces)
}

/// What `chunk` brings to `out`, and the state that the replayer is in then. A
/// tag is decided on when its `>` has come.
pub open spec fn pushed(s: ScanView, out: Seq<FlushView>, chunk: Seq<char>) -> (
    Seq<FlushView>,
    ScanView,
) {
    let (pieces, end) = scan(false, fed(s, chunk));
    (put_all(out, pieces), end)
}

/// What the text that the replayer holds brings to `out` when no more can
/// come. A function block that was cut short still makes its call where it can
/// be read, and is text where not.
pub open spec fn finished(s: ScanView, out: Seq<FlushView>) -> Seq<FlushView> {
    let p = s.pending;
    match s.mode {
        Mode::Function => match call_of(Cdata::Strict, p) {
            Some(call) => out.push(FlushView::ToolCall(call)),
            None => out.push(FlushView::Delta(p)),
        },
        Mode::Think => with_reasoning(out, p, s.open),
        Mode::Text => if p.len() > 0 {
            with_delta(out, p, s.open)
        } else {
            out
        },
    }
}

/// The state of the replayer when it has finished: it is in no block, and
/// holds nothing but the function block that it has just made a call of.
pub open spec fn after_finish(s: ScanView) -> ScanView {
    if s.mode == Mode::Function && call_of(Cdata::Strict, s.pending) is Some {
        ScanView { pending: s.pending, mode: Mode::Text, open: false }
    } else {
        start()
    }
}

/// Reads the call that a function block makes. A CDATA section ends with
/// `]]>`.
pub fn parse_function_block(raw: &str) -> (r: Option<(String, String)>)
    ensures
        match r {
            Some((name, arguments)) => call_of(Cdata::Strict, raw@) == Some(
                CallView { name: name@, arguments: arguments@ },
            ) && reads_back(Cdata::Strict, raw@, arguments@),
            None => call_of(Cdata::Strict, raw@) is None,
        },
{
    read_call(Cdata::Strict, raw)
}

/// The text `a` with `b` behind it.
fn joined(a: String, b: &str) -> (r: String)
    ensures
        r@ == a@ + b@,
{
    let mut r = a;
    r.append(b);
    r
}

fn push_delta(out: &mut Vec<Flush>, text: String, joins: bool)
    ensures
        flush_views(final(out)@) == with_delta(flush_views(old(out)@), text@, joins),
{
    let ghost before = out@;
    if joins {
        match out.pop() {
            Some(Flush::Delta(s)) => {
                out.push(Flush::Delta(joined(s, text.as_str())));
                proof {
                    assert(before.last()@ is Delta);
                    assert(flush_views(out@) =~= with_delta(flush_views(before), text@, joins));
                }
                return ;
            },
            Some(last) => {
                out.push(last);
                assert(out@ =~= before);
            },
            None => {},
        }
    }
    assert(out@ =~= before);
    out.push(Flush::Delta(text));
    proof {
        if before.len() > 0 {
            assert(flush_views(before).last() == before.last()@);
        }
        assert(flush_views(out@) =~= with_delta(flush_views(before), text@, joins));
    }
}

fn push_reasoning(out: &mut Vec<Flush>, text: String, joins: bool)
    ensures
        flush_views(final(out)@) == with_reasoning(flush_views(old(out)@), text@, joins),
{
    let ghost before = out@;
    if joins {
        match out.pop() {
            Some(Flush::Reasoning(s)) => {
                out.push(Flush::Reasoning(joined(s, text.as_str())));
                proof {
                    assert(before.last()@ is Reasoning);
                    assert(flush_views(out@) =~= with_reasoning(flush_views(before), text@, joins));
                }
                return ;
            },
            Some(last) => {
                out.push(last);
                assert(out@ =~= before);
            },
            None => {},
        }
    }
    assert(out@ =~= before);
    out.push(Flush::Reasoning(text));
    proof {
        if before.len() > 0 {
            assert(flush_views(before).last() == before.last()@);
        }
        assert(flush_views(out@) =~= with_reasoning(flush_views(before), text@, joins));
    }
}

/// Takes a streamed answer apart into text, reasoning and calls.
///
/// A text or a think block that comes in several chunks is joined up in the
/// list that it is put to.
pub struct XmlReplayer {
    scanner: Scanner,
    tool_call_counter: u32,
}

/// The state of an [`XmlReplayer`].
pub struct ReplayerView {
    pub scan: ScanView,
    pub counter: u32,
}

impl View for XmlReplayer {
    type V = ReplayerView;

    closed spec fn view(&self) -> ReplayerView {
        ReplayerView { scan: self.scanner@, counter: self.tool_call_counter }
    }
}

impl XmlReplayer {
    /// A replayer at the start of an answer.
    pub fn new() -> (r: XmlReplayer)
        ensures
            r@ == (ReplayerView { scan: start(), counter: 0 }),
    {
        XmlReplayer { scanner: Scanner::new(), tool_call_counter: 0 }
    }

    /// Takes in the next chunk of the answer.
    pub fn push(&mut self, chunk: &str, out: &mut Vec<Flush>)
        ensures
            (flush_views(final(out)@), final(self)@.scan) == pushed(
                old(self)@.scan,
                flush_views(old(out)@),
                chunk@,
            ),
            final(self)@.counter == old(self)@.counter,
    {
        self.scanner.feed(chunk);
        self.drain(out);
    }

    /// Ends the answer.
    pub fn finish(&mut self, out: &mut Vec<Flush>)
        ensures
            flush_views(final(out)@) == finished(old(self)@.scan, flush_views(old(out)@)),
            final(self)@.scan == after_finish(old(self)@.scan),
            final(self)@.counter == old(self)@.counter,
    {
        let pending = self.scanner.pending();
        let mode = self.scanner.mode();
        let open = self.scanner.open();
        match mode {
            Mode::Think => {
                self.scanner.clear();
                push_reasoning(out, pending, open);
            },
            Mode::Function => {
                match parse_function_block(pending.as_str()) {
                    Some((name, arguments)) => {
                        self.scanner.leave();
                        out.push(Flush::ToolCall { name, arguments });
                    },
                    None => {
                        self.scanner.clear();
                        out.push(Flush::Delta(pending));
                    },
                }
                assert(flush_views(out@) =~= finished(old(self)@.scan, flush_views(old(out)@)));
            },
            Mode::Text => {
                self.scanner.clear();
                if !pending.as_str().is_empty() {
                    push_delta(out, pending, open);
                }
            },
        }
    }

    /// Decides on the text that the replayer holds as far as it can be decided.
    pub fn drain(&mut self, out: &mut Vec<Flush>)
        ensures
            final(self)@.scan == scan(false, old(self)@.scan).1,
            final(self)@.counter == old(self)@.counter,
            flush_views(final(out)@) == put_all(
                flush_views(old(out)@),
                scan(false, old(self)@.scan).0,
            ),
    {
        let pieces = self.scanner.drain(false);
        let ghost all = piece_views(pieces@);
        let ghost first = flush_views(out@);
        assert(all.take(0) =~= Seq::<PieceView>::empty());
        for piece in it: pieces
            invariant
                piece_views(it.seq()) == all,
                flush_views(out@) == put_all(first, all.take(it.index())),
        {
            let ghost i = it.index();
            let ghost seen = flush_views(out@);
            proof {
                assert(piece_views(it.seq())[i] == piece@);
                assert(all.take(i + 1).drop_last() =~= all.take(i));
                assert(all.take(i + 1).last() == piece@);
            }
            match piece {
                Piece::Text { text, joins } => push_delta(out, text, joins),
                Piece::Reasoning { text, joins } => push_reasoning(out, text, joins),
                Piece::Block(raw) => {
                    if let Some((name, arguments)) = parse_function_block(raw.as_str()) {
                        out.push(Flush::ToolCall { name, arguments });
                    }
                },
            }
            assert(flush_views(out@) =~= put(seen, all[i]));
        }
        assert(all.take(all.len() as int) =~= all);
    }

    /// The number of the next call, which is counted.
    pub fn count_call(&mut self) -> (r: u32)
        ensures
            r == old(self)@.counter.wrapping_add(1),
            final(self)@ == (ReplayerView { counter: r, ..old(self)@ }),
    {
        self.tool_call_counter = self.tool_call_counter.wrapping_add(1);
        self.tool_call_counter
    }
}

} // verus!
