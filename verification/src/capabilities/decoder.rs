//! The decoder: the bytes of an answer's body in, events out.
//!
//! The body is a sequence of lines, each of them one JSON object. The answer
//! text of each line goes through the replayer.

use vstd::prelude::*;
use vstd::slice::slice_subrange;

use crate::bytes::{
    append_bytes, bytes_from, find_line_end, lemma_line_end, line_end, lossy, lossy_text,
};
use crate::call::CallView;
use crate::capabilities::chat_line::{call_views, line_of, read_line, ChatLine, LineView, NativeCall};
use crate::capabilities::events::{
    event_views, EventView, ProviderError, StreamEvent, TokenUsage, ToolCall,
};
use crate::capabilities::replayer::{
    after_finish, finished, flush_views, pushed, Flush, FlushView, XmlReplayer,
};
use crate::decimal::{decimal, decimal_text};
use crate::json::{json_of, parse};
use crate::scanner::{start, ScanView};
use crate::text::{chars_of, text_of, trim, trimmed};

verus! {

/// The identifier of the call with the number `n`.
pub open spec fn call_id(n: u32) -> Seq<char> {
    "minicpm_call_"@ + decimal(n as nat)
}

/// The number after `n`; it starts anew behind the largest.
pub open spec fn next_number(n: u32) -> u32 {
    if n == u32::MAX {
        0
    } else {
        (n + 1) as u32
    }
}

/// The event for a flush, where the next call has the number `n`.
pub open spec fn event_of(n: u32, f: FlushView) -> EventView {
    match f {
        FlushView::Text(s) => EventView::TextDelta(s),
        FlushView::Reasoning(s) => EventView::Reasoning(s),
        FlushView::ToolCall(c) => EventView::ToolCall {
            id: call_id(n),
            name: c.name,
            arguments: c.arguments,
        },
    }
}

/// The number of the next call behind a flush.
pub open spec fn number_after(n: u32, f: FlushView) -> u32 {
    if f is ToolCall {
        next_number(n)
    } else {
        n
    }
}

/// The events for a list of flushes, where the next call has the number `n`,
/// and the number of the next call behind them.
pub open spec fn emitted(n: u32, flushes: Seq<FlushView>) -> (Seq<EventView>, u32)
    decreases flushes.len(),
{
    if flushes.len() == 0 {
        (Seq::empty(), n)
    } else {
        let (events, m) = emitted(n, flushes.drop_last());
        (events.push(event_of(m, flushes.last())), number_after(m, flushes.last()))
    }
}

/// The state of a decoder.
pub struct DecoderView {
    /// The bytes of a line that is not complete yet.
    pub buf: Seq<u8>,
    /// The state of the replayer.
    pub scan: ScanView,
    /// The number of the next call.
    pub tool_index: u32,
    /// Whether the answer ended because it had become too long.
    pub truncated: bool,
    /// Whether the stream of events is complete.
    pub done: bool,
}

/// The number of tokens, cut to 32 bits.
pub open spec fn tokens(n: u64) -> u32 {
    (n % 0x1_0000_0000) as u32
}

/// The event for the tokens that the answer took; none where no count is known.
pub open spec fn usage_of(l: LineView) -> Seq<EventView> {
    if tokens(l.prompt) > 0 || tokens(l.completion) > 0 {
        seq![
            EventView::Usage(
                TokenUsage {
                    prompt: tokens(l.prompt),
                    completion: tokens(l.completion),
                    cached: 0,
                },
            ),
        ]
    } else {
        Seq::empty()
    }
}

/// What the decoder makes of the message of a line: the answer text goes
/// through the replayer, then come the reasoning and the calls that the server
/// has taken out of it.
pub open spec fn message_step(
    d: DecoderView,
    content: Seq<char>,
    thinking: Seq<char>,
    calls: Seq<CallView>,
) -> (Seq<EventView>, DecoderView) {
    let (flushes, scan) = if content.len() > 0 {
        pushed(d.scan, content)
    } else {
        (Seq::empty(), d.scan)
    };
    let (replayed, n) = emitted(d.tool_index, flushes);
    let reasoning = if thinking.len() > 0 {
        seq![EventView::Reasoning(thinking)]
    } else {
        Seq::empty()
    };
    let (native, m) = emitted(n, native_flushes(calls));
    (replayed + reasoning + native, DecoderView { scan, tool_index: m, ..d })
}

/// The flushes for calls that the server has taken out of the answer.
pub open spec fn native_flushes(calls: Seq<CallView>) -> Seq<FlushView> {
    calls.map_values(|c: CallView| FlushView::ToolCall(c))
}

/// What the decoder makes of the end of the answer: what the replayer still
/// holds, the tokens, and the end of the stream.
pub open spec fn done_step(d: DecoderView, l: LineView) -> (Seq<EventView>, DecoderView) {
    let truncated = d.truncated || l.cut_short;
    let (flushed, n) = emitted(d.tool_index, finished(d.scan));
    (
        (flushed + usage_of(l)).push(EventView::Done { truncated }),
        DecoderView {
            scan: after_finish(d.scan),
            tool_index: n,
            truncated,
            done: true,
            ..d
        },
    )
}

/// What the decoder makes of a line. An error ends the stream.
pub open spec fn line_step(d: DecoderView, l: LineView) -> (Seq<EventView>, DecoderView) {
    match l.error {
        Some(e) => (
            seq![EventView::Error { retryable: false, message: "provider error: "@ + e }],
            DecoderView { done: true, ..d },
        ),
        None => {
            let (events, mid) = message_step(d, l.content, l.thinking, l.calls);
            if l.done {
                let (last, end) = done_step(mid, l);
                (events + last, end)
            } else {
                (events, mid)
            }
        },
    }
}

/// What the decoder makes of the text of a line. What is not JSON is skipped.
#[verifier::opaque]
pub open spec fn text_line_step(d: DecoderView, line: Seq<char>) -> (Seq<EventView>, DecoderView) {
    match json_of(line) {
        Some(j) => line_step(d, line_of(j)),
        None => (Seq::empty(), d),
    }
}

/// What the decoder makes of the bytes of a line. A blank line is skipped.
pub open spec fn raw_line_step(d: DecoderView, raw: Seq<u8>) -> (Seq<EventView>, DecoderView) {
    let line = trim(lossy_text(raw));
    if line.len() > 0 {
        text_line_step(d, line)
    } else {
        (Seq::empty(), d)
    }
}

/// What the decoder makes of the lines that it holds, up to the one that ends
/// the stream.
pub open spec fn drained(d: DecoderView) -> (Seq<EventView>, DecoderView)
    decreases d.buf.len(),
{
    proof {
        lemma_line_end(d.buf);
        reveal(text_line_step);
    }
    match line_end(d.buf) {
        None => (Seq::empty(), d),
        Some(i) => {
            let rest = DecoderView { buf: d.buf.skip(i + 1), ..d };
            let (events, mid) = raw_line_step(rest, d.buf.take(i + 1));
            if mid.done {
                (events, mid)
            } else {
                let (more, end) = drained(mid);
                (events + more, end)
            }
        },
    }
}

/// `d` with `chunk` behind the bytes that it holds.
pub open spec fn with_bytes(d: DecoderView, chunk: Seq<u8>) -> DecoderView {
    DecoderView { buf: d.buf + chunk, ..d }
}

/// What the decoder makes of the end of the body: what the replayer still
/// holds, and the end of the stream where it has not come yet.
pub open spec fn ended(d: DecoderView) -> (Seq<EventView>, DecoderView) {
    let (flushed, n) = emitted(d.tool_index, finished(d.scan));
    (
        if d.done {
            flushed
        } else {
            flushed.push(EventView::Done { truncated: d.truncated })
        },
        DecoderView { scan: after_finish(d.scan), tool_index: n, done: true, ..d },
    )
}

/// The state of a decoder at the start of a body.
pub open spec fn fresh() -> DecoderView {
    DecoderView {
        buf: Seq::empty(),
        scan: start(),
        tool_index: 0,
        truncated: false,
        done: false,
    }
}

/// Turns the body of an answer into events.
pub struct MinicpmDecoder {
    buf: Vec<u8>,
    xml: XmlReplayer,
    tool_index: u32,
    truncated: bool,
    done: bool,
}

impl View for MinicpmDecoder {
    type V = DecoderView;

    closed spec fn view(&self) -> DecoderView {
        DecoderView {
            buf: self.buf@,
            scan: self.xml@,
            tool_index: self.tool_index,
            truncated: self.truncated,
            done: self.done,
        }
    }
}

/// Writes the identifier of the call with the number `n`.
fn call_id_text(n: u32) -> (r: String)
    ensures
        r@ == call_id(n),
{
    let mut id = "minicpm_call_".to_owned();
    id.append(decimal_text(n as u64).as_str());
    id
}

impl MinicpmDecoder {
    /// A decoder at the start of a body.
    pub fn new() -> (r: MinicpmDecoder)
        ensures
            r@ == fresh(),
    {
        let r = MinicpmDecoder {
            buf: Vec::new(),
            xml: XmlReplayer::new(),
            tool_index: 0,
            truncated: false,
            done: false,
        };
        assert(r.buf@ =~= Seq::<u8>::empty());
        r
    }

    /// Takes in the next bytes of the body.
    pub fn feed(&mut self, chunk: &[u8]) -> (r: Vec<StreamEvent>)
        ensures
            (event_views(r@), final(self)@) == drained(with_bytes(old(self)@, chunk@)),
    {
        append_bytes(&mut self.buf, chunk);
        let ghost first = self@;
        assert(first == with_bytes(old(self)@, chunk@));
        let mut out: Vec<StreamEvent> = Vec::new();
        assert(event_views(out@) =~= Seq::<EventView>::empty());
        assert(event_views(out@) + drained(first).0 =~= drained(first).0);
        loop
            invariant
                first == with_bytes(old(self)@, chunk@),
                ({
                    let (more, end) = drained(self@);
                    drained(first) == (event_views(out@) + more, end)
                }),
            decreases self@.buf.len(),
        {
            let ghost seen = event_views(out@);
            let ghost before = self@;
            let total = self.buf.len();
            match find_line_end(self.buf.as_slice()) {
                None => {
                    assert(seen + Seq::<EventView>::empty() =~= seen);
                    return out;
                },
                Some(i) => {
                    assert(i < total);
                    self.take_line(i, &mut out);
                    let ghost made = raw_line_step(
                        DecoderView { buf: before.buf.skip(i + 1), ..before },
                        before.buf.take(i + 1),
                    ).0;
                    if self.done {
                        return out;
                    }
                    assert(seen + (made + drained(self@).0) =~= (seen + made) + drained(self@).0);
                },
            }
        }
    }

    /// Takes in the line that ends at `i`.
    fn take_line(&mut self, i: usize, out: &mut Vec<StreamEvent>)
        requires
            i < old(self)@.buf.len() <= usize::MAX,
        ensures
            ({
                let d = old(self)@;
                let (events, end) = raw_line_step(
                    DecoderView { buf: d.buf.skip(i + 1), ..d },
                    d.buf.take(i + 1),
                );
                &&& event_views(final(out)@) == event_views(old(out)@) + events
                &&& final(self)@ == end
            }),
            final(self)@.buf == old(self)@.buf.skip(i + 1),
    {
        let line = lossy(slice_subrange(self.buf.as_slice(), 0, i + 1));
        let rest = bytes_from(&self.buf, i + 1);
        assert(self.buf@.subrange(0, i + 1) =~= self.buf@.take(i + 1));
        self.buf = rest;
        let line = chars_of(line.as_str());
        let line = trimmed(line.as_slice());
        assert(event_views(out@) + Seq::<EventView>::empty() =~= event_views(out@));
        proof {
            reveal(text_line_step);
        }
        if !line.is_empty() {
            self.process_line(text_of(line).as_str(), out);
        }
    }

    /// Ends the body.
    pub fn finish(&mut self) -> (r: Vec<StreamEvent>)
        ensures
            (event_views(r@), final(self)@) == ended(old(self)@),
    {
        let mut out: Vec<StreamEvent> = Vec::new();
        let flushes = self.xml.finish();
        self.emit_all(flushes, &mut out);
        assert(event_views(out@) =~= emitted(old(self)@.tool_index, finished(old(self)@.scan)).0);
        if !self.done {
            out.push(StreamEvent::Done { truncated: self.truncated });
            self.done = true;
        }
        assert(event_views(out@) =~= ended(old(self)@).0);
        out
    }

    /// Takes in the text of a line.
    pub fn process_line(&mut self, line: &str, out: &mut Vec<StreamEvent>)
        ensures
            ({
                let (events, end) = text_line_step(old(self)@, line@);
                &&& event_views(final(out)@) == event_views(old(out)@) + events
                &&& final(self)@ == end
            }),
    {
        proof {
            reveal(text_line_step);
        }
        match parse(line) {
            Ok(v) => self.process_chat_line(read_line(&v), out),
            Err(_) => {
                assert(event_views(out@) =~= event_views(out@) + Seq::<EventView>::empty());
            },
        }
    }

    /// Takes in a line that has been read.
    pub fn process_chat_line(&mut self, line: ChatLine, out: &mut Vec<StreamEvent>)
        ensures
            ({
                let (events, end) = line_step(old(self)@, line@);
                &&& event_views(final(out)@) == event_views(old(out)@) + events
                &&& final(self)@ == end
            }),
    {
        let ghost l = line@;
        let ghost d = self@;
        if let Some(e) = line.error {
            let mut message = "provider error: ".to_owned();
            message.append(e.as_str());
            out.push(StreamEvent::Error(ProviderError { retryable: false, message }));
            self.done = true;
            assert(event_views(out@) =~= event_views(old(out)@) + line_step(d, l).0);
            return ;
        }
        self.take_message(line.content, line.thinking, line.calls, out);
        if line.done {
            let ghost mid = self@;
            let ghost seen = event_views(out@);
            if line.cut_short {
                self.truncated = true;
            }
            let flushes = self.xml.finish();
            self.emit_all(flushes, out);
            let ghost flushed = emitted(mid.tool_index, finished(mid.scan)).0;
            assert(event_views(out@) =~= seen + flushed);
            let prompt = low_bits(line.prompt);
            let completion = low_bits(line.completion);
            if prompt > 0 || completion > 0 {
                out.push(StreamEvent::Usage(TokenUsage { prompt, completion, cached: 0 }));
            }
            proof {
                assert(prompt == tokens(l.prompt));
                assert(completion == tokens(l.completion));
                if prompt > 0 || completion > 0 {
                    assert(out@.last()@ == usage_of(l)[0]);
                    assert(event_views(out@) =~= (seen + flushed).push(usage_of(l)[0]));
                }
                assert(event_views(out@) =~= seen + (flushed + usage_of(l)));
            }
            let truncated = self.truncated;
            out.push(StreamEvent::Done { truncated });
            self.done = true;
            assert(truncated == (mid.truncated || l.cut_short));
            assert(event_views(out@) =~= (seen + (flushed + usage_of(l))).push(
                EventView::Done { truncated },
            ));
            assert(event_views(out@) =~= seen + done_step(mid, l).0);
            assert(event_views(out@) =~= event_views(old(out)@) + line_step(d, l).0);
        }
    }

    /// Takes in the message of a line.
    fn take_message(
        &mut self,
        content: String,
        thinking: String,
        calls: Vec<NativeCall>,
        out: &mut Vec<StreamEvent>,
    )
        ensures
            ({
                let (events, end) = message_step(
                    old(self)@,
                    content@,
                    thinking@,
                    call_views(calls@),
                );
                &&& event_views(final(out)@) == event_views(old(out)@) + events
                &&& final(self)@ == end
            }),
    {
        let ghost d = self@;
        let ghost all = call_views(calls@);
        let ghost first = event_views(out@);
        let ghost text = content@;
        let ghost thought = thinking@;
        let ghost flushed = if text.len() > 0 {
            pushed(d.scan, text).0
        } else {
            Seq::empty()
        };
        let ghost replayed = emitted(d.tool_index, flushed).0;
        if !content.as_str().is_empty() {
            let flushes = self.xml.push(content.as_str());
            self.emit_all(flushes, out);
        }
        assert(event_views(out@) =~= first + replayed);
        let ghost reasoning = if thought.len() > 0 {
            seq![EventView::Reasoning(thought)]
        } else {
            Seq::empty()
        };
        if !thinking.as_str().is_empty() {
            out.push(StreamEvent::Reasoning(thinking));
        }
        assert(event_views(out@) =~= first + replayed + reasoning);
        let mut flushes: Vec<Flush> = Vec::new();
        for call in it: calls
            invariant
                call_views(it.seq()) == all,
                flushes@.len() == it.index(),
                forall|k: int|
                    0 <= k < it.index() ==> (#[trigger] flushes@[k])@ == FlushView::ToolCall(
                        all[k],
                    ),
        {
            assert(call_views(it.seq())[it.index()] == call@);
            flushes.push(Flush::ToolCall { name: call.name, arguments: call.arguments });
        }
        assert(flush_views(flushes@) =~= native_flushes(all));
        let ghost native = emitted(self@.tool_index, native_flushes(all)).0;
        self.emit_all(flushes, out);
        assert(event_views(out@) =~= first + (replayed + reasoning + native));
    }

    /// Emits the events for a list of flushes.
    fn emit_all(&mut self, flushes: Vec<Flush>, out: &mut Vec<StreamEvent>)
        ensures
            ({
                let (events, n) = emitted(old(self)@.tool_index, flush_views(flushes@));
                &&& event_views(final(out)@) == event_views(old(out)@) + events
                &&& final(self)@ == (DecoderView { tool_index: n, ..old(self)@ })
            }),
    {
        let ghost all = flush_views(flushes@);
        let ghost first = event_views(out@);
        let ghost d = self@;
        assert(first + emitted(d.tool_index, all.take(0)).0 =~= first);
        for flush in it: flushes
            invariant
                flush_views(it.seq()) == all,
                ({
                    let (events, n) = emitted(d.tool_index, all.take(it.index()));
                    &&& event_views(out@) == first + events
                    &&& self@ == (DecoderView { tool_index: n, ..d })
                }),
        {
            let ghost i = it.index();
            proof {
                assert(flush_views(it.seq())[i] == flush@);
                assert(all.take(i + 1).drop_last() =~= all.take(i));
                assert(all.take(i + 1).last() == flush@);
            }
            self.emit_flush(flush, out);
            assert(event_views(out@) =~= first + emitted(d.tool_index, all.take(i + 1)).0);
        }
        assert(all.take(all.len() as int) =~= all);
    }

    /// Emits the event for a flush.
    pub fn emit_flush(&mut self, f: Flush, out: &mut Vec<StreamEvent>)
        ensures
            event_views(final(out)@) == event_views(old(out)@).push(
                event_of(old(self)@.tool_index, f@),
            ),
            final(self)@ == (DecoderView {
                tool_index: number_after(old(self)@.tool_index, f@),
                ..old(self)@
            }),
    {
        let ghost view = f@;
        match f {
            Flush::Text(s) => out.push(StreamEvent::TextDelta(s)),
            Flush::Reasoning(s) => out.push(StreamEvent::Reasoning(s)),
            Flush::ToolCall { name, arguments } => {
                let id = call_id_text(self.tool_index);
                self.tool_index = self.tool_index.wrapping_add(1);
                out.push(StreamEvent::ToolCall(ToolCall { id, name, arguments }));
            },
        }
        assert(event_views(out@) =~= event_views(old(out)@).push(
            event_of(old(self)@.tool_index, view),
        ));
    }
}

/// The number of tokens, cut to 32 bits.
fn low_bits(n: u64) -> (r: u32)
    ensures
        r == tokens(n),
{
    (n % 0x1_0000_0000) as u32
}

} // verus!
