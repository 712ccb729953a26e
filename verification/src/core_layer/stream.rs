//! From the bytes of an answer's body to the events of a conversation.
//!
//! The body is a sequence of lines, each of them one JSON object. The text of a
//! line is handed out, and comes back as a [`OllamaChunk`] when it has been
//! read.

use vstd::prelude::*;
use vstd::slice::slice_subrange;
use vstd::utf8::decode_utf8;

use crate::bytes::{append_bytes, bytes_from, lemma_valid_len, lossy, utf8_front, valid_len};
use crate::core_layer::events::{event_views, EventView, StreamEvent, TokenUsage, ToolCall};
use crate::core_layer::replayer::{
    after_finish, finished, flush_views, pushed, Flush, FlushView, ReplayerView, XmlReplayer,
};
use crate::decimal::{decimal, decimal_text};
use crate::scanner::start;
use crate::text::{append_chars, chars_of, find, find_in, lemma_find, text_of, trim, trimmed};

verus! {

/// The answer text of a line.
#[derive(Debug)]
pub struct OllamaMessage {
    pub content: String,
}

/// A line of the body.
#[derive(Debug)]
pub struct OllamaChunk {
    pub message: Option<OllamaMessage>,
    pub done: bool,
    pub prompt_eval_count: usize,
    pub eval_count: usize,
}

/// The mathematical content of an [`OllamaChunk`].
pub struct ChunkView {
    pub message: Option<Seq<char>>,
    pub done: bool,
    pub prompt_eval_count: usize,
    pub eval_count: usize,
}

impl View for OllamaChunk {
    type V = ChunkView;

    open spec fn view(&self) -> ChunkView {
        ChunkView {
            message: match self.message {
                Some(m) => Some(m.content@),
                None => None,
            },
            done: self.done,
            prompt_eval_count: self.prompt_eval_count,
            eval_count: self.eval_count,
        }
    }
}

/// The identifier of the call with the number `n`.
pub open spec fn call_id(n: u32) -> Seq<char> {
    "call_"@ + decimal(n as nat)
}

/// The number after `n`; it starts anew behind the largest.
pub open spec fn next_number(n: u32) -> u32 {
    if n == u32::MAX {
        0
    } else {
        (n + 1) as u32
    }
}

/// The events for a flush, where `n` calls have come before it. A call makes
/// three.
pub open spec fn events_of(n: u32, f: FlushView) -> Seq<EventView> {
    match f {
        FlushView::Delta(s) => seq![EventView::Delta(s)],
        FlushView::Reasoning(s) => seq![EventView::Reasoning(s)],
        FlushView::ToolCall(c) => {
            let id = call_id(next_number(n));
            seq![
                EventView::ToolCallStart { id, name: c.name },
                EventView::ToolCallDelta(c.arguments),
                EventView::ToolCallDone { id, name: c.name, arguments: c.arguments },
            ]
        },
    }
}

/// The number of calls that have come, behind a flush.
pub open spec fn count_after(n: u32, f: FlushView) -> u32 {
    if f is ToolCall {
        next_number(n)
    } else {
        n
    }
}

/// The events for a list of flushes, where `n` calls have come before them, and
/// the number of calls behind them.
pub open spec fn sent(n: u32, flushes: Seq<FlushView>) -> (Seq<EventView>, u32)
    decreases flushes.len(),
{
    if flushes.len() == 0 {
        (Seq::empty(), n)
    } else {
        let (events, m) = sent(n, flushes.drop_last());
        (events + events_of(m, flushes.last()), count_after(m, flushes.last()))
    }
}

/// The event for the tokens that the answer took; none where no count is known.
pub open spec fn usage_of(c: ChunkView) -> Seq<EventView> {
    if c.eval_count > 0 || c.prompt_eval_count > 0 {
        seq![
            EventView::Usage(
                TokenUsage {
                    prompt_tokens: c.prompt_eval_count,
                    completion_tokens: c.eval_count,
                    cached_tokens: 0,
                },
            ),
        ]
    } else {
        Seq::empty()
    }
}

/// What the replayer still holds, when no more can come.
pub open spec fn rest_step(r: ReplayerView) -> (Seq<EventView>, ReplayerView) {
    let (events, counter) = sent(r.counter, finished(r.scan, Seq::empty()));
    (events, ReplayerView { scan: after_finish(r.scan), counter })
}

/// What comes of the answer text of a line.
pub open spec fn content_step(r: ReplayerView, content: Seq<char>) -> (
    Seq<EventView>,
    ReplayerView,
) {
    let (flushes, scan) = pushed(r.scan, Seq::empty(), content);
    let (events, counter) = sent(r.counter, flushes);
    (events, ReplayerView { scan, counter })
}

/// What comes of a line, and whether the stream of events is complete then. A
/// line with an empty message is skipped as a whole.
pub open spec fn chunk_step(r: ReplayerView, c: ChunkView) -> (Seq<EventView>, ReplayerView, bool) {
    let (events, mid) = match c.message {
        Some(content) => content_step(r, content),
        None => (Seq::empty(), r),
    };
    if c.message == Some(Seq::<char>::empty()) {
        (Seq::empty(), r, false)
    } else if c.done {
        let (rest, end) = rest_step(mid);
        (
            events + (rest + usage_of(c)).push(EventView::Done { truncated: false }),
            end,
            true,
        )
    } else {
        (events, mid, false)
    }
}

/// What comes of the end of the body.
pub open spec fn end_step(r: ReplayerView) -> (Seq<EventView>, ReplayerView) {
    let (events, end) = rest_step(r);
    (events.push(EventView::Done { truncated: false }), end)
}

/// The first line of `text` that is not blank, without the white space around
/// it, and what follows it; where there is none, the last line, which is not
/// complete yet.
pub open spec fn next_line_of(text: Seq<char>) -> (Option<Seq<char>>, Seq<char>)
    decreases text.len(),
{
    proof {
        reveal_strlit("\n");
        lemma_find(text, "\n"@);
    }
    match find(text, "\n"@) {
        Some(i) => {
            let line = trim(text.take(i));
            let rest = text.skip(i + 1);
            if line.len() > 0 {
                (Some(line), rest)
            } else {
                next_line_of(rest)
            }
        },
        None => (None, text),
    }
}

/// The state of a [`ChatStream`].
pub struct StreamView {
    /// Bytes that are not UTF-8 so far.
    pub bytes: Seq<u8>,
    /// Text whose lines have not been handed out yet.
    pub text: Seq<char>,
    /// The state of the replayer.
    pub replayer: ReplayerView,
}

/// `s` with `chunk` taken in: as much as is UTF-8 goes to the text, the rest
/// waits for more.
pub open spec fn received(s: StreamView, chunk: Seq<u8>) -> StreamView {
    let all = s.bytes + chunk;
    let n = valid_len(all) as int;
    StreamView { bytes: all.skip(n), text: s.text + decode_utf8(all.take(n)), ..s }
}

/// Turns the body of an answer into events.
pub struct ChatStream {
    byte_buffer: Vec<u8>,
    buffer: Vec<char>,
    replayer: XmlReplayer,
}

impl View for ChatStream {
    type V = StreamView;

    closed spec fn view(&self) -> StreamView {
        StreamView { bytes: self.byte_buffer@, text: self.buffer@, replayer: self.replayer@ }
    }
}

/// What comes of a line.
#[derive(Debug)]
pub struct ChunkOutcome {
    pub events: Vec<StreamEvent>,
    /// Whether the stream of events is complete.
    pub complete: bool,
}

/// The event for a request that could not be sent.
pub fn connection_failed(reason: &str) -> (r: StreamEvent)
    ensures
        r@ == EventView::Error("Connection failed: "@ + reason@),
{
    let mut message = "Connection failed: ".to_owned();
    message.append(reason);
    StreamEvent::Error(message)
}

/// The event for a request that the server has refused.
pub fn request_refused(status: &str, reason: &str) -> (r: StreamEvent)
    ensures
        r@ == EventView::Error("MiniCPM error ("@ + status@ + "): "@ + reason@),
{
    let mut message = "MiniCPM error (".to_owned();
    message.append(status);
    message.append("): ");
    message.append(reason);
    StreamEvent::Error(message)
}

impl ChatStream {
    /// A stream at the start of a body.
    pub fn new() -> (r: ChatStream)
        ensures
            r@ == (StreamView {
                bytes: Seq::empty(),
                text: Seq::empty(),
                replayer: ReplayerView { scan: start(), counter: 0 },
            }),
    {
        let r = ChatStream {
            byte_buffer: Vec::new(),
            buffer: Vec::new(),
            replayer: XmlReplayer::new(),
        };
        assert(r.byte_buffer@ =~= Seq::<u8>::empty());
        assert(r.buffer@ =~= Seq::<char>::empty());
        r
    }

    /// Takes in the next bytes of the body.
    pub fn receive(&mut self, chunk: &[u8])
        ensures
            final(self)@ == received(old(self)@, chunk@),
    {
        append_bytes(&mut self.byte_buffer, chunk);
        let ghost all = self.byte_buffer@;
        proof {
            lemma_valid_len(all);
        }
        match utf8_front(self.byte_buffer.as_slice()) {
            Ok(s) => {
                let text = chars_of(s);
                append_chars(&mut self.buffer, text.as_slice());
                self.byte_buffer = Vec::new();
                assert(all.take(all.len() as int) =~= all);
                assert(all.skip(all.len() as int) =~= Seq::<u8>::empty());
                assert(self.byte_buffer@ =~= Seq::<u8>::empty());
            },
            Err(n) => {
                let front = slice_subrange(self.byte_buffer.as_slice(), 0, n);
                assert(front@ =~= all.take(n as int));
                let text = chars_of(lossy(front).as_str());
                append_chars(&mut self.buffer, text.as_slice());
                self.byte_buffer = bytes_from(&self.byte_buffer, n);
            },
        }
    }

    /// Hands out the next line that is not blank.
    pub fn next_line(&mut self) -> (r: Option<String>)
        ensures
            ({
                let (line, rest) = next_line_of(old(self)@.text);
                &&& final(self)@ == (StreamView { text: rest, ..old(self)@ })
                &&& match r {
                    Some(s) => line == Some(s@),
                    None => line is None,
                }
            }),
    {
        let ghost s = self@;
        loop
            invariant
                s == old(self)@,
                next_line_of(self@.text) == next_line_of(s.text),
                self@ == (StreamView { text: self@.text, ..s }),
            decreases self@.text.len(),
        {
            proof {
                reveal_strlit("\n");
            }
            let total = self.buffer.len();
            match find_in(self.buffer.as_slice(), chars_of("\n").as_slice()) {
                Some(i) => {
                    let all = self.buffer.as_slice();
                    let line = text_of(trimmed(slice_subrange(all, 0, i)));
                    let mut rest: Vec<char> = Vec::new();
                    append_chars(&mut rest, slice_subrange(all, i + 1, total));
                    proof {
                        assert(self.buffer@.subrange(0, i as int) =~= self.buffer@.take(i as int));
                        assert(rest@ =~= self.buffer@.skip(i + 1));
                    }
                    self.buffer = rest;
                    if !line.as_str().is_empty() {
                        return Some(line);
                    }
                },
                None => return None,
            }
        }
    }

    /// Takes in a line that has been read.
    pub fn on_chunk(&mut self, chunk: OllamaChunk) -> (r: ChunkOutcome)
        ensures
            ({
                let (events, end, complete) = chunk_step(old(self)@.replayer, chunk@);
                &&& event_views(r.events@) == events
                &&& r.complete == complete
                &&& final(self)@ == (StreamView { replayer: end, ..old(self)@ })
            }),
    {
        let ghost c = chunk@;
        let ghost s = self@;
        let mut events: Vec<StreamEvent> = Vec::new();
        assert(event_views(events@) =~= Seq::<EventView>::empty());
        if let Some(message) = chunk.message {
            if message.content.as_str().is_empty() {
                assert(c.message == Some(message.content@));
                assert(message.content@ =~= Seq::<char>::empty());
                return ChunkOutcome { events, complete: false };
            }
            let mut flushes: Vec<Flush> = Vec::new();
            assert(flush_views(flushes@) =~= Seq::<FlushView>::empty());
            self.replayer.push(message.content.as_str(), &mut flushes);
            self.send_all(flushes, &mut events);
            assert(event_views(events@) =~= content_step(s.replayer, message.content@).0);
        }
        if chunk.done {
            let ghost first = event_views(events@);
            let ghost mid = self@.replayer;
            self.flush_rest(&mut events);
            let ghost rest = rest_step(mid).0;
            if chunk.eval_count > 0 || chunk.prompt_eval_count > 0 {
                events.push(
                    StreamEvent::Usage(
                        TokenUsage {
                            prompt_tokens: chunk.prompt_eval_count,
                            completion_tokens: chunk.eval_count,
                            cached_tokens: 0,
                        },
                    ),
                );
                assert(events@.last()@ == usage_of(c)[0]);
                assert(event_views(events@) =~= (first + rest).push(usage_of(c)[0]));
            }
            assert(event_views(events@) =~= first + (rest + usage_of(c)));
            events.push(StreamEvent::Done { truncated: false });
            assert(event_views(events@) =~= (first + (rest + usage_of(c))).push(
                EventView::Done { truncated: false },
            ));
            assert(event_views(events@) =~= first + (rest + usage_of(c)).push(
                EventView::Done { truncated: false },
            ));
            return ChunkOutcome { events, complete: true };
        }
        ChunkOutcome { events, complete: false }
    }

    /// Ends the body.
    pub fn finish(&mut self) -> (r: Vec<StreamEvent>)
        ensures
            (event_views(r@), final(self)@.replayer) == end_step(old(self)@.replayer),
            final(self)@ == (StreamView { replayer: final(self)@.replayer, ..old(self)@ }),
    {
        let mut events: Vec<StreamEvent> = Vec::new();
        self.flush_rest(&mut events);
        assert(event_views(events@) =~= rest_step(old(self)@.replayer).0);
        events.push(StreamEvent::Done { truncated: false });
        assert(event_views(events@) =~= end_step(old(self)@.replayer).0);
        events
    }

    /// Sends what the replayer still holds.
    fn flush_rest(&mut self, events: &mut Vec<StreamEvent>)
        ensures
            ({
                let (rest, end) = rest_step(old(self)@.replayer);
                &&& event_views(final(events)@) == event_views(old(events)@) + rest
                &&& final(self)@ == (StreamView { replayer: end, ..old(self)@ })
            }),
    {
        let mut flushes: Vec<Flush> = Vec::new();
        assert(flush_views(flushes@) =~= Seq::<FlushView>::empty());
        self.replayer.finish(&mut flushes);
        self.send_all(flushes, events);
    }

    /// Sends the events for a list of flushes.
    fn send_all(&mut self, flushes: Vec<Flush>, events: &mut Vec<StreamEvent>)
        ensures
            ({
                let s = old(self)@;
                let (made, counter) = sent(s.replayer.counter, flush_views(flushes@));
                &&& event_views(final(events)@) == event_views(old(events)@) + made
                &&& final(self)@ == (StreamView {
                    replayer: ReplayerView { counter, ..s.replayer },
                    ..s
                })
            }),
    {
        let ghost all = flush_views(flushes@);
        let ghost first = event_views(events@);
        let ghost s = self@;
        assert(first + sent(s.replayer.counter, all.take(0)).0 =~= first);
        for flush in it: flushes
            invariant
                flush_views(it.seq()) == all,
                ({
                    let (made, counter) = sent(s.replayer.counter, all.take(it.index()));
                    &&& event_views(events@) == first + made
                    &&& self@ == (StreamView {
                        replayer: ReplayerView { counter, ..s.replayer },
                        ..s
                    })
                }),
        {
            let ghost i = it.index();
            proof {
                assert(flush_views(it.seq())[i] == flush@);
                assert(all.take(i + 1).drop_last() =~= all.take(i));
                assert(all.take(i + 1).last() == flush@);
            }
            self.send(flush, events);
            assert(event_views(events@) =~= first + sent(s.replayer.counter, all.take(i + 1)).0);
        }
        assert(all.take(all.len() as int) =~= all);
    }

    /// Sends the events for a flush.
    fn send(&mut self, f: Flush, events: &mut Vec<StreamEvent>)
        ensures
            ({
                let s = old(self)@;
                let n = s.replayer.counter;
                &&& event_views(final(events)@) == event_views(old(events)@) + events_of(n, f@)
                &&& final(self)@ == (StreamView {
                    replayer: ReplayerView { counter: count_after(n, f@), ..s.replayer },
                    ..s
                })
            }),
    {
        let ghost view = f@;
        let ghost n = self@.replayer.counter;
        let ghost first = event_views(events@);
        match f {
            Flush::Delta(s) => events.push(StreamEvent::Delta(s)),
            Flush::Reasoning(s) => events.push(StreamEvent::Reasoning(s)),
            Flush::ToolCall { name, arguments } => {
                let number = self.replayer.count_call();
                let mut id = "call_".to_owned();
                id.append(decimal_text(number as u64).as_str());
                events.push(StreamEvent::ToolCallStart { id: id.clone(), name: name.clone() });
                events.push(StreamEvent::ToolCallDelta(arguments.clone()));
                events.push(StreamEvent::ToolCallDone(ToolCall { id, name, arguments }));
            },
        }
        assert(event_views(events@) =~= first + events_of(n, view));
    }
}

} // verus!
