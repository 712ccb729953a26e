//! Which events come of what.

use vstd::prelude::*;

use crate::bytes::{lemma_line_end, line_end, lossy_text};
use crate::call::CallView;
use crate::capabilities::chat_line::{line_of, LineView};
use crate::capabilities::decoder::{
    done_step, drained, emitted, ended, fresh, line_step, message_step, native_flushes,
    raw_line_step, text_line_step, tokens, usage_of, with_bytes, DecoderView,
};
use crate::capabilities::events::{EventView, TokenUsage};
use crate::capabilities::laws::calls_in;
use crate::capabilities::line_laws::law_calls_of_line;
use crate::capabilities::replayer::{after_finish, finished, pushed, FlushView};
use crate::json::{json_of, json_text, member, Json};
use crate::scanner::{start, Mode, ScanView};
use crate::text::trim;

verus! {

/// The event says what the flush does.
pub open spec fn shows(f: FlushView, e: EventView) -> bool {
    match f {
        FlushView::Text(s) => e == EventView::TextDelta(s),
        FlushView::Reasoning(s) => e == EventView::Reasoning(s),
        FlushView::ToolCall(c) => e matches EventView::ToolCall { name, arguments, .. } && name
            == c.name && arguments == c.arguments,
    }
}

/// The events say what the flushes do, one for each, in their order.
pub open spec fn all_shown(fs: Seq<FlushView>, events: Seq<EventView>) -> bool {
    fs.len() == events.len() && forall|i: int|
        0 <= i < fs.len() ==> shows(fs[i], #[trigger] events[i])
}

/// Each flush has its event.
pub proof fn law_flushes_shown(n: u32, fs: Seq<FlushView>)
    ensures
        all_shown(fs, emitted(n, fs).0),
    decreases fs.len(),
{
    if fs.len() > 0 {
        law_flushes_shown(n, fs.drop_last());
        let (front, m) = emitted(n, fs.drop_last());
        let all = emitted(n, fs).0;
        assert forall|i: int| 0 <= i < fs.len() implies shows(fs[i], #[trigger] all[i]) by {
            if i < front.len() {
                assert(all[i] == front[i]);
                assert(fs.drop_last()[i] == fs[i]);
            }
        }
    }
}

/// What the replayer makes of the answer text of a line. A line without one does
/// not reach it.
pub open spec fn replayed(s: ScanView, content: Seq<char>) -> (Seq<FlushView>, ScanView) {
    if content.len() == 0 {
        (Seq::empty(), s)
    } else {
        pushed(s, content)
    }
}

/// An error is handed on, and ends the stream.
pub proof fn law_error_line(d: DecoderView, l: LineView)
    ensures
        l.error matches Some(e) ==> line_step(d, l) == (
            seq![EventView::Error { retryable: false, message: "provider error: "@ + e }],
            DecoderView { done: true, ..d },
        ),
{
}

/// A line brings, in this order: what the replayer makes of its answer text, its
/// reasoning, and its calls, each of them; and nothing else as long as the answer
/// is not complete.
pub proof fn law_message_line(d: DecoderView, l: LineView)
    requires
        l.error is None,
        !l.done,
    ensures
        ({
            let (events, end) = line_step(d, l);
            let (fs, scan) = replayed(d.scan, l.content);
            let a = fs.len() as int;
            let b = a + if l.thinking.len() > 0 {
                1int
            } else {
                0
            };
            &&& events.len() == b + l.calls.len()
            &&& all_shown(fs, events.take(a))
            &&& l.thinking.len() > 0 ==> events[a] == EventView::Reasoning(l.thinking)
            &&& forall|i: int|
                0 <= i < l.calls.len() ==> shows(
                    FlushView::ToolCall(#[trigger] l.calls[i]),
                    events[b + i],
                )
            &&& end.scan == scan
            &&& end.buf == d.buf
            &&& end.truncated == d.truncated
            &&& end.done == d.done
        }),
{
    lemma_message(d, l);
}

proof fn lemma_message(d: DecoderView, l: LineView)
    ensures
        ({
            let (events, end) = message_step(d, l.content, l.thinking, l.calls);
            let (fs, scan) = replayed(d.scan, l.content);
            let a = fs.len() as int;
            let b = a + if l.thinking.len() > 0 {
                1int
            } else {
                0
            };
            &&& events.len() == b + l.calls.len()
            &&& all_shown(fs, events.take(a))
            &&& l.thinking.len() > 0 ==> events[a] == EventView::Reasoning(l.thinking)
            &&& forall|i: int|
                0 <= i < l.calls.len() ==> shows(
                    FlushView::ToolCall(#[trigger] l.calls[i]),
                    events[b + i],
                )
            &&& end.scan == scan
            &&& end.buf == d.buf
            &&& end.truncated == d.truncated
            &&& end.done == d.done
        }),
{
    let (events, _) = message_step(d, l.content, l.thinking, l.calls);
    let fs = replayed(d.scan, l.content).0;
    let (first, n) = emitted(d.tool_index, fs);
    law_flushes_shown(d.tool_index, fs);
    assert(events.take(fs.len() as int) =~= first);
    let native = native_flushes(l.calls);
    law_flushes_shown(n, native);
    let last = emitted(n, native).0;
    let b = events.len() - last.len();
    assert forall|i: int| 0 <= i < l.calls.len() implies shows(
        FlushView::ToolCall(#[trigger] l.calls[i]),
        events[b + i],
    ) by {
        assert(events[b + i] == last[i]);
        assert(native[i] == FlushView::ToolCall(l.calls[i]));
        assert(shows(native[i], last[i]));
    }
}

/// The line that completes the answer brings what any line brings, then what the
/// replayer still held, then the tokens where there were any, and then the end.
pub proof fn law_last_line(d: DecoderView, l: LineView)
    requires
        l.error is None,
        l.done,
    ensures
        ({
            let (events, end) = line_step(d, l);
            let (before, mid) = line_step(d, LineView { done: false, ..l });
            let fs = finished(mid.scan);
            let a = before.len() as int;
            let b = a + fs.len();
            let (prompt, completion) = (l.prompt % 0x1_0000_0000, l.completion % 0x1_0000_0000);
            let used = prompt > 0 || completion > 0;
            &&& events.take(a) == before
            &&& all_shown(fs, events.subrange(a, b))
            &&& used ==> events.len() == b + 2 && events[b] == EventView::Usage(
                TokenUsage { prompt: prompt as u32, completion: completion as u32, cached: 0 },
            )
            &&& !used ==> events.len() == b + 1
            &&& events.last() == EventView::Done { truncated: d.truncated || l.cut_short }
            &&& end.scan == after_finish(mid.scan)
            &&& end.buf == d.buf
            &&& end.truncated == (d.truncated || l.cut_short)
            &&& end.done
        }),
{
    lemma_message(d, l);
    let (events, _) = line_step(d, l);
    let (before, mid) = line_step(d, LineView { done: false, ..l });
    let fs = finished(mid.scan);
    law_flushes_shown(mid.tool_index, fs);
    let flushed = emitted(mid.tool_index, fs).0;
    let a = before.len() as int;
    assert(events.take(a) =~= before);
    assert(events.subrange(a, a + fs.len()) =~= flushed);
    assert(tokens(l.prompt) == l.prompt % 0x1_0000_0000);
    assert(tokens(l.completion) == l.completion % 0x1_0000_0000);
    assert(done_step(mid, l).0.len() == flushed.len() + usage_of(l).len() + 1);
}

/// The calls among the events.
pub open spec fn calls_of(events: Seq<EventView>) -> Seq<CallView>
    decreases events.len(),
{
    if events.len() == 0 {
        Seq::empty()
    } else {
        match events.last() {
            EventView::ToolCall { name, arguments, .. } => calls_of(events.drop_last()).push(
                CallView { name, arguments },
            ),
            _ => calls_of(events.drop_last()),
        }
    }
}

proof fn lemma_calls_of_add(a: Seq<EventView>, b: Seq<EventView>)
    ensures
        calls_of(a + b) == calls_of(a) + calls_of(b),
    decreases b.len(),
{
    if b.len() == 0 {
        assert(a + b =~= a);
        assert(calls_of(a) + calls_of(b) =~= calls_of(a));
    } else {
        assert((a + b).drop_last() =~= a + b.drop_last());
        assert((a + b).last() == b.last());
        lemma_calls_of_add(a, b.drop_last());
        assert(calls_of(a + b) =~= calls_of(a) + calls_of(b));
    }
}

proof fn lemma_calls_of_shown(fs: Seq<FlushView>, events: Seq<EventView>)
    requires
        all_shown(fs, events),
    ensures
        calls_of(events) == calls_in(fs),
    decreases fs.len(),
{
    if fs.len() > 0 {
        let (front, shown) = (fs.drop_last(), events.drop_last());
        assert forall|i: int| 0 <= i < front.len() implies shows(front[i], #[trigger] shown[i]) by {
            assert(shown[i] == events[i]);
        }
        lemma_calls_of_shown(front, shown);
        assert(shows(fs[fs.len() - 1], events[events.len() - 1]));
    }
}

proof fn lemma_native_calls(calls: Seq<CallView>)
    ensures
        calls_in(native_flushes(calls)) == calls,
    decreases calls.len(),
{
    if calls.len() > 0 {
        lemma_native_calls(calls.drop_last());
        assert(native_flushes(calls).drop_last() =~= native_flushes(calls.drop_last()));
        assert(native_flushes(calls).last() == FlushView::ToolCall(calls.last()));
        assert(calls.drop_last().push(calls.last()) =~= calls);
    }
}

/// The calls of a line are those that its answer text makes, and then those that
/// its message lists, none more and none less.
pub proof fn law_calls_of_message(d: DecoderView, l: LineView)
    requires
        l.error is None,
        !l.done,
    ensures
        calls_of(line_step(d, l).0) == calls_in(replayed(d.scan, l.content).0) + l.calls,
{
    let fs = replayed(d.scan, l.content).0;
    let (first, n) = emitted(d.tool_index, fs);
    let reasoning = if l.thinking.len() > 0 {
        seq![EventView::Reasoning(l.thinking)]
    } else {
        Seq::empty()
    };
    let native = native_flushes(l.calls);
    let last = emitted(n, native).0;
    law_flushes_shown(d.tool_index, fs);
    law_flushes_shown(n, native);
    lemma_calls_of_shown(fs, first);
    lemma_calls_of_shown(native, last);
    lemma_native_calls(l.calls);
    reveal_with_fuel(calls_of, 2);
    if l.thinking.len() > 0 {
        assert(reasoning.drop_last() =~= Seq::<EventView>::empty());
    }
    assert(calls_of(reasoning) =~= Seq::<CallView>::empty());
    lemma_calls_of_add(first, reasoning);
    lemma_calls_of_add(first + reasoning, last);
    assert(calls_of(first) + calls_of(reasoning) =~= calls_of(first));
}

/// The calls that the message of a line lists come out, each of them, in their
/// order and with their names and arguments, whatever its answer text and its
/// reasoning are; in particular where it has neither.
pub proof fn law_listed_calls_come_out(
    d: DecoderView,
    line: Seq<char>,
    j: Json,
    message: Json,
    entries: Seq<Json>,
)
    requires
        json_of(line) == Some(j),
        !(member(j, "error"@) matches Some(Json::Text(_))),
        member(j, "done"@) != Some(Json::Bool(true)),
        member(j, "message"@) == Some(message),
        member(message, "tool_calls"@) == Some(Json::Array(entries)),
    ensures
        ({
            let calls = calls_of(text_line_step(d, line).0);
            let k = calls.len() - entries.len();
            &&& k >= 0
            &&& !(member(message, "content"@) matches Some(Json::Text(_))) || member(
                message,
                "content"@,
            ) == Some(Json::Text(Seq::empty())) ==> k == 0
            &&& forall|i: int, f: Json|
                0 <= i < entries.len() && member(#[trigger] entries[i], "function"@) == Some(f) ==> {
                    &&& #[trigger] member(f, "name"@) matches Some(Json::Text(name))
                        ==> calls[k + i].name == name
                    &&& member(f, "arguments"@) matches Some(a) ==> calls[k + i].arguments
                        == json_text(a)
                }
        }),
{
    reveal(text_line_step);
    let l = line_of(j);
    law_calls_of_message(d, l);
    law_calls_of_line(j);
    let calls = calls_of(text_line_step(d, line).0);
    let k = calls.len() - entries.len();
    reveal_with_fuel(calls_in, 1);
    assert forall|i: int| 0 <= i < entries.len() implies calls[k + i] == #[trigger] l.calls[i] by {}
    assert forall|i: int, f: Json|
        0 <= i < entries.len() && member(#[trigger] entries[i], "function"@) == Some(f) implies {
        &&& #[trigger] member(f, "name"@) matches Some(Json::Text(name)) ==> calls[k + i].name == name
        &&& member(f, "arguments"@) matches Some(a) ==> calls[k + i].arguments == json_text(a)
    } by {
        assert(calls[k + i] == l.calls[i]);
    }
}

/// A line is read without the white space around it. A blank line, and one that
/// is no JSON, makes no difference.
pub proof fn law_raw_line(d: DecoderView, raw: Seq<u8>)
    ensures
        trim(lossy_text(raw)).len() == 0 ==> raw_line_step(d, raw) == (Seq::<EventView>::empty(), d),
        trim(lossy_text(raw)).len() > 0 && json_of(trim(lossy_text(raw))) is None
            ==> raw_line_step(d, raw) == (Seq::<EventView>::empty(), d),
        trim(lossy_text(raw)).len() > 0 ==> (json_of(trim(lossy_text(raw))) matches Some(j)
            ==> raw_line_step(d, raw) == line_step(d, line_of(j))),
{
    reveal(text_line_step);
}

/// Lines are taken in one by one, as soon as they are complete, up to the one
/// that ends the stream.
pub proof fn law_lines_in_order(d: DecoderView, line: Seq<u8>, rest: Seq<u8>)
    requires
        forall|i: int| 0 <= i < line.len() ==> #[trigger] line[i] != 0x0a,
    ensures
        drained(DecoderView { buf: line, ..d }) == (
            Seq::<EventView>::empty(),
            DecoderView { buf: line, ..d },
        ),
        ({
            let all = DecoderView { buf: line.push(0x0a) + rest, ..d };
            let (events, mid) = raw_line_step(DecoderView { buf: rest, ..d }, line.push(0x0a));
            let (more, end) = drained(mid);
            drained(all) == if mid.done {
                (events, mid)
            } else {
                (events + more, end)
            }
        }),
{
    lemma_line_end(line);
    let n = line.len() as int;
    let buf = line.push(0x0a) + rest;
    lemma_line_end(buf);
    assert(buf[n] == 0x0a);
    assert forall|i: int| 0 <= i < n implies buf[i] != 0x0a by {
        assert(buf[i] == line[i]);
    }
    assert(line_end(buf) == Some(n));
    assert(buf.take(n + 1) =~= line.push(0x0a));
    assert(buf.skip(n + 1) =~= rest);
}

/// Bytes go behind those that wait.
pub proof fn law_bytes_wait(d: DecoderView, chunk: Seq<u8>)
    ensures
        with_bytes(d, chunk) == (DecoderView { buf: d.buf + chunk, ..d }),
{
}

/// At the end of the body what the replayer still held comes out.
pub proof fn law_end_of_body(d: DecoderView)
    ensures
        ({
            let (events, end) = ended(d);
            let fs = finished(d.scan);
            &&& all_shown(fs, events.take(fs.len() as int))
            &&& d.done ==> events.len() == fs.len()
            &&& !d.done ==> events.len() == fs.len() + 1 && events.last() == EventView::Done {
                truncated: d.truncated,
            }
            &&& end.scan == after_finish(d.scan)
            &&& end.buf == d.buf
            &&& end.truncated == d.truncated
            &&& end.done
        }),
{
    let fs = finished(d.scan);
    law_flushes_shown(d.tool_index, fs);
    assert(ended(d).0.take(fs.len() as int) =~= emitted(d.tool_index, fs).0);
}

/// A new decoder holds nothing, has counted nothing and is not done.
pub proof fn law_fresh()
    ensures
        fresh().buf.len() == 0,
        fresh().scan == start(),
        fresh().tool_index == 0,
        !fresh().truncated,
        !fresh().done,
        start().pending.len() == 0,
        start().mode == Mode::Text,
        !start().open,
{
}

} // verus!
