//! Which events come of what.

use vstd::prelude::*;
use vstd::utf8::{decode_utf8, valid_utf8};

use crate::bytes::lemma_valid_len;
use crate::core_layer::events::{EventView, TokenUsage};
use crate::core_layer::replayer::{after_finish, finished, pushed, FlushView, ReplayerView};
use crate::core_layer::stream::{
    chunk_step, count_after, end_step, events_of, next_line_of, received, sent, usage_of,
    ChunkView, StreamView,
};
use crate::text::{lemma_find_behind, lemma_lacks_char, trim};

verus! {

/// A text and a reasoning are handed on as they are. A call is announced, its
/// arguments are sent, and it is sent as a whole, under one identifier.
pub proof fn law_flush_events(n: u32, f: FlushView)
    ensures
        f matches FlushView::Delta(s) ==> events_of(n, f) == seq![EventView::Delta(s)] && count_after(
            n,
            f,
        ) == n,
        f matches FlushView::Reasoning(s) ==> events_of(n, f) == seq![EventView::Reasoning(s)]
            && count_after(n, f) == n,
        f matches FlushView::ToolCall(c) ==> {
            let events = events_of(n, f);
            &&& events.len() == 3
            &&& events[0] matches EventView::ToolCallStart { id, name } && name == c.name
                && events[2] == (EventView::ToolCallDone {
                id,
                name: c.name,
                arguments: c.arguments,
            })
            &&& events[1] == EventView::ToolCallDelta(c.arguments)
        },
{
}

/// What comes of flushes comes in their order, for each of them.
pub proof fn law_sent_in_order(n: u32, a: Seq<FlushView>, b: Seq<FlushView>, f: FlushView)
    ensures
        sent(n, Seq::empty()) == (Seq::<EventView>::empty(), n),
        sent(n, seq![f]) == (events_of(n, f), count_after(n, f)),
        ({
            let (first, m) = sent(n, a);
            let (second, k) = sent(m, b);
            sent(n, a + b) == (first + second, k)
        }),
    decreases b.len(),
{
    reveal_with_fuel(sent, 2);
    assert(seq![f].drop_last() =~= Seq::<FlushView>::empty());
    assert(Seq::<EventView>::empty() + events_of(n, f) =~= events_of(n, f));
    if b.len() == 0 {
        assert(a + b =~= a);
        assert(sent(n, a).0 + Seq::<EventView>::empty() =~= sent(n, a).0);
    } else {
        assert((a + b).drop_last() =~= a + b.drop_last());
        assert((a + b).last() == b.last());
        law_sent_in_order(n, a, b.drop_last(), f);
        let (first, m) = sent(n, a);
        let (second, k) = sent(m, b.drop_last());
        let last = events_of(k, b.last());
        assert((first + second) + last =~= first + (second + last));
    }
}

/// A line brings what the replayer makes of its answer text, and nothing else as
/// long as the answer is not complete. One whose message is empty brings nothing,
/// whatever else it says.
pub proof fn law_line(r: ReplayerView, c: ChunkView)
    ensures
        c.message == Some(Seq::<char>::empty()) ==> chunk_step(r, c) == (
            Seq::<EventView>::empty(),
            r,
            false,
        ),
        c.message is None && !c.done ==> chunk_step(r, c) == (Seq::<EventView>::empty(), r, false),
        c.message matches Some(content) ==> (content.len() > 0 && !c.done ==> {
            let (flushes, scan) = pushed(r.scan, Seq::empty(), content);
            let (events, counter) = sent(r.counter, flushes);
            chunk_step(r, c) == (events, ReplayerView { scan, counter }, false)
        }),
{
    if let Some(content) = c.message {
        if content.len() == 0 {
            assert(content =~= Seq::<char>::empty());
        }
    }
}

/// The line that completes the answer brings what any line brings, then what the
/// replayer still held, then the tokens where there were any, and then the end.
pub proof fn law_last_line(r: ReplayerView, c: ChunkView)
    requires
        c.done,
        c.message != Some(Seq::<char>::empty()),
    ensures
        ({
            let (events, end, complete) = chunk_step(r, c);
            let (before, mid, _) = chunk_step(r, ChunkView { done: false, ..c });
            let (rest, counter) = sent(mid.counter, finished(mid.scan, Seq::empty()));
            let done = seq![EventView::Done { truncated: false }];
            let usage = seq![
                EventView::Usage(
                    TokenUsage {
                        prompt_tokens: c.prompt_eval_count,
                        completion_tokens: c.eval_count,
                        cached_tokens: 0,
                    },
                ),
            ];
            &&& complete
            &&& c.prompt_eval_count == 0 && c.eval_count == 0 ==> events == before + rest + done
            &&& c.prompt_eval_count > 0 || c.eval_count > 0 ==> events == before + rest + usage
                + done
            &&& end == (ReplayerView { scan: after_finish(mid.scan), counter })
        }),
{
    let (events, _, _) = chunk_step(r, c);
    let (before, mid, _) = chunk_step(r, ChunkView { done: false, ..c });
    let rest = sent(mid.counter, finished(mid.scan, Seq::empty())).0;
    let done = seq![EventView::Done { truncated: false }];
    if c.prompt_eval_count == 0 && c.eval_count == 0 {
        assert(events =~= before + rest + done);
    } else {
        let usage = usage_of(c);
        assert(events =~= before + rest + usage + done);
    }
}

/// At the end of the body what the replayer still held comes out, and then the
/// end.
pub proof fn law_end_of_body(r: ReplayerView)
    ensures
        ({
            let (rest, counter) = sent(r.counter, finished(r.scan, Seq::empty()));
            end_step(r) == (
                rest.push(EventView::Done { truncated: false }),
                ReplayerView { scan: after_finish(r.scan), counter },
            )
        }),
{
}

/// A line is handed out without the white space around it when its end has come;
/// a blank one is passed over.
pub proof fn law_next_line(line: Seq<char>, rest: Seq<char>)
    requires
        !line.contains('\n'),
    ensures
        next_line_of(line) == (None::<Seq<char>>, line),
        trim(line).len() > 0 ==> next_line_of(line + "\n"@ + rest) == (Some(trim(line)), rest),
        trim(line).len() == 0 ==> next_line_of(line + "\n"@ + rest) == next_line_of(rest),
{
    reveal_strlit("\n");
    assert("\n"@ =~= seq!['\n']);
    lemma_lacks_char(line, '\n');
    lemma_find_behind(line, "\n"@, rest);
    let all = line + "\n"@ + rest;
    assert(all.take(line.len() as int) =~= line);
    assert(all.skip(line.len() as int + 1) =~= rest);
}

/// Of the bytes that have come, the longest front that is UTF-8 goes to the text,
/// and the others wait.
pub proof fn law_bytes_received(s: StreamView, chunk: Seq<u8>)
    ensures
        ({
            let t = received(s, chunk);
            let all = s.bytes + chunk;
            let n = all.len() - t.bytes.len();
            &&& n >= 0
            &&& t.bytes == all.skip(n)
            &&& valid_utf8(all.take(n))
            &&& t.text == s.text + decode_utf8(all.take(n))
            &&& forall|m: int| n < m <= all.len() ==> !valid_utf8(#[trigger] all.take(m))
            &&& t.replayer == s.replayer
        }),
{
    lemma_valid_len(s.bytes + chunk);
}

} // verus!
