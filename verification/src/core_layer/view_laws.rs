//! What the views of the types say.

use vstd::prelude::*;

use crate::core_layer::events::{event_views, EventView, StreamEvent};
use crate::core_layer::history::{ContentView, MessageContent, WireMessage};
use crate::core_layer::replayer::{flush_views, Flush, FlushView};
use crate::core_layer::session::{Input, InputView, Next, NextView};
use crate::core_layer::stream::OllamaChunk;

verus! {

/// A view holds all that the value holds.
pub proof fn law_event_view(e: StreamEvent)
    ensures
        match e {
            StreamEvent::Delta(s) => e@ == EventView::Delta(s@),
            StreamEvent::Reasoning(s) => e@ == EventView::Reasoning(s@),
            StreamEvent::ToolCallStart { id, name } => e@ == (EventView::ToolCallStart {
                id: id@,
                name: name@,
            }),
            StreamEvent::ToolCallDelta(s) => e@ == EventView::ToolCallDelta(s@),
            StreamEvent::ToolCallDone(c) => e@ == (EventView::ToolCallDone {
                id: c.id@,
                name: c.name@,
                arguments: c.arguments@,
            }),
            StreamEvent::Usage(u) => e@ == EventView::Usage(u),
            StreamEvent::Done { truncated } => e@ == (EventView::Done { truncated }),
            StreamEvent::Error(s) => e@ == EventView::Error(s@),
        },
{
}

/// A view holds all that the value holds.
pub proof fn law_flush_view(f: Flush)
    ensures
        match f {
            Flush::Delta(s) => f@ == FlushView::Delta(s@),
            Flush::Reasoning(s) => f@ == FlushView::Reasoning(s@),
            Flush::ToolCall { name, arguments } => f@ matches FlushView::ToolCall(c) && c.name
                == name@ && c.arguments == arguments@,
        },
{
}

/// The views of a list are those of its entries, in their order.
pub proof fn law_list_views(events: Seq<StreamEvent>, flushes: Seq<Flush>)
    ensures
        event_views(events).len() == events.len(),
        forall|i: int| 0 <= i < events.len() ==> #[trigger] event_views(events)[i] == events[i]@,
        flush_views(flushes).len() == flushes.len(),
        forall|i: int| 0 <= i < flushes.len() ==> #[trigger] flush_views(flushes)[i] == flushes[i]@,
{
}

/// A view holds the text and the calls that the message holds.
pub proof fn law_content_view(c: MessageContent)
    ensures
        match c {
            MessageContent::Text(s) => c@ == ContentView::Text(s@),
            MessageContent::AssistantWithToolCalls { text, tool_calls } => {
                &&& c@ matches ContentView::AssistantWithToolCalls { text: t, tool_calls: calls }
                &&& text matches Some(s) ==> t == Some(s@)
                &&& text is None ==> t is None
                &&& calls.len() == tool_calls@.len()
                &&& forall|i: int|
                    0 <= i < calls.len() ==> #[trigger] calls[i] == (
                        tool_calls@[i].name@,
                        tool_calls@[i].arguments@,
                    )
            },
            MessageContent::ToolResult { output } => c@ == (ContentView::ToolResult {
                output: output@,
            }),
            MessageContent::ToolResultRef { summary } => c@ == (ContentView::ToolResultRef {
                summary: summary@,
            }),
            MessageContent::MultiPart { text } => {
                &&& c@ matches ContentView::MultiPart { text: t }
                &&& text matches Some(s) ==> t == Some(s@)
                &&& text is None ==> t is None
            },
        },
{
}

/// A view holds the role and the content of a message on the wire.
pub proof fn law_wire_view(w: WireMessage)
    ensures
        w@.role == w.role@,
        w@.content == w.content@,
{
}

/// A view holds all that the line holds.
pub proof fn law_chunk_view(c: OllamaChunk)
    ensures
        c.message matches Some(m) ==> c@.message == Some(m.content@),
        c.message is None ==> c@.message is None,
        c@.done == c.done,
        c@.prompt_eval_count == c.prompt_eval_count,
        c@.eval_count == c.eval_count,
{
}

/// A view holds all that has happened, and what to do next.
pub proof fn law_session_views(i: Input, n: Next)
    ensures
        match i {
            Input::Unreachable { reason } => i@ == (InputView::Unreachable { reason: reason@ }),
            Input::Refused { status, reason } => i@ == (InputView::Refused {
                status: status@,
                reason: reason@,
            }),
            Input::Opened => i@ == InputView::Opened,
            Input::ReadFailed { message } => i@ == (InputView::ReadFailed { message: message@ }),
            Input::Bytes(bytes) => i@ == InputView::Bytes(bytes@),
            Input::Line(Some(c)) => i@ == InputView::Line(Some(c@)),
            Input::Line(None) => i@ == InputView::Line(None),
            Input::End => i@ == InputView::End,
        },
        match n {
            Next::Read => n@ == NextView::Read,
            Next::Parse { line } => n@ == (NextView::Parse { line: line@ }),
            Next::Stop => n@ == NextView::Stop,
        },
{
}

} // verus!
