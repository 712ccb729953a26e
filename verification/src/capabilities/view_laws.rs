//! What the views of the types say.

use vstd::prelude::*;

use crate::capabilities::chat_line::{call_views, ChatLine, NativeCall};
use crate::capabilities::events::{event_views, EventView, StreamEvent};
use crate::capabilities::replayer::{flush_views, Flush, FlushView};
use crate::capabilities::session::{Input, InputView};

verus! {

/// A view holds all that the value holds.
pub proof fn law_event_view(e: StreamEvent)
    ensures
        match e {
            StreamEvent::TextDelta(s) => e@ == EventView::TextDelta(s@),
            StreamEvent::Reasoning(s) => e@ == EventView::Reasoning(s@),
            StreamEvent::ToolCall(c) => e@ == (EventView::ToolCall {
                id: c.id@,
                name: c.name@,
                arguments: c.arguments@,
            }),
            StreamEvent::Usage(u) => e@ == EventView::Usage(u),
            StreamEvent::Done { truncated } => e@ == (EventView::Done { truncated }),
            StreamEvent::Error(err) => e@ == (EventView::Error {
                retryable: err.retryable,
                message: err.message@,
            }),
        },
{
}

/// A view holds all that the value holds.
pub proof fn law_flush_view(f: Flush)
    ensures
        match f {
            Flush::Text(s) => f@ == FlushView::Text(s@),
            Flush::Reasoning(s) => f@ == FlushView::Reasoning(s@),
            Flush::ToolCall { name, arguments } => f@ matches FlushView::ToolCall(c) && c.name
                == name@ && c.arguments == arguments@,
        },
{
}

/// The views of a list are those of its entries, in their order.
pub proof fn law_list_views(
    events: Seq<StreamEvent>,
    flushes: Seq<Flush>,
    calls: Seq<NativeCall>,
)
    ensures
        event_views(events).len() == events.len(),
        forall|i: int| 0 <= i < events.len() ==> #[trigger] event_views(events)[i] == events[i]@,
        flush_views(flushes).len() == flushes.len(),
        forall|i: int| 0 <= i < flushes.len() ==> #[trigger] flush_views(flushes)[i] == flushes[i]@,
        call_views(calls).len() == calls.len(),
        forall|i: int| 0 <= i < calls.len() ==> #[trigger] call_views(calls)[i] == calls[i]@,
{
}

/// A view holds all that the line holds.
pub proof fn law_line_view(l: ChatLine, c: NativeCall)
    ensures
        l.error matches Some(e) ==> l@.error == Some(e@),
        l.error is None ==> l@.error is None,
        l@.content == l.content@,
        l@.thinking == l.thinking@,
        l@.calls.len() == l.calls@.len(),
        forall|i: int| 0 <= i < l.calls@.len() ==> #[trigger] l@.calls[i] == l.calls@[i]@,
        l@.done == l.done,
        l@.cut_short == l.cut_short,
        l@.prompt == l.prompt,
        l@.completion == l.completion,
        c@.name == c.name@,
        c@.arguments == c.arguments@,
{
}

/// A view holds all that has happened.
pub proof fn law_input_view(i: Input)
    ensures
        match i {
            Input::Idle => i@ == InputView::Idle,
            Input::End => i@ == InputView::End,
            Input::Failed { message } => i@ == (InputView::Failed { message: message@ }),
            Input::Chunk(bytes) => i@ == InputView::Chunk(bytes@),
            Input::Reopened => i@ == InputView::Reopened,
            Input::ReopenFailed => i@ == InputView::ReopenFailed,
        },
{
}

} // verus!
