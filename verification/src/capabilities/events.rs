//! The events that the agent kernel takes.

use vstd::prelude::*;

verus! {

/// A call of a tool.
#[derive(Debug)]
pub struct ToolCall {
    pub id: String,
    pub name: String,
    pub arguments: String,
}

/// The tokens that an answer took.
#[derive(Clone, Copy, Debug, PartialEq, Eq, Structural)]
pub struct TokenUsage {
    pub prompt: u32,
    pub completion: u32,
    pub cached: u32,
}

/// What went wrong with a request.
#[derive(Debug)]
pub struct ProviderError {
    pub retryable: bool,
    pub message: String,
}

/// An event of the stream that answers a request.
#[derive(Debug)]
pub enum StreamEvent {
    TextDelta(String),
    Reasoning(String),
    ToolCall(ToolCall),
    Usage(TokenUsage),
    Done { truncated: bool },
    Error(ProviderError),
}

/// The mathematical content of a [`StreamEvent`].
pub enum EventView {
    TextDelta(Seq<char>),
    Reasoning(Seq<char>),
    ToolCall { id: Seq<char>, name: Seq<char>, arguments: Seq<char> },
    Usage(TokenUsage),
    Done { truncated: bool },
    Error { retryable: bool, message: Seq<char> },
}

impl View for StreamEvent {
    type V = EventView;

    open spec fn view(&self) -> EventView {
        match self {
            StreamEvent::TextDelta(s) => EventView::TextDelta(s@),
            StreamEvent::Reasoning(s) => EventView::Reasoning(s@),
            StreamEvent::ToolCall(c) => EventView::ToolCall {
                id: c.id@,
                name: c.name@,
                arguments: c.arguments@,
            },
            StreamEvent::Usage(u) => EventView::Usage(*u),
            StreamEvent::Done { truncated } => EventView::Done { truncated: *truncated },
            StreamEvent::Error(e) => EventView::Error {
                retryable: e.retryable,
                message: e.message@,
            },
        }
    }
}

/// The contents of a list of events.
pub open spec fn event_views(s: Seq<StreamEvent>) -> Seq<EventView> {
    s.map_values(|e: StreamEvent| e@)
}

} // verus!
