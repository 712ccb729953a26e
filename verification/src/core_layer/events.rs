//! The events of a conversation.

use vstd::prelude::*;

verus! {

/// A call of a tool.
#[derive(Debug)]
pub struct ToolCall {
    pub id: String,
    pub name: String,
    pub arguments: String,
}

/// The tokens that an answer took.
#[derive(Clone, Copy, Debug, PartialEq, Eq, Structural)]
pub struct TokenUsage {
    pub prompt_tokens: usize,
    pub completion_tokens: usize,
    pub cached_tokens: usize,
}

/// An event of the stream that answers a request.
#[derive(Debug)]
pub enum StreamEvent {
    Delta(String),
    Reasoning(String),
    ToolCallStart { id: String, name: String },
    ToolCallDelta(String),
    ToolCallDone(ToolCall),
    Usage(TokenUsage),
    Done { truncated: bool },
    Error(String),
}

/// The mathematical content of a [`StreamEvent`].
pub enum EventView {
    Delta(Seq<char>),
    Reasoning(Seq<char>),
    ToolCallStart { id: Seq<char>, name: Seq<char> },
    ToolCallDelta(Seq<char>),
    ToolCallDone { id: Seq<char>, name: Seq<char>, arguments: Seq<char> },
    Usage(TokenUsage),
    Done { truncated: bool },
    Error(Seq<char>),
}

impl View for StreamEvent {
    type V = EventView;

    open spec fn view(&self) -> EventView {
        match self {
            StreamEvent::Delta(s) => EventView::Delta(s@),
            StreamEvent::Reasoning(s) => EventView::Reasoning(s@),
            StreamEvent::ToolCallStart { id, name } => EventView::ToolCallStart {
                id: id@,
                name: name@,
            },
            StreamEvent::ToolCallDelta(s) => EventView::ToolCallDelta(s@),
            StreamEvent::ToolCallDone(c) => EventView::ToolCallDone {
                id: c.id@,
                name: c.name@,
                arguments: c.arguments@,
            },
            StreamEvent::Usage(u) => EventView::Usage(*u),
            StreamEvent::Done { truncated } => EventView::Done { truncated: *truncated },
            StreamEvent::Error(s) => EventView::Error(s@),
        }
    }
}

/// The contents of a list of events.
pub open spec fn event_views(s: Seq<StreamEvent>) -> Seq<EventView> {
    s.map_values(|e: StreamEvent| e@)
}

} // verus!
