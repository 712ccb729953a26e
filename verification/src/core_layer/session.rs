//! What to do next while a request is sent and its answer is read.
//!
//! The network and the reading of a line as JSON lie outside: what has come of
//! them goes in, and what to do next comes out.

use vstd::prelude::*;

use crate::core_layer::events::{event_views, EventView, StreamEvent};
use crate::core_layer::replayer::ReplayerView;
use crate::core_layer::stream::{
    chunk_step, connection_failed, end_step, next_line_of, received, request_refused, ChatStream,
    ChunkView, OllamaChunk, StreamView,
};
use crate::scanner::start;

verus! {

/// What has happened.
#[derive(Debug)]
pub enum Input {
    /// The request could not be sent.
    Unreachable { reason: String },
    /// The server has refused the request.
    Refused { status: String, reason: String },
    /// The server answers, and a body begins.
    Opened,
    /// The body could not be read on.
    ReadFailed { message: String },
    /// Bytes of the body have come.
    Bytes(Vec<u8>),
    /// The line that was handed out has been read; nothing where it is not what
    /// a line should be.
    Line(Option<OllamaChunk>),
    /// The body has ended.
    End,
}

/// The mathematical content of an [`Input`].
pub enum InputView {
    Unreachable { reason: Seq<char> },
    Refused { status: Seq<char>, reason: Seq<char> },
    Opened,
    ReadFailed { message: Seq<char> },
    Bytes(Seq<u8>),
    Line(Option<ChunkView>),
    End,
}

impl View for Input {
    type V = InputView;

    open spec fn view(&self) -> InputView {
        match self {
            Input::Unreachable { reason } => InputView::Unreachable { reason: reason@ },
            Input::Refused { status, reason } => InputView::Refused {
                status: status@,
                reason: reason@,
            },
            Input::Opened => InputView::Opened,
            Input::ReadFailed { message } => InputView::ReadFailed { message: message@ },
            Input::Bytes(bytes) => InputView::Bytes(bytes@),
            Input::Line(chunk) => InputView::Line(
                match chunk {
                    Some(c) => Some(c@),
                    None => None,
                },
            ),
            Input::End => InputView::End,
        }
    }
}

/// What to do next.
#[derive(Debug)]
pub enum Next {
    /// Read on.
    Read,
    /// Read `line` as JSON.
    Parse { line: String },
    /// Stop: the stream of events is complete.
    Stop,
}

/// The mathematical content of a [`Next`].
pub enum NextView {
    Read,
    Parse { line: Seq<char> },
    Stop,
}

impl View for Next {
    type V = NextView;

    open spec fn view(&self) -> NextView {
        match self {
            Next::Read => NextView::Read,
            Next::Parse { line } => NextView::Parse { line: line@ },
            Next::Stop => NextView::Stop,
        }
    }
}

/// What a session waits for.
#[derive(Clone, Copy, Debug, PartialEq, Eq, Structural)]
pub enum Phase {
    /// An answer to the request.
    Connecting,
    /// More of the body.
    Reading,
    /// What a line came to.
    Parsing,
    /// Nothing.
    Stopped,
}

/// The state of a session.
pub struct SessionView {
    pub stream: StreamView,
    pub phase: Phase,
}

impl SessionView {
    /// `i` can happen in this state.
    pub open spec fn expects(self, i: InputView) -> bool {
        match i {
            InputView::Unreachable { .. } | InputView::Refused { .. } | InputView::Opened =>
                self.phase == Phase::Connecting,
            InputView::ReadFailed { .. } | InputView::Bytes(_) | InputView::End => self.phase
                == Phase::Reading,
            InputView::Line(_) => self.phase == Phase::Parsing,
        }
    }
}

/// The state of a session whose request has not been answered yet.
pub open spec fn connecting() -> SessionView {
    SessionView {
        stream: StreamView {
            bytes: Seq::empty(),
            text: Seq::empty(),
            replayer: ReplayerView { scan: start(), counter: 0 },
        },
        phase: Phase::Connecting,
    }
}

/// The next line is handed out; where there is none, more of the body is needed.
pub open spec fn look(s: StreamView) -> (NextView, SessionView) {
    match next_line_of(s.text) {
        (Some(line), rest) => (
            NextView::Parse { line },
            SessionView { stream: StreamView { text: rest, ..s }, phase: Phase::Parsing },
        ),
        (None, rest) => (
            NextView::Read,
            SessionView { stream: StreamView { text: rest, ..s }, phase: Phase::Reading },
        ),
    }
}

/// The session is over.
pub open spec fn stopped(s: StreamView) -> SessionView {
    SessionView { stream: s, phase: Phase::Stopped }
}

/// What is done when `i` happens: the events that come of it, what to do next,
/// and the state then. A failure ends the stream, and so does the line that
/// completes the answer; a line that cannot be read is skipped.
pub open spec fn session_step(s: SessionView, i: InputView) -> (
    Seq<EventView>,
    NextView,
    SessionView,
) {
    match i {
        InputView::Unreachable { reason } => (
            seq![EventView::Error("Connection failed: "@ + reason)],
            NextView::Stop,
            stopped(s.stream),
        ),
        InputView::Refused { status, reason } => (
            seq![EventView::Error("MiniCPM error ("@ + status + "): "@ + reason)],
            NextView::Stop,
            stopped(s.stream),
        ),
        InputView::Opened => (
            Seq::empty(),
            NextView::Read,
            SessionView { phase: Phase::Reading, ..s },
        ),
        InputView::ReadFailed { message } => (
            seq![EventView::Error(message)],
            NextView::Stop,
            stopped(s.stream),
        ),
        InputView::Bytes(bytes) => {
            let (next, t) = look(received(s.stream, bytes));
            (Seq::empty(), next, t)
        },
        InputView::Line(None) => {
            let (next, t) = look(s.stream);
            (Seq::empty(), next, t)
        },
        InputView::Line(Some(c)) => {
            let (events, replayer, complete) = chunk_step(s.stream.replayer, c);
            let stream = StreamView { replayer, ..s.stream };
            if complete {
                (events, NextView::Stop, stopped(stream))
            } else {
                let (next, t) = look(stream);
                (events, next, t)
            }
        },
        InputView::End => {
            let (events, replayer) = end_step(s.stream.replayer);
            (events, NextView::Stop, stopped(StreamView { replayer, ..s.stream }))
        },
    }
}

/// What comes of an input.
#[derive(Debug)]
pub struct Outcome {
    pub events: Vec<StreamEvent>,
    pub next: Next,
}

/// Sends a request and reads its answer.
pub struct ChatSession {
    stream: ChatStream,
    phase: Phase,
}

impl View for ChatSession {
    type V = SessionView;

    closed spec fn view(&self) -> SessionView {
        SessionView { stream: self.stream@, phase: self.phase }
    }
}

fn no_events() -> (r: Vec<StreamEvent>)
    ensures
        event_views(r@) == Seq::<EventView>::empty(),
{
    let events: Vec<StreamEvent> = Vec::new();
    assert(event_views(events@) =~= Seq::<EventView>::empty());
    events
}

fn one_event(event: StreamEvent) -> (r: Vec<StreamEvent>)
    ensures
        event_views(r@) == seq![event@],
{
    let mut events: Vec<StreamEvent> = Vec::new();
    events.push(event);
    assert(event_views(events@) =~= seq![event@]);
    events
}

impl ChatSession {
    /// A session whose request has not been answered yet.
    pub fn new() -> (r: ChatSession)
        ensures
            r@ == connecting(),
    {
        ChatSession { stream: ChatStream::new(), phase: Phase::Connecting }
    }

    /// Hands out the next line.
    fn look_on(&mut self) -> (r: Next)
        ensures
            (r@, final(self)@) == look(old(self)@.stream),
    {
        match self.stream.next_line() {
            Some(line) => {
                self.phase = Phase::Parsing;
                Next::Parse { line }
            },
            None => {
                self.phase = Phase::Reading;
                Next::Read
            },
        }
    }

    /// Takes in what has happened, and says what to do next.
    pub fn step(&mut self, input: Input) -> (r: Outcome)
        requires
            old(self)@.expects(input@),
        ensures
            (event_views(r.events@), r.next@, final(self)@) == session_step(old(self)@, input@),
    {
        match input {
            Input::Unreachable { reason } => {
                self.phase = Phase::Stopped;
                Outcome {
                    events: one_event(connection_failed(reason.as_str())),
                    next: Next::Stop,
                }
            },
            Input::Refused { status, reason } => {
                self.phase = Phase::Stopped;
                Outcome {
                    events: one_event(request_refused(status.as_str(), reason.as_str())),
                    next: Next::Stop,
                }
            },
            Input::Opened => {
                self.phase = Phase::Reading;
                Outcome { events: no_events(), next: Next::Read }
            },
            Input::ReadFailed { message } => {
                self.phase = Phase::Stopped;
                Outcome { events: one_event(StreamEvent::Error(message)), next: Next::Stop }
            },
            Input::Bytes(bytes) => {
                self.stream.receive(bytes.as_slice());
                Outcome { events: no_events(), next: self.look_on() }
            },
            Input::Line(None) => Outcome { events: no_events(), next: self.look_on() },
            Input::Line(Some(chunk)) => {
                let outcome = self.stream.on_chunk(chunk);
                if outcome.complete {
                    self.phase = Phase::Stopped;
                    Outcome { events: outcome.events, next: Next::Stop }
                } else {
                    Outcome { events: outcome.events, next: self.look_on() }
                }
            },
            Input::End => {
                let events = self.stream.finish();
                self.phase = Phase::Stopped;
                Outcome { events, next: Next::Stop }
            },
        }
    }
}

} // verus!
