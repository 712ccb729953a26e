//! What to do next while the body of an answer is read.

use vstd::prelude::*;

use crate::capabilities::decoder::{
    drained, ended, fresh, with_bytes, DecoderView, MinicpmDecoder,
};
use crate::capabilities::events::{event_views, EventView, ProviderError, StreamEvent};

verus! {

/// How often a request is sent at most.
pub const MAX_STREAM_ATTEMPTS: u32 = 3;

/// What has happened to the connection.
#[derive(Debug)]
pub enum Input {
    /// Nothing came for too long.
    Idle,
    /// The body has ended.
    End,
    /// The body could not be read on.
    Failed { message: String },
    /// Bytes of the body have come.
    Chunk(Vec<u8>),
    /// The request has been sent anew, and a new body begins.
    Reopened,
    /// The request could not be sent anew.
    ReopenFailed,
}

/// What to do next.
#[derive(Clone, Copy, Debug, PartialEq, Eq, Structural)]
pub enum Next {
    /// Read on.
    Read,
    /// Send the request anew, after the pause that follows the given attempt.
    Retry { attempt: u32 },
    /// Stop: the stream of events is complete.
    Stop,
}

/// The state of a session.
pub struct SessionView {
    pub decoder: DecoderView,
    /// The number of times the request has been sent.
    pub attempt: u32,
    /// Whether the present body has brought an event.
    pub emitted_any: bool,
    /// Why the body could not be read on, while the request is sent anew.
    pub failure: Option<Seq<char>>,
}

/// The mathematical content of an [`Input`].
pub enum InputView {
    Idle,
    End,
    Failed { message: Seq<char> },
    Chunk(Seq<u8>),
    Reopened,
    ReopenFailed,
}

impl View for Input {
    type V = InputView;

    open spec fn view(&self) -> InputView {
        match self {
            Input::Idle => InputView::Idle,
            Input::End => InputView::End,
            Input::Failed { message } => InputView::Failed { message: message@ },
            Input::Chunk(bytes) => InputView::Chunk(bytes@),
            Input::Reopened => InputView::Reopened,
            Input::ReopenFailed => InputView::ReopenFailed,
        }
    }
}

impl SessionView {
    /// The number of attempts is within its limit, and another one is under way
    /// only where it may be made: nothing came of the present one.
    pub open spec fn valid(self) -> bool {
        &&& 1 <= self.attempt <= MAX_STREAM_ATTEMPTS
        &&& self.failure is Some ==> self.attempt < MAX_STREAM_ATTEMPTS && !self.emitted_any
    }

    /// `i` can happen in this state: either the request is being sent anew, or
    /// a body is read.
    pub open spec fn expects(self, i: InputView) -> bool {
        (self.failure is Some) == (i is Reopened || i is ReopenFailed)
    }
}

/// The event for an error that ends the stream.
pub open spec fn error_event(message: Seq<char>) -> EventView {
    EventView::Error { retryable: false, message }
}

/// The stream of events ends in `events`.
pub open spec fn has_done(events: Seq<EventView>) -> bool {
    exists|i: int| 0 <= i < events.len() && #[trigger] events[i] is Done
}

/// What is done when `i` happens: the events that come of it, what to do next,
/// and the state then.
///
/// A body that breaks off is asked for anew, as long as it has not brought an
/// event yet; what it had brought would else come twice.
pub open spec fn session_step(s: SessionView, i: InputView) -> (Seq<EventView>, Next, SessionView) {
    match i {
        InputView::Idle => (seq![error_event("stream idle timeout"@)], Next::Stop, s),
        InputView::End => {
            let (events, decoder) = ended(s.decoder);
            (events, Next::Stop, SessionView { decoder, ..s })
        },
        InputView::Failed { message } => if !s.emitted_any && s.attempt < MAX_STREAM_ATTEMPTS {
            (
                Seq::empty(),
                Next::Retry { attempt: s.attempt },
                SessionView { failure: Some(message), ..s },
            )
        } else {
            (seq![error_event(message)], Next::Stop, s)
        },
        InputView::Chunk(bytes) => {
            let (events, decoder) = drained(with_bytes(s.decoder, bytes));
            (
                events,
                if has_done(events) {
                    Next::Stop
                } else {
                    Next::Read
                },
                SessionView { decoder, emitted_any: s.emitted_any || events.len() > 0, ..s },
            )
        },
        InputView::Reopened => (
            Seq::empty(),
            Next::Read,
            SessionView {
                decoder: fresh(),
                attempt: (s.attempt + 1) as u32,
                emitted_any: false,
                failure: None,
            },
        ),
        InputView::ReopenFailed => match s.failure {
            Some(message) => (
                seq![error_event(message)],
                Next::Stop,
                SessionView { failure: None, ..s },
            ),
            None => (Seq::empty(), Next::Stop, s),
        },
    }
}

/// What comes of an input.
#[derive(Debug)]
pub struct Outcome {
    pub events: Vec<StreamEvent>,
    pub next: Next,
}

/// Reads the body of an answer.
pub struct ChatSession {
    decoder: MinicpmDecoder,
    attempt: u32,
    emitted_any: bool,
    failure: Option<String>,
}

impl View for ChatSession {
    type V = SessionView;

    closed spec fn view(&self) -> SessionView {
        SessionView {
            decoder: self.decoder@,
            attempt: self.attempt,
            emitted_any: self.emitted_any,
            failure: match self.failure {
                Some(s) => Some(s@),
                None => None,
            },
        }
    }
}

/// Finds the end of the stream among the events.
fn find_done(events: &Vec<StreamEvent>) -> (r: bool)
    ensures
        r == has_done(event_views(events@)),
{
    for i in 0..events.len()
        invariant
            forall|k: int| 0 <= k < i ==> !((#[trigger] events@[k])@ is Done),
    {
        if let StreamEvent::Done { .. } = &events[i] {
            assert(event_views(events@)[i as int] is Done);
            return true;
        }
    }
    assert forall|k: int| 0 <= k < event_views(events@).len() implies !(#[trigger] event_views(
        events@,
    )[k] is Done) by {
        assert(!(events@[k]@ is Done));
    }
    false
}

fn error_list(message: String) -> (r: Vec<StreamEvent>)
    ensures
        event_views(r@) == seq![error_event(message@)],
{
    let mut events: Vec<StreamEvent> = Vec::new();
    events.push(StreamEvent::Error(ProviderError { retryable: false, message }));
    assert(event_views(events@) =~= seq![error_event(message@)]);
    events
}

impl ChatSession {
    /// A session whose request has been sent once.
    pub fn new() -> (r: ChatSession)
        ensures
            r@ == (SessionView {
                decoder: fresh(),
                attempt: 1,
                emitted_any: false,
                failure: None,
            }),
            r@.valid(),
    {
        ChatSession {
            decoder: MinicpmDecoder::new(),
            attempt: 1,
            emitted_any: false,
            failure: None,
        }
    }

    /// Takes in what has happened, and says what to do next.
    pub fn step(&mut self, input: Input) -> (r: Outcome)
        requires
            old(self)@.valid(),
            old(self)@.expects(input@),
        ensures
            (event_views(r.events@), r.next, final(self)@) == session_step(old(self)@, input@),
            final(self)@.valid(),
    {
        let ghost s = self@;
        let ghost i = input@;
        match input {
            Input::Idle => Outcome {
                events: error_list("stream idle timeout".to_owned()),
                next: Next::Stop,
            },
            Input::End => Outcome { events: self.decoder.finish(), next: Next::Stop },
            Input::Failed { message } => {
                if !self.emitted_any && self.attempt < MAX_STREAM_ATTEMPTS {
                    self.failure = Some(message);
                    let events: Vec<StreamEvent> = Vec::new();
                    assert(event_views(events@) =~= Seq::<EventView>::empty());
                    Outcome { events, next: Next::Retry { attempt: self.attempt } }
                } else {
                    Outcome { events: error_list(message), next: Next::Stop }
                }
            },
            Input::Chunk(bytes) => {
                let events = self.decoder.feed(bytes.as_slice());
                if events.len() > 0 {
                    self.emitted_any = true;
                }
                let next = if find_done(&events) {
                    Next::Stop
                } else {
                    Next::Read
                };
                Outcome { events, next }
            },
            Input::Reopened => {
                self.decoder = MinicpmDecoder::new();
                self.attempt = self.attempt + 1;
                self.emitted_any = false;
                self.failure = None;
                let events: Vec<StreamEvent> = Vec::new();
                assert(event_views(events@) =~= Seq::<EventView>::empty());
                Outcome { events, next: Next::Read }
            },
            Input::ReopenFailed => {
                let failure = self.failure.take();
                let events = match failure {
                    Some(message) => error_list(message),
                    None => Vec::new(),
                };
                Outcome { events, next: Next::Stop }
            },
        }
    }
}

} // verus!
