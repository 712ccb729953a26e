use minicpm::capabilities::events::StreamEvent;
use minicpm::capabilities::session::{ChatSession, Input, Next, MAX_STREAM_ATTEMPTS};

fn failed(message: &str) -> Input {
    Input::Failed { message: message.to_string() }
}

fn chunk(s: &str) -> Input {
    Input::Chunk(s.as_bytes().to_vec())
}

fn error_of(events: &[StreamEvent]) -> &str {
    match events {
        [StreamEvent::Error(e)] => {
            assert!(!e.retryable);
            e.message.as_str()
        }
        _ => panic!("one error expected"),
    }
}

#[test]
fn idle_connection_ends_the_stream() {
    let mut s = ChatSession::new();
    let o = s.step(Input::Idle);
    assert_eq!(error_of(&o.events), "stream idle timeout");
    assert_eq!(o.next, Next::Stop);
}

#[test]
fn failure_before_any_event_is_tried_again() {
    assert_eq!(MAX_STREAM_ATTEMPTS, 3);
    let mut s = ChatSession::new();
    for attempt in 1..3 {
        let o = s.step(failed("reset"));
        assert!(o.events.is_empty());
        assert_eq!(o.next, Next::Retry { attempt });
        let o = s.step(Input::Reopened);
        assert!(o.events.is_empty());
        assert_eq!(o.next, Next::Read);
    }
    let o = s.step(failed("reset again"));
    assert_eq!(error_of(&o.events), "reset again");
    assert_eq!(o.next, Next::Stop);
}

#[test]
fn failure_after_an_event_is_not_tried_again() {
    let mut s = ChatSession::new();
    let o = s.step(chunk("{\"message\":{\"content\":\"x\"}}\n"));
    assert_eq!(o.events.len(), 1);
    assert_eq!(o.next, Next::Read);
    let o = s.step(failed("reset"));
    assert_eq!(error_of(&o.events), "reset");
    assert_eq!(o.next, Next::Stop);
}

#[test]
fn request_that_cannot_be_sent_anew() {
    let mut s = ChatSession::new();
    assert_eq!(s.step(failed("reset")).next, Next::Retry { attempt: 1 });
    let o = s.step(Input::ReopenFailed);
    assert_eq!(error_of(&o.events), "reset");
    assert_eq!(o.next, Next::Stop);
}

#[test]
fn new_body_is_read_from_its_start() {
    let mut s = ChatSession::new();
    assert_eq!(s.step(chunk("{\"message\":{\"con")).next, Next::Read);
    assert_eq!(s.step(failed("reset")).next, Next::Retry { attempt: 1 });
    assert_eq!(s.step(Input::Reopened).next, Next::Read);
    let o = s.step(chunk("{\"message\":{\"content\":\"x\"},\"done\":true}\n"));
    assert_eq!(o.events.len(), 2);
    assert_eq!(o.next, Next::Stop);
}

#[test]
fn complete_answer_stops_the_session() {
    let mut s = ChatSession::new();
    let o = s.step(chunk("{\"done\":true}\n"));
    assert!(matches!(o.events.as_slice(), [StreamEvent::Done { truncated: false }]));
    assert_eq!(o.next, Next::Stop);
}

#[test]
fn end_of_the_body_stops_the_session() {
    let mut s = ChatSession::new();
    s.step(chunk("{\"message\":{\"content\":\"<\"}}\n"));
    let o = s.step(Input::End);
    assert_eq!(o.events.len(), 2);
    assert!(matches!(&o.events[0], StreamEvent::TextDelta(s) if s == "<"));
    assert!(matches!(&o.events[1], StreamEvent::Done { truncated: false }));
    assert_eq!(o.next, Next::Stop);
}

#[test]
fn error_of_the_server_does_not_stop_the_reading() {
    let mut s = ChatSession::new();
    let o = s.step(chunk("{\"error\":\"busy\"}\n"));
    assert_eq!(error_of(&o.events), "provider error: busy");
    assert_eq!(o.next, Next::Read);
    let o = s.step(Input::End);
    assert!(o.events.is_empty());
    assert_eq!(o.next, Next::Stop);
}
