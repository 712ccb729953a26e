use minicpm::core_layer::events::StreamEvent;
use minicpm::core_layer::session::{ChatSession, Input, Next};
use minicpm::core_layer::stream::{OllamaChunk, OllamaMessage};
use serde_json::Value;

fn show(events: Vec<StreamEvent>) -> Vec<String> {
    events
        .into_iter()
        .map(|e| match e {
            StreamEvent::Delta(s) => format!("D:{s}"),
            StreamEvent::ToolCallDone(c) => format!("call:{} {}({})", c.id, c.name, c.arguments),
            StreamEvent::Done { truncated } => format!("done:{truncated}"),
            StreamEvent::Error(s) => format!("E:{s}"),
            _ => "?".to_string(),
        })
        .collect()
}

fn read(line: &str) -> Option<OllamaChunk> {
    let v: Value = serde_json::from_str(line).ok()?;
    Some(OllamaChunk {
        message: v
            .get("content")
            .and_then(|c| c.as_str())
            .map(|c| OllamaMessage { content: c.to_string() }),
        done: v.get("done")?.as_bool()?,
        prompt_eval_count: 0,
        eval_count: 0,
    })
}

fn opened() -> ChatSession {
    let mut s = ChatSession::new();
    let o = s.step(Input::Opened);
    assert!(o.events.is_empty());
    assert!(matches!(o.next, Next::Read));
    s
}

// The events of a body, and whether the session has stopped.
fn feed(s: &mut ChatSession, bytes: &[u8]) -> (Vec<String>, bool) {
    let mut o = s.step(Input::Bytes(bytes.to_vec()));
    let mut out = show(o.events);
    loop {
        match o.next {
            Next::Read => return (out, false),
            Next::Stop => return (out, true),
            Next::Parse { line } => {
                o = s.step(Input::Line(read(&line)));
                out.extend(show(o.events));
            }
        }
    }
}

fn answer(pieces: &[&[u8]]) -> Vec<String> {
    let mut s = opened();
    let mut out = Vec::new();
    for piece in pieces {
        let (events, stopped) = feed(&mut s, piece);
        out.extend(events);
        if stopped {
            return out;
        }
    }
    let o = s.step(Input::End);
    assert!(matches!(o.next, Next::Stop));
    out.extend(show(o.events));
    out
}

#[test]
fn server_that_is_not_there() {
    let mut s = ChatSession::new();
    let o = s.step(Input::Unreachable { reason: "refused".to_string() });
    assert_eq!(show(o.events), vec!["E:Connection failed: refused"]);
    assert!(matches!(o.next, Next::Stop));
}

#[test]
fn request_that_is_refused() {
    let mut s = ChatSession::new();
    let o = s.step(Input::Refused {
        status: "404 Not Found".to_string(),
        reason: "no such model".to_string(),
    });
    assert_eq!(show(o.events), vec!["E:MiniCPM error (404 Not Found): no such model"]);
    assert!(matches!(o.next, Next::Stop));
}

#[test]
fn body_that_breaks_off() {
    let mut s = opened();
    assert_eq!(
        feed(&mut s, b"{\"content\":\"a<\",\"done\":false}\n"),
        (vec!["D:a".to_string()], false)
    );
    let o = s.step(Input::ReadFailed { message: "reset".to_string() });
    assert_eq!(show(o.events), vec!["E:reset"]);
    assert!(matches!(o.next, Next::Stop));
}

#[test]
fn lines_are_handed_out_one_by_one() {
    let mut s = opened();
    let o = s.step(Input::Bytes(b"\n one \ntwo\nthr".to_vec()));
    assert!(o.events.is_empty());
    assert!(matches!(&o.next, Next::Parse { line } if line == "one"));
    let o = s.step(Input::Line(None));
    assert!(matches!(&o.next, Next::Parse { line } if line == "two"));
    let o = s.step(Input::Line(None));
    assert!(matches!(o.next, Next::Read));
}

#[test]
fn nothing_is_read_behind_the_end_of_the_answer() {
    let mut s = opened();
    assert_eq!(
        feed(
            &mut s,
            b"{\"content\":\"a\",\"done\":true}\n{\"content\":\"b\",\"done\":false}\n"
        ),
        (vec!["D:a".to_string(), "done:false".to_string()], true)
    );
}

#[test]
fn body_without_a_last_line() {
    assert_eq!(answer(&[b"{\"content\":\"1 <\",\"done\":false}\n"]), vec!["D:1 ", "D:<", "done:false"]);
    assert_eq!(answer(&[]), vec!["done:false"]);
}

#[test]
fn cuts_of_a_body_are_not_seen() {
    let body = "{\"content\":\"北<function name='f'></function>\",\"done\":false}\nbroken\n\
                {\"content\":\"京\",\"done\":false}\n{\"done\":true}\n"
        .as_bytes();
    let whole = answer(&[body]);
    assert_eq!(whole, vec!["D:北", "?", "?", "call:call_1 f({})", "D:京", "done:false"]);
    for i in 0..=body.len() {
        assert_eq!(answer(&[&body[..i], &body[i..]]), whole);
    }
    let bytes: Vec<&[u8]> = body.chunks(1).collect();
    assert_eq!(answer(&bytes), whole);
}
