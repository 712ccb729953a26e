use minicpm::core_layer::events::StreamEvent;
use minicpm::core_layer::stream::{
    connection_failed, request_refused, ChatStream, OllamaChunk, OllamaMessage,
};

fn show(events: Vec<StreamEvent>) -> Vec<String> {
    events
        .into_iter()
        .map(|e| match e {
            StreamEvent::Delta(s) => format!("D:{s}"),
            StreamEvent::Reasoning(s) => format!("R:{s}"),
            StreamEvent::ToolCallStart { id, name } => format!("start:{id} {name}"),
            StreamEvent::ToolCallDelta(s) => format!("args:{s}"),
            StreamEvent::ToolCallDone(c) => format!("call:{} {}({})", c.id, c.name, c.arguments),
            StreamEvent::Usage(u) => format!(
                "U:{}/{}/{}",
                u.prompt_tokens, u.completion_tokens, u.cached_tokens
            ),
            StreamEvent::Done { truncated } => format!("done:{truncated}"),
            StreamEvent::Error(s) => format!("E:{s}"),
        })
        .collect()
}

fn content(s: &str) -> OllamaChunk {
    OllamaChunk {
        message: Some(OllamaMessage { content: s.to_string() }),
        done: false,
        prompt_eval_count: 0,
        eval_count: 0,
    }
}

fn lines(s: &mut ChatStream) -> Vec<String> {
    let mut out = Vec::new();
    while let Some(line) = s.next_line() {
        out.push(line);
    }
    out
}

#[test]
fn lines_are_handed_out_when_they_are_complete() {
    let mut s = ChatStream::new();
    s.receive(b"  one \r\n\n \ntw");
    assert_eq!(lines(&mut s), vec!["one"]);
    s.receive(b"o\nthree\n");
    assert_eq!(lines(&mut s), vec!["two", "three"]);
    assert_eq!(lines(&mut s), Vec::<String>::new());
}

#[test]
fn characters_are_not_broken() {
    let body = "北京 é 😀\nx\n".as_bytes();
    for i in 0..=body.len() {
        for j in i..=body.len() {
            let mut s = ChatStream::new();
            s.receive(&body[..i]);
            s.receive(&body[i..j]);
            s.receive(&body[j..]);
            assert_eq!(lines(&mut s), vec!["北京 é 😀", "x"]);
        }
    }
}

#[test]
fn bytes_that_are_no_text_hold_back_what_follows() {
    let mut s = ChatStream::new();
    s.receive(b"a\n\xffb\n");
    assert_eq!(lines(&mut s), vec!["a"]);
    s.receive(b"c\n");
    assert_eq!(lines(&mut s), Vec::<String>::new());
}

#[test]
fn call_makes_three_events() {
    let mut s = ChatStream::new();
    let o = s.on_chunk(content("a<think>b</think><function name=\"f\"><param name=\"k\">1</param></function>"));
    assert!(!o.complete);
    assert_eq!(
        show(o.events),
        vec![
            "D:a",
            "R:b",
            "start:call_1 f",
            "args:{\"k\":1}",
            "call:call_1 f({\"k\":1})",
        ]
    );
    let o = s.on_chunk(content("<function name=\"g\"></function>"));
    assert_eq!(
        show(o.events),
        vec!["start:call_2 g", "args:{}", "call:call_2 g({})"]
    );
}

#[test]
fn end_of_the_answer() {
    let mut s = ChatStream::new();
    s.on_chunk(content("1 < 2"));
    let o = s.on_chunk(OllamaChunk {
        message: None,
        done: true,
        prompt_eval_count: 4,
        eval_count: 2,
    });
    assert!(o.complete);
    assert_eq!(show(o.events), vec!["D:< 2", "U:4/2/0", "done:false"]);
}

#[test]
fn no_usage_without_counts() {
    let mut s = ChatStream::new();
    let o = s.on_chunk(OllamaChunk {
        message: Some(OllamaMessage { content: "x".to_string() }),
        done: true,
        prompt_eval_count: 0,
        eval_count: 0,
    });
    assert!(o.complete);
    assert_eq!(show(o.events), vec!["D:x", "done:false"]);
}

#[test]
fn line_with_an_empty_message_is_skipped() {
    let mut s = ChatStream::new();
    let o = s.on_chunk(OllamaChunk {
        message: Some(OllamaMessage { content: "".to_string() }),
        done: true,
        prompt_eval_count: 1,
        eval_count: 1,
    });
    assert!(!o.complete);
    assert!(o.events.is_empty());
}

#[test]
fn end_of_the_body() {
    let mut s = ChatStream::new();
    s.on_chunk(content("<function name=\"f\"><param name=\"k\">v</param>"));
    assert_eq!(
        show(s.finish()),
        vec![
            "start:call_1 f",
            "args:{\"k\":\"v\"}",
            "call:call_1 f({\"k\":\"v\"})",
            "done:false",
        ]
    );
}

#[test]
fn errors_name_their_reason() {
    assert_eq!(show(vec![connection_failed("refused")]), vec!["E:Connection failed: refused"]);
    assert_eq!(
        show(vec![request_refused("404 Not Found", "no such model")]),
        vec!["E:MiniCPM error (404 Not Found): no such model"]
    );
}
