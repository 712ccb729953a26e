use minicpm::capabilities::decoder::MinicpmDecoder;
use minicpm::capabilities::events::StreamEvent;

fn show(events: Vec<StreamEvent>) -> Vec<String> {
    events
        .into_iter()
        .map(|e| match e {
            StreamEvent::TextDelta(s) => format!("T:{s}"),
            StreamEvent::Reasoning(s) => format!("R:{s}"),
            StreamEvent::ToolCall(c) => format!("C:{} {}({})", c.id, c.name, c.arguments),
            StreamEvent::Usage(u) => format!("U:{}/{}/{}", u.prompt, u.completion, u.cached),
            StreamEvent::Done { truncated } => format!("D:{truncated}"),
            StreamEvent::Error(e) => format!("E:{} {}", e.retryable, e.message),
        })
        .collect()
}

fn feed(d: &mut MinicpmDecoder, s: &str) -> Vec<String> {
    show(d.feed(s.as_bytes()))
}

#[test]
fn answer_in_two_lines() {
    let mut d = MinicpmDecoder::new();
    assert_eq!(
        feed(&mut d, "{\"message\":{\"content\":\"Hi\"},\"done\":false}\n"),
        vec!["T:Hi"]
    );
    assert_eq!(
        feed(
            &mut d,
            "{\"message\":{\"content\":\"\"},\"done\":true,\"prompt_eval_count\":12,\"eval_count\":3}\n"
        ),
        vec!["U:12/3/0", "D:false"]
    );
    assert_eq!(show(d.finish()), Vec::<String>::new());
}

#[test]
fn markup_becomes_reasoning_and_calls() {
    let mut d = MinicpmDecoder::new();
    let line = "{\"message\":{\"content\":\"<think>hm</think><function name='f'><param name='k'>1</param></function><function name='g'></function>\"}}\n";
    assert_eq!(
        feed(&mut d, line),
        vec![
            "R:hm",
            "C:minicpm_call_0 f({\"k\":1})",
            "C:minicpm_call_1 g({})",
        ]
    );
}

#[test]
fn native_calls_and_thinking_are_taken_over() {
    let mut d = MinicpmDecoder::new();
    let line = "{\"message\":{\"content\":\"x\",\"thinking\":\"y\",\"tool_calls\":[\
        {\"function\":{\"name\":\"f\",\"arguments\":{\"b\":1,\"a\":\"z\"}}},\
        {\"function\":{}},{}]}}\n";
    assert_eq!(
        feed(&mut d, line),
        vec![
            "T:x",
            "R:y",
            "C:minicpm_call_0 f({\"a\":\"z\",\"b\":1})",
            "C:minicpm_call_1 ({})",
            "C:minicpm_call_2 ({})",
        ]
    );
}

#[test]
fn error_ends_the_stream() {
    let mut d = MinicpmDecoder::new();
    assert_eq!(
        feed(&mut d, "{\"error\":\"no such model\"}\n{\"message\":{\"content\":\"x\"}}\n"),
        vec!["E:false provider error: no such model"]
    );
    assert_eq!(show(d.finish()), Vec::<String>::new());
}

#[test]
fn answer_that_became_too_long() {
    let mut d = MinicpmDecoder::new();
    assert_eq!(
        feed(&mut d, "{\"done\":true,\"done_reason\":\"length\"}\n"),
        vec!["D:true"]
    );
    let mut d = MinicpmDecoder::new();
    assert_eq!(
        feed(&mut d, "{\"done\":true,\"done_reason\":\"stop\"}\n"),
        vec!["D:false"]
    );
}

#[test]
fn what_the_replayer_holds_comes_before_the_end() {
    let mut d = MinicpmDecoder::new();
    assert_eq!(
        feed(&mut d, "{\"message\":{\"content\":\"a < b\"}}\n"),
        vec!["T:a "]
    );
    assert_eq!(feed(&mut d, "{\"done\":true}\n"), vec!["T:< b", "D:false"]);
}

#[test]
fn end_of_the_body_ends_the_stream() {
    let mut d = MinicpmDecoder::new();
    assert_eq!(
        feed(&mut d, "{\"message\":{\"content\":\"<think>abc\"}}\n"),
        Vec::<String>::new()
    );
    assert_eq!(show(d.finish()), vec!["R:abc", "D:false"]);
    assert_eq!(show(d.finish()), Vec::<String>::new());
}

#[test]
fn blank_lines_and_broken_lines_are_skipped() {
    let mut d = MinicpmDecoder::new();
    assert_eq!(
        feed(&mut d, "\n  \r\nnot json\n{\"message\":7}\n[]\n{\"message\":{\"content\":\"x\"}}\r\n"),
        vec!["T:x"]
    );
}

#[test]
fn every_cut_of_the_body_comes_to_the_same() {
    let body = "{\"message\":{\"content\":\"北<function name='f'></function>\"}}\n{\"message\":{\"content\":\"京\"}}\n{\"done\":true,\"eval_count\":1}\n";
    let mut d = MinicpmDecoder::new();
    let whole = feed(&mut d, body);
    assert_eq!(
        whole,
        vec!["T:北", "C:minicpm_call_0 f({})", "T:京", "U:0/1/0", "D:false"]
    );
    let bytes = body.as_bytes();
    for i in 0..bytes.len() {
        let mut d = MinicpmDecoder::new();
        let mut events = show(d.feed(&bytes[..i]));
        events.extend(show(d.feed(&bytes[i..])));
        assert_eq!(events, whole);
    }
}

#[test]
fn bytes_that_are_no_text_are_replaced() {
    let mut d = MinicpmDecoder::new();
    let mut line = b"{\"message\":{\"content\":\"a".to_vec();
    line.push(0xff);
    line.extend_from_slice(b"b\"}}\n");
    assert_eq!(show(d.feed(&line)), vec!["T:a\u{fffd}b"]);
}

#[test]
fn counts_are_cut_to_their_width() {
    let mut d = MinicpmDecoder::new();
    assert_eq!(
        feed(&mut d, "{\"done\":true,\"prompt_eval_count\":4294967301,\"eval_count\":-1}\n"),
        vec!["U:5/0/0", "D:false"]
    );
    let mut d = MinicpmDecoder::new();
    assert_eq!(
        feed(&mut d, "{\"done\":true,\"prompt_eval_count\":4294967296,\"eval_count\":0}\n"),
        vec!["D:false"]
    );
}

#[test]
fn calls_are_numbered_over_the_whole_answer() {
    let mut d = MinicpmDecoder::new();
    let line = "{\"message\":{\"content\":\"<function name='f'></function>\"}}\n";
    let mut ids = Vec::new();
    for _ in 0..12 {
        for e in d.feed(line.as_bytes()) {
            if let StreamEvent::ToolCall(c) = e {
                ids.push(c.id);
            }
        }
    }
    let wanted: Vec<String> = (0..12).map(|i| format!("minicpm_call_{i}")).collect();
    assert_eq!(ids, wanted);
}

#[test]
fn a_line_read_by_hand() {
    let mut d = MinicpmDecoder::new();
    let mut out = Vec::new();
    d.process_line("{\"message\":{\"content\":\"x\"}}", &mut out);
    d.process_line("{", &mut out);
    assert_eq!(show(out), vec!["T:x"]);
}
