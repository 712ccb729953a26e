use minicpm::core_layer::replayer::{Flush, XmlReplayer};

fn run(input: &str) -> Vec<String> {
    let mut r = XmlReplayer::new();
    let mut out = Vec::new();
    // The whole answer in one chunk.
    r.push(input, &mut out);
    r.finish(&mut out);
    out.into_iter()
        .map(|f| match f {
            Flush::Delta(s) => format!("D:{}", s),
            Flush::Reasoning(s) => format!("R:{}", s),
            Flush::ToolCall { name, arguments } => format!("T:{}({})", name, arguments),
        })
        .collect()
}

#[test]
fn plain_text_passes_through_as_delta() {
    let out = run("hello world");
    assert_eq!(out, vec!["D:hello world"]);
}

#[test]
fn think_block_becomes_reasoning() {
    let out = run("<think>let me consider</think>done");
    assert_eq!(out, vec!["R:let me consider", "D:done"]);
}

#[test]
fn function_block_becomes_tool_call() {
    let out = run(
        "<function name=\"get_weather\"><arguments>\
         <param name=\"city\">London</param>\
         </arguments></function>",
    );
    assert_eq!(out, vec!["T:get_weather({\"city\":\"London\"})"]);
}

#[test]
fn mixed_text_think_and_function() {
    let input = "Sure. <think>checking</think>I'll look it up. \
                 <function name=\"read_file\"><arguments>\
                 <param name=\"path\">/tmp/a.rs</param>\
                 </arguments></function>";
    let out = run(input);
    assert_eq!(
        out,
        vec![
            "D:Sure. ",
            "R:checking",
            "D:I'll look it up. ",
            "T:read_file({\"path\":\"/tmp/a.rs\"})",
        ]
    );
}

#[test]
fn number_param_is_json_typed() {
    let out = run(
        "<function name=\"edit\"><arguments>\
         <param name=\"line\">42</param>\
         </arguments></function>",
    );
    // A number is a JSON number, not a string.
    assert_eq!(out, vec!["T:edit({\"line\":42})"]);
}

#[test]
fn cdata_payload_survives() {
    let xml = "<function name=\"write_file\"><arguments>\
               <param name=\"content\"><![CDATA[fn main() { let x = 1 < 2; }]]></param>\
               </arguments></function>";
    let out = run(xml);
    assert!(out.len() == 1);
    assert!(out[0].starts_with("T:write_file("));
    // The '<' inside of the section is kept.
    assert!(out[0].contains("1 < 2"));
}

#[test]
fn functionname_quirk_is_normalised() {
    // The tokenizer has dropped the space in the opening tag.
    let out = run(
        "<functionname=\"read\"><arguments>\
         <param name=\"path\">x</param>\
         </arguments></function>",
    );
    assert_eq!(out, vec!["T:read({\"path\":\"x\"})"]);
}

// The answer in chunks of one character.
fn run_streamed(input: &str) -> Vec<String> {
    let mut r = XmlReplayer::new();
    let mut out = Vec::new();
    for c in input.chars() {
        r.push(&c.to_string(), &mut out);
    }
    r.finish(&mut out);
    out.into_iter()
        .map(|f| match f {
            Flush::Delta(s) => format!("D:{}", s),
            Flush::Reasoning(s) => format!("R:{}", s),
            Flush::ToolCall { name, arguments } => format!("T:{}({})", name, arguments),
        })
        .collect()
}

#[test]
fn function_block_survives_byte_streaming() {
    let xml = "<function name=\"f\"><arguments><param name=\"k\">v</param></arguments></function>";
    let streamed = run_streamed(xml);
    let whole = run(xml);
    assert_eq!(streamed, whole);
}

#[test]
fn think_survives_byte_streaming() {
    let input = "a<think>bb</think>c";
    assert_eq!(run_streamed(input), run(input));
}

#[test]
fn plain_less_than_sign_is_text() {
    // A '<' that opens no tag is kept.
    let out = run("1 < 2");
    assert_eq!(out, vec!["D:1 < 2"]);
}

#[test]
fn every_split_comes_to_the_same() {
    let answer = "ab<think>cdefghijklmn</think><i>e<function name=\"f\"><param name=\"k\">v</param></function>1 < 2";
    let whole = run(answer);
    assert_eq!(
        whole,
        vec![
            "D:ab",
            "R:cdefghijklmn",
            "D:<i>",
            "D:e",
            "T:f({\"k\":\"v\"})",
            "D:1 < 2",
        ]
    );
    assert_eq!(run_streamed(answer), whole);
    for i in 0..answer.len() {
        let (a, b) = answer.split_at(i);
        let mut r = XmlReplayer::new();
        let mut out = Vec::new();
        r.push(a, &mut out);
        r.push(b, &mut out);
        r.finish(&mut out);
        assert_eq!(out.len(), whole.len());
    }
}

#[test]
fn reasoning_in_many_bytes_per_character() {
    let input = "<think>思考过程很长，需要一步一步来</think>好";
    assert_eq!(run(input), vec!["R:思考过程很长，需要一步一步来", "D:好"]);
    assert_eq!(run_streamed(input), run(input));
}

#[test]
fn function_block_waits_for_the_end_of_its_tag() {
    assert_eq!(run("<function name=\"f"), vec!["D:<function name=\"f"]);
    assert_eq!(
        run("<function name=\"f\"><param name=\"k\">v"),
        vec!["D:<function name=\"f\"><param name=\"k\">v"]
    );
    assert_eq!(
        run("<function name=\"f\"><param name=\"k\">v</param>"),
        vec!["T:f({\"k\":\"v\"})"]
    );
}

#[test]
fn broken_block_is_dropped() {
    assert_eq!(run("a<function>x</function>b"), vec!["D:a", "D:b"]);
}

#[test]
fn open_think_block_comes_out_at_the_end() {
    assert_eq!(run("<think>"), vec!["R:"]);
    assert_eq!(run("<think>ab"), vec!["R:ab"]);
}

#[test]
fn section_must_end_with_its_mark() {
    assert_eq!(
        run("<function name=\"f\"><param name=\"k\"><![CDATA[x]]></param></function>"),
        vec!["T:f({\"k\":\"x\"})"]
    );
    assert_eq!(
        run("<function name=\"f\"><param name=\"k\"><![CDATA[x]]</param></function>"),
        vec!["T:f({\"k\":\"<![CDATA[x]]\"})"]
    );
}

#[test]
fn a_text_is_joined_to_the_text_before_it_only() {
    let mut r = XmlReplayer::new();
    let mut first = Vec::new();
    r.push("ab", &mut first);
    let mut second = Vec::new();
    r.push("cd", &mut second);
    assert_eq!(first.len(), 1);
    assert_eq!(second.len(), 1);
    r.push("ef", &mut second);
    assert_eq!(second.len(), 1);
    assert!(matches!(&second[0], Flush::Delta(s) if s == "cdef"));
}

#[test]
fn list_is_added_to() {
    let mut r = XmlReplayer::new();
    let mut out = vec![Flush::Delta("old".to_string())];
    r.push("", &mut out);
    assert_eq!(out.len(), 1);
    r.push("new<i>", &mut out);
    assert_eq!(out.len(), 3);
    assert!(matches!(&out[0], Flush::Delta(s) if s == "old"));
    assert!(matches!(&out[1], Flush::Delta(s) if s == "new"));
    assert!(matches!(&out[2], Flush::Delta(s) if s == "<i>"));
    r.push("<think>0123456789", &mut out);
    r.push("", &mut out);
    assert_eq!(out.len(), 4);
    assert!(matches!(&out[3], Flush::Reasoning(s) if s == "012"));
}
