use minicpm::capabilities::replayer::{Flush, XmlReplayer};
use serde_json::Value;

fn run(input: &str) -> Vec<String> {
    let mut r = XmlReplayer::new();
    let mut out = r.push(input);
    out.extend(r.finish());
    out.into_iter()
        .map(|f| match f {
            Flush::Text(s) => format!("T:{}", s),
            Flush::Reasoning(s) => format!("R:{}", s),
            Flush::ToolCall { name, arguments } => format!("C:{}({})", name, arguments),
        })
        .collect()
}

#[test]
fn plain_text() {
    assert_eq!(run("hello"), vec!["T:hello"]);
}

#[test]
fn think_to_reasoning() {
    assert_eq!(
        run("<think>considering</think>done"),
        vec!["R:considering", "T:done"]
    );
}

#[test]
fn function_to_toolcall() {
    let out = run(
        "<function name=\"get_weather\"><arguments>\
         <param name=\"city\">London</param>\
         </arguments></function>",
    );
    assert_eq!(out, vec!["C:get_weather({\"city\":\"London\"})"]);
}

#[test]
fn real_minicpm_output_no_arguments_wrapper() {
    // The parameters may stand without <arguments> around them.
    let out = run("<function name=\"get_weather\"><param name=\"city\">北京</param></function>");
    assert_eq!(out, vec!["C:get_weather({\"city\":\"北京\"})"]);
}

#[test]
fn number_param_typed() {
    let out = run(
        "<function name=\"edit\"><arguments>\
         <param name=\"line\">42</param>\
         </arguments></function>",
    );
    assert_eq!(out, vec!["C:edit({\"line\":42})"]);
}

#[test]
fn cdata_survives() {
    let xml = "<function name=\"write\"><arguments>\
               <param name=\"content\"><![CDATA[if x < 2 {]]></param>\
               </arguments></function>";
    let out = run(xml);
    assert!(out[0].contains("x < 2"));
    // Nothing of the marks of the section is left.
    assert!(!out[0].contains("CDATA"), "CDATA marker leaked: {}", out[0]);
}

#[test]
fn cdata_with_json_content_no_residue() {
    // A JSON value in a CDATA section is read as that value.
    let xml = "<function name=\"write_file\"><arguments>\
               <param name=\"file_path\">config.json</param>\
               <param name=\"content\"><![CDATA[{\"name\":\"minicpm5\",\"version\":\"1.0\"}]]></param>\
               </arguments></function>";
    let out = run(xml);
    assert_eq!(out.len(), 1, "expected one tool call, got: {:?}", out);
    let args_str = &out[0];
    assert!(args_str.starts_with("C:write_file("));
    let args_json = &args_str["C:write_file(".len()..args_str.len() - 1];
    let v: Value = serde_json::from_str(args_json).expect("args must be valid JSON");
    assert_eq!(v["file_path"], "config.json");
    assert_eq!(v["content"]["name"], "minicpm5");
    assert_eq!(v["content"]["version"], "1.0");
}

#[test]
fn malformed_cdata_truncated_ending_still_unwrapped() {
    // The end mark of the section is cut short.
    for bad_ending in ["]", "]]"] {
        let xml = format!(
            "<function name=\"write_file\"><arguments>\
             <param name=\"content\"><![CDATA[hello world{bad_ending}</param>\
             </arguments></function>"
        );
        let out = run(&xml);
        assert_eq!(out.len(), 1, "ending {:?}: got {:?}", bad_ending, out);
        assert!(
            out[0].contains("hello world"),
            "ending {:?}: content lost: {}",
            bad_ending,
            out[0]
        );
        assert!(
            !out[0].contains("CDATA") && !out[0].contains("]\""),
            "ending {:?}: wrapper leaked: {}",
            bad_ending,
            out[0]
        );
    }
}

#[test]
fn functionname_quirk() {
    let out = run(
        "<functionname=\"f\"><arguments><param name=\"k\">v</param></arguments></function>",
    );
    assert_eq!(out, vec!["C:f({\"k\":\"v\"})"]);
}

#[test]
fn bare_less_than_is_text() {
    // A '<' that opens no tag comes out as text, though in two parts.
    let out = run("1 < 2");
    let joined: String = out
        .iter()
        .filter_map(|s| s.strip_prefix("T:"))
        .collect();
    assert_eq!(joined, "1 < 2");
}

#[test]
fn streamed_byte_by_byte_matches_whole() {
    let xml = "<function name=\"f\"><arguments><param name=\"k\">v</param></arguments></function>";
    let mut r1 = XmlReplayer::new();
    let mut o1 = r1.push(xml);
    o1.extend(r1.finish());
    let mut r2 = XmlReplayer::new();
    let mut o2 = Vec::new();
    for c in xml.chars() {
        o2.extend(r2.push(&c.to_string()));
    }
    o2.extend(r2.finish());
    assert_eq!(
        o1.into_iter()
            .map(|f| match f {
                Flush::ToolCall { name, arguments } => format!("{}{}", name, arguments),
                _ => "?".into(),
            })
            .collect::<Vec<_>>(),
        o2.into_iter()
            .map(|f| match f {
                Flush::ToolCall { name, arguments } => format!("{}{}", name, arguments),
                _ => "?".into(),
            })
            .collect::<Vec<_>>(),
    );
}

fn run_chunks(chunks: &[&str]) -> Vec<String> {
    let mut r = XmlReplayer::new();
    let mut out = Vec::new();
    for chunk in chunks {
        out.extend(r.push(chunk));
    }
    out.extend(r.finish());
    out.into_iter()
        .map(|f| match f {
            Flush::Text(s) => format!("T:{}", s),
            Flush::Reasoning(s) => format!("R:{}", s),
            Flush::ToolCall { name, arguments } => format!("C:{}({})", name, arguments),
        })
        .collect()
}

#[test]
fn nothing_comes_of_nothing() {
    assert_eq!(run(""), Vec::<String>::new());
    assert_eq!(run("<think></think>"), Vec::<String>::new());
}

#[test]
fn long_reasoning_leaves_before_its_end() {
    let mut r = XmlReplayer::new();
    let first = r.push("<think>0123456789");
    assert_eq!(first.len(), 1);
    assert!(matches!(&first[0], Flush::Reasoning(s) if s == "012"));
    let second = r.push("</think>x");
    assert_eq!(second.len(), 2);
    assert!(matches!(&second[0], Flush::Reasoning(s) if s == "3456789"));
    assert!(matches!(&second[1], Flush::Text(s) if s == "x"));
}

#[test]
fn reasoning_is_not_cut_within_a_character() {
    // Ten bytes in all, of which seven are held back; the third lies inside of
    // a character of three bytes.
    assert_eq!(run_chunks(&["<think>a北京def", "</think>"]), vec!["R:a", "R:北京def"]);
    let text = "思考过程很长，需要一步一步来";
    let whole = format!("<think>{text}</think>");
    let chunks: Vec<String> = whole.chars().map(|c| c.to_string()).collect();
    let chunks: Vec<&str> = chunks.iter().map(|c| c.as_str()).collect();
    let joined: String = run_chunks(&chunks)
        .iter()
        .filter_map(|s| s.strip_prefix("R:"))
        .collect();
    assert_eq!(joined, text);
}

#[test]
fn end_tag_split_over_chunks() {
    assert_eq!(run_chunks(&["<think>a</thi", "nk>b"]), vec!["R:a", "T:b"]);
    assert_eq!(run_chunks(&["<thi", "nk>a</think>b"]), vec!["R:a", "T:b"]);
}

#[test]
fn open_think_block_ends_with_the_answer() {
    assert_eq!(run("<think>abc"), vec!["R:abc"]);
}

#[test]
fn think_tag_with_attributes() {
    assert_eq!(run("<think mode=\"on\">a</think>b"), vec!["R:a", "T:b"]);
}

#[test]
fn unknown_tag_is_text() {
    assert_eq!(run("a<b>c</b>d"), vec!["T:a", "T:<b>", "T:c", "T:</b>", "T:d"]);
}

#[test]
fn broken_function_block_is_dropped() {
    assert_eq!(run("<function>x</function>y"), vec!["T:y"]);
    assert_eq!(
        run("<function name=\"f\"><param name=\"k\">v</function>y"),
        vec!["T:y"]
    );
}

#[test]
fn function_block_cut_short_by_the_end() {
    assert_eq!(
        run("<function name=\"f\"><param name=\"k\">v</param>"),
        vec!["C:f({\"k\":\"v\"})"]
    );
    assert_eq!(run("<function name=\"f"), vec!["T:<function name=\"f"]);
}

#[test]
fn finished_replayer_is_in_no_block() {
    let mut r = XmlReplayer::new();
    assert!(r.push("<function name=\"f").is_empty());
    assert_eq!(r.finish().len(), 1);
    let next = r.push("x");
    assert_eq!(next.len(), 1);
    assert!(matches!(&next[0], Flush::Text(s) if s == "x"));
}

#[test]
fn space_marker_is_a_space() {
    assert_eq!(
        run("<function\u{0120}name=\"f\"><param\u{0120}name=\"k\">a\u{0120}b</param></function>"),
        vec!["C:f({\"k\":\"a b\"})"]
    );
}

#[test]
fn parameter_values_are_typed() {
    let out = run(
        "<function name='f'><param name='a'>true</param><param name='b'>null</param>\
         <param name='c'>-7</param><param name='d'>1.5</param><param name='e'>[1,\"x\"]</param>\
         <param name='f'>  </param><param name='g'>1 2</param></function>",
    );
    assert_eq!(
        out,
        vec![
            "C:f({\"a\":true,\"b\":null,\"c\":-7,\"d\":1.5,\"e\":[1,\"x\"],\"f\":\"\",\"g\":\"1 2\"})"
        ]
    );
}

#[test]
fn last_of_two_parameters_counts() {
    assert_eq!(
        run("<function name=\"f\"><param name=\"k\">1</param><param name=\"k\">2</param></function>"),
        vec!["C:f({\"k\":2})"]
    );
}

#[test]
fn section_without_end_mark() {
    assert_eq!(
        run("<function name=\"f\"><param name=\"k\"><![CDATA[a & b</param></function>"),
        vec!["C:f({\"k\":\"a & b\"})"]
    );
}

#[test]
fn two_chunks_come_to_the_same_as_one() {
    let answer = "ab<think>cd</think><i>e<function name=\"f\"><param name=\"k\">v</param></function>g";
    let calls = |out: Vec<String>| -> Vec<String> {
        out.into_iter().filter(|s| s.starts_with("C:")).collect()
    };
    let texts = |out: Vec<String>| -> String {
        out.iter().filter_map(|s| s.strip_prefix("T:")).collect()
    };
    for i in 0..answer.len() {
        let (a, b) = answer.split_at(i);
        assert_eq!(calls(run_chunks(&[a, b])), calls(run(answer)));
        assert_eq!(texts(run_chunks(&[a, b])), texts(run(answer)));
    }
}

#[test]
fn empty_chunk_makes_nothing() {
    for answer in ["", "a", "a <", "<think>", "<think>0123456789", "<function name=\"f\">"] {
        let mut r = XmlReplayer::new();
        for f in r.push(answer) {
            assert!(!matches!(&f, Flush::Text(s) | Flush::Reasoning(s) if s.is_empty()));
        }
        assert!(r.push("").is_empty());
    }
}
