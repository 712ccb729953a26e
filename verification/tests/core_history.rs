use minicpm::core_layer::events::ToolCall;
use minicpm::core_layer::history::{render_function_xml, Message, MessageContent, Role};
use minicpm::core_layer::provider::MinicpmProvider;
use minicpm::core_layer::replayer::{parse_function_block, Flush, XmlReplayer};
use serde_json::Value;

fn text(role: Role, s: &str) -> Message {
    Message { role, content: MessageContent::Text(s.to_string()) }
}

fn call(name: &str, arguments: &str) -> ToolCall {
    ToolCall {
        id: "call_1".to_string(),
        name: name.to_string(),
        arguments: arguments.to_string(),
    }
}

fn shown(messages: &[Message]) -> Vec<(String, String)> {
    MinicpmProvider::format_messages(messages)
        .iter()
        .map(|v| {
            let m = v.as_object().unwrap();
            assert_eq!(m.len(), 2);
            (
                m["role"].as_str().unwrap().to_string(),
                m["content"].as_str().unwrap().to_string(),
            )
        })
        .collect()
}

fn pair(role: &str, content: &str) -> (String, String) {
    (role.to_string(), content.to_string())
}

#[test]
fn texts_keep_their_role() {
    let messages = [
        text(Role::System, "s"),
        text(Role::User, " u "),
        text(Role::Assistant, "a"),
        text(Role::Tool, "t"),
        text(Role::User, " \n\t"),
    ];
    assert_eq!(
        shown(&messages),
        vec![pair("system", "s"), pair("user", " u "), pair("assistant", "a")]
    );
}

#[test]
fn results_are_from_the_tool() {
    let messages = [
        Message {
            role: Role::Tool,
            content: MessageContent::ToolResult { output: "".to_string() },
        },
        Message {
            role: Role::Tool,
            content: MessageContent::ToolResultRef { summary: "sum".to_string() },
        },
    ];
    assert_eq!(shown(&messages), vec![pair("tool", ""), pair("tool", "sum")]);
}

#[test]
fn parts_are_from_the_user() {
    let part = |text: Option<&str>| Message {
        role: Role::User,
        content: MessageContent::MultiPart { text: text.map(|s| s.to_string()) },
    };
    assert_eq!(
        shown(&[part(None), part(Some("")), part(Some(" "))]),
        vec![pair("user", " ")]
    );
}

#[test]
fn calls_are_shown_behind_the_text() {
    let turn = |text: Option<&str>, tool_calls: Vec<ToolCall>| Message {
        role: Role::Assistant,
        content: MessageContent::AssistantWithToolCalls {
            text: text.map(|s| s.to_string()),
            tool_calls,
        },
    };
    assert_eq!(
        shown(&[
            turn(Some("ok "), vec![call("f", "{\"k\":\"v\"}"), call("g", "")]),
            turn(Some("  "), vec![]),
            turn(None, vec![]),
        ]),
        vec![pair(
            "assistant",
            "ok <function name=\"f\"><arguments><param name=\"k\">v</param></arguments></function>\
             <function name=\"g\"><arguments></arguments></function>"
        )]
    );
}

#[test]
fn strings_stand_for_themselves() {
    assert_eq!(
        render_function_xml("f", "{\"b\":\"x y\",\"a\":[1,true,null],\"c\":{\"d\":\"e\"}}"),
        "<function name=\"f\"><arguments><param name=\"a\">[1,true,null]</param>\
         <param name=\"b\">x y</param><param name=\"c\">{\"d\":\"e\"}</param></arguments></function>"
    );
}

#[test]
fn arguments_that_are_no_object_are_not_shown() {
    let none = "<function name=\"f\"><arguments></arguments></function>";
    assert_eq!(render_function_xml("f", "[1]"), none);
    assert_eq!(render_function_xml("f", "not json"), none);
    assert_eq!(render_function_xml("f", "{}"), none);
}

#[test]
fn members_are_shown_in_the_order_of_their_names() {
    assert_eq!(
        render_function_xml("f", "{\"é\":1,\"z\":2,\"ab\":3,\"a\":4,\"\":5}"),
        "<function name=\"f\"><arguments><param name=\"\">5</param><param name=\"a\">4</param>\
         <param name=\"ab\">3</param><param name=\"z\">2</param><param name=\"é\">1</param>\
         </arguments></function>"
    );
}

#[test]
fn shown_call_is_read_as_that_call() {
    let arguments = "{\"city\":\"London\",\"days\":[1,2],\"deep\":{\"a\":{\"b\":null}},\"n\":-3,\"s\":\"\"}";
    let xml = render_function_xml("get_weather", arguments);
    let raw = xml.strip_suffix("</function>").unwrap();
    let (name, read) = parse_function_block(raw).unwrap();
    assert_eq!(name, "get_weather");
    assert_eq!(
        serde_json::from_str::<Value>(&read).unwrap(),
        serde_json::from_str::<Value>(arguments).unwrap()
    );
    assert_eq!(render_function_xml(&name, &read), xml);
}

#[test]
fn shown_turn_comes_out_of_the_replayer() {
    let messages = [Message {
        role: Role::Assistant,
        content: MessageContent::AssistantWithToolCalls {
            text: Some("looking. ".to_string()),
            tool_calls: vec![call("f", "{\"k\":1}"), call("g", "{\"k\":\"v\"}")],
        },
    }];
    let content = shown(&messages)[0].1.clone();
    let mut r = XmlReplayer::new();
    let mut out = Vec::new();
    r.push(&content, &mut out);
    r.finish(&mut out);
    assert_eq!(out.len(), 3);
    assert!(matches!(&out[0], Flush::Delta(s) if s == "looking. "));
    assert!(
        matches!(&out[1], Flush::ToolCall { name, arguments } if name == "f" && arguments == "{\"k\":1}")
    );
    assert!(
        matches!(&out[2], Flush::ToolCall { name, arguments } if name == "g" && arguments == "{\"k\":\"v\"}")
    );
}

#[test]
fn values_that_do_not_survive_the_markup() {
    let read = |arguments: &str| {
        let xml = render_function_xml("f", arguments);
        parse_function_block(xml.strip_suffix("</function>").unwrap()).unwrap().1
    };
    assert_eq!(read("{\"k\":\"42\"}"), "{\"k\":42}");
    assert_eq!(read("{\"k\":\"&lt;\"}"), "{\"k\":\"<\"}");
    assert_eq!(read("{\"k\":\" \"}"), "{\"k\":\"\"}");
    assert_eq!(read("{\"k\":\"a</param>b\"}"), "{\"k\":\"a\"}");
}

#[test]
fn reading_undoes_writing() {
    for arguments in [
        "{}",
        "{\"a\":null,\"b\":true,\"c\":false}",
        "{\"max\":18446744073709551615,\"min\":-9223372036854775808,\"zero\":0}",
        "{\"empty\":\"\",\"text\":\"two words\"}",
    ] {
        let xml = render_function_xml("f", arguments);
        let read = Some(("f".to_string(), arguments.to_string()));
        assert_eq!(parse_function_block(&xml), read);
        assert_eq!(parse_function_block(xml.strip_suffix("</function>").unwrap()), read);
    }
}

#[test]
fn words_and_integers_are_written_as_such() {
    assert_eq!(
        render_function_xml("f", "{\"a\": null, \"b\": true, \"c\": -12, \"d\": 120}"),
        "<function name=\"f\"><arguments><param name=\"a\">null</param><param name=\"b\">true</param>\
         <param name=\"c\">-12</param><param name=\"d\">120</param></arguments></function>"
    );
}
