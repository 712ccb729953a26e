use minicpm::bytes::find_line_end;
use minicpm::call::{param_value, read_call, typed_value};
use minicpm::decimal::decimal_text;
use minicpm::markup::{decode_xml_entities, extract_attr, read_block, Cdata};
use minicpm::text::{blank, releasable, space, trimmed, without_trailing};
use serde_json::Value;

fn chars(s: &str) -> Vec<char> {
    s.chars().collect()
}

#[test]
fn white_space_is_that_of_the_standard_library() {
    for v in 0..=0x10ffffu32 {
        if let Some(c) = char::from_u32(v) {
            assert_eq!(space(c), c.is_whitespace());
        }
    }
}

#[test]
fn trimmed_as_the_standard_library_does() {
    for s in ["", " ", " a", "a ", "\u{3000}a b\u{a0}\n", "ab"] {
        let t: String = trimmed(&chars(s)).iter().collect();
        assert_eq!(t, s.trim());
        assert_eq!(blank(&chars(s)), s.trim().is_empty());
    }
    let t: String = without_trailing(&chars("a//b//"), '/').iter().collect();
    assert_eq!(t, "a//b");
}

#[test]
fn attributes() {
    assert_eq!(extract_attr("<f name=\"x y\"", "name"), Some("x y".to_string()));
    assert_eq!(extract_attr("<f name='x'", "name"), Some("x".to_string()));
    assert_eq!(extract_attr("<f name='a' name=\"b\"", "name"), Some("b".to_string()));
    assert_eq!(extract_attr("<f name=\"x", "name"), None);
    assert_eq!(extract_attr("<f name='x", "name"), None);
    assert_eq!(extract_attr("<f>", "name"), None);
    assert_eq!(extract_attr("<f k=\"\">", "k"), Some("".to_string()));
}

#[test]
fn entities() {
    assert_eq!(
        decode_xml_entities("&lt;a&gt; &quot;b&quot; &apos;c&apos; &amp; d"),
        "<a> \"b\" 'c' & d"
    );
    assert_eq!(decode_xml_entities("&amp;lt;"), "&lt;");
    assert_eq!(decode_xml_entities("&nbsp; a & b"), "&nbsp; a & b");
    assert_eq!(decode_xml_entities("plain"), "plain");
}

#[test]
fn block_with_its_parameters() {
    let b = read_block(
        Cdata::Strict,
        "<function name=\"f\">x<param name=\"a\">1</param>y<param name='b'>&lt;</param>z",
    )
    .unwrap();
    assert_eq!(b.name, "f");
    assert_eq!(
        b.params,
        vec![
            ("a".to_string(), "1".to_string()),
            ("b".to_string(), "<".to_string()),
        ]
    );
}

#[test]
fn broken_blocks() {
    for raw in [
        "",
        "<function name=\"f\"",
        "<function>",
        "<function name=\"f\"><param>v</param>",
        "<function name=\"f\"><param name=\"k\"",
        "<function name=\"f\"><param name=\"k\">v",
    ] {
        assert!(read_block(Cdata::Lenient, raw).is_none());
        assert!(read_call(Cdata::Lenient, raw).is_none());
    }
}

#[test]
fn sections() {
    let text = |rule: Cdata, value: &str| {
        let raw = format!("<function name=\"f\"><param name=\"k\">{value}</param>");
        read_block(rule, &raw).unwrap().params[0].1.clone()
    };
    for rule in [Cdata::Strict, Cdata::Lenient] {
        assert_eq!(text(rule, "<![CDATA[a]]b]]>"), "a]]b");
        assert_eq!(text(rule, "a]]>"), "a]]>");
    }
    assert_eq!(text(Cdata::Strict, "<![CDATA[a]]"), "<![CDATA[a]]");
    assert_eq!(text(Cdata::Lenient, "<![CDATA[a]]"), "a");
    assert_eq!(text(Cdata::Lenient, "<![CDATA[a]"), "a");
    assert_eq!(text(Cdata::Lenient, "<![CDATA[a"), "a");
}

#[test]
fn quirks_make_no_difference() {
    let good = "<function name=\"f\"><param name=\"k\">a b</param>";
    let collapsed = "<functionname=\"f\"><param name=\"k\">a b</param>";
    let marked = good.replace(' ', "\u{0120}");
    let call = read_call(Cdata::Strict, good);
    assert_eq!(call, Some(("f".to_string(), "{\"k\":\"a b\"}".to_string())));
    assert_eq!(read_call(Cdata::Strict, collapsed), call);
    assert_eq!(read_call(Cdata::Strict, &marked), call);
}

#[test]
fn value_of_a_text() {
    assert_eq!(param_value("42".to_string()), Value::from(42));
    assert_eq!(param_value(" true ".to_string()), Value::Bool(true));
    assert_eq!(param_value("\"x\"".to_string()), Value::from("x"));
    assert_eq!(param_value("x".to_string()), Value::from("x"));
    assert_eq!(param_value(" \u{3000}".to_string()), Value::from(""));
}

#[test]
fn value_for_what_was_read() {
    assert_eq!(typed_value("x".to_string(), Ok(Value::Null)), Value::Null);
    let error = serde_json::from_str::<Value>("{");
    assert!(error.is_err());
    assert_eq!(typed_value("x".to_string(), error), Value::from("x"));
}

#[test]
fn decimal_notation() {
    for n in [0, 7, 10, 99, 100, 4294967295, 18446744073709551615u64] {
        assert_eq!(decimal_text(n), n.to_string());
    }
}

#[test]
fn line_ends() {
    assert_eq!(find_line_end(b"ab\ncd\n"), Some(2));
    assert_eq!(find_line_end(b"\n"), Some(0));
    assert_eq!(find_line_end(b"ab"), None);
    assert_eq!(find_line_end(b""), None);
}

#[test]
fn what_can_leave_a_think_block() {
    assert_eq!(releasable(&chars("0123456"), 7), 0);
    assert_eq!(releasable(&chars("0123456789"), 7), 3);
    assert_eq!(releasable(&chars("a北京def"), 7), 1);
}

fn escape(t: &str) -> String {
    t.chars()
        .map(|c| match c {
            '<' => "&lt;".to_string(),
            '>' => "&gt;".to_string(),
            '"' => "&quot;".to_string(),
            '\'' => "&apos;".to_string(),
            '&' => "&amp;".to_string(),
            c => c.to_string(),
        })
        .collect()
}

#[test]
fn decoding_undoes_escaping() {
    for t in ["", "plain", "<a href=\"x\">'&'</a>", "&lt;", "&amp;lt;", "&amp;amp;&", "&&gt;<;"] {
        assert_eq!(decode_xml_entities(&escape(t)), t);
    }
}

#[test]
fn arguments_tag_makes_no_difference() {
    let open = "<function name=\"f\">";
    for params in [
        "",
        "<param name=\"k\">v</param>",
        "<param name=\"k\">1</param> <param name='l'><![CDATA[<]]></param>",
        "<functionname=<param name=\"k\">a\u{0120}b</param>",
        "<param name=\"k\">v",
        "<param name=\"k\"",
        "<param name=\"k",
        "<param",
    ] {
        for rule in [Cdata::Strict, Cdata::Lenient] {
            let wrapped = format!("{open}<arguments>{params}</arguments>");
            assert_eq!(read_call(rule, &wrapped), read_call(rule, &format!("{open}{params}")));
        }
    }
}
