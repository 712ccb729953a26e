//! A line of the answer's body: one JSON object of the chat protocol.

use serde_json::Value;
use vstd::prelude::*;

use crate::call::CallView;
use crate::json::{contents, contents_of, get, json_text, member, render, Json};
use crate::text::same_text;

verus! {

/// A call that the server has already taken out of the answer.
#[derive(Debug)]
pub struct NativeCall {
    pub name: String,
    pub arguments: String,
}

impl View for NativeCall {
    type V = CallView;

    open spec fn view(&self) -> CallView {
        CallView { name: self.name@, arguments: self.arguments@ }
    }
}

/// The contents of a list of calls.
pub open spec fn call_views(s: Seq<NativeCall>) -> Seq<CallView> {
    s.map_values(|c: NativeCall| c@)
}

/// What the decoder reads of a line.
#[derive(Debug)]
pub struct ChatLine {
    /// The error that the server reports.
    pub error: Option<String>,
    /// The answer text, empty where there is none.
    pub content: String,
    /// The reasoning that the server has already taken out of the answer, empty
    /// where there is none.
    pub thinking: String,
    pub calls: Vec<NativeCall>,
    /// Whether the answer is complete.
    pub done: bool,
    /// Whether the answer ended because it had become too long.
    pub cut_short: bool,
    pub prompt: u64,
    pub completion: u64,
}

/// The mathematical content of a [`ChatLine`].
pub struct LineView {
    pub error: Option<Seq<char>>,
    pub content: Seq<char>,
    pub thinking: Seq<char>,
    pub calls: Seq<CallView>,
    pub done: bool,
    pub cut_short: bool,
    pub prompt: u64,
    pub completion: u64,
}

impl View for ChatLine {
    type V = LineView;

    open spec fn view(&self) -> LineView {
        LineView {
            error: match self.error {
                Some(e) => Some(e@),
                None => None,
            },
            content: self.content@,
            thinking: self.thinking@,
            calls: call_views(self.calls@),
            done: self.done,
            cut_short: self.cut_short,
            prompt: self.prompt,
            completion: self.completion,
        }
    }
}

/// The text of the member `key`.
pub open spec fn text_at(j: Json, key: Seq<char>) -> Option<Seq<char>> {
    match member(j, key) {
        Some(Json::Text(s)) => Some(s),
        _ => None,
    }
}

/// The text of the member `key`, empty where it has none.
pub open spec fn text_or_empty(j: Json, key: Seq<char>) -> Seq<char> {
    match text_at(j, key) {
        Some(s) => s,
        None => Seq::empty(),
    }
}

/// The number of the member `key`, zero where it has none.
pub open spec fn natural_at(j: Json, key: Seq<char>) -> u64 {
    match member(j, key) {
        Some(Json::Natural(n)) => n,
        _ => 0,
    }
}

/// The call that an entry of `tool_calls` makes: without a name the empty one,
/// without arguments an empty object.
pub open spec fn native_call(j: Json) -> CallView {
    match member(j, "function"@) {
        Some(f) => CallView {
            name: text_or_empty(f, "name"@),
            arguments: match member(f, "arguments"@) {
                Some(a) => json_text(a),
                None => "{}"@,
            },
        },
        None => CallView { name: Seq::empty(), arguments: "{}"@ },
    }
}

/// The calls that a message makes.
pub open spec fn native_calls(message: Json) -> Seq<CallView> {
    match member(message, "tool_calls"@) {
        Some(Json::Array(s)) => s.map_values(|j: Json| native_call(j)),
        _ => Seq::empty(),
    }
}

/// What the decoder reads of a line that holds the value `j`.
pub open spec fn line_of(j: Json) -> LineView {
    let message = member(j, "message"@);
    LineView {
        error: text_at(j, "error"@),
        content: match message {
            Some(m) => text_or_empty(m, "content"@),
            None => Seq::empty(),
        },
        thinking: match message {
            Some(m) => text_or_empty(m, "thinking"@),
            None => Seq::empty(),
        },
        calls: match message {
            Some(m) => native_calls(m),
            None => Seq::empty(),
        },
        done: member(j, "done"@) == Some(Json::Bool(true)),
        cut_short: text_at(j, "done_reason"@) == Some("length"@),
        prompt: natural_at(j, "prompt_eval_count"@),
        completion: natural_at(j, "eval_count"@),
    }
}

fn read_text(v: &Value, key: &str) -> (r: Option<String>)
    ensures
        match r {
            Some(s) => text_at(contents(*v), key@) == Some(s@),
            None => text_at(contents(*v), key@) is None,
        },
{
    match get(v, key) {
        Some(x) => match x.as_str() {
            Some(s) => Some(s.to_owned()),
            None => None,
        },
        None => None,
    }
}

fn read_text_or_empty(v: &Value, key: &str) -> (r: String)
    ensures
        r@ == text_or_empty(contents(*v), key@),
{
    match read_text(v, key) {
        Some(s) => s,
        None => String::new(),
    }
}

fn read_natural(v: &Value, key: &str) -> (r: u64)
    ensures
        r == natural_at(contents(*v), key@),
{
    match get(v, key) {
        Some(x) => match x.as_u64() {
            Some(n) => n,
            None => 0,
        },
        None => 0,
    }
}

fn read_flag(v: &Value, key: &str) -> (r: bool)
    ensures
        r == (member(contents(*v), key@) == Some(Json::Bool(true))),
{
    match get(v, key) {
        Some(x) => match x.as_bool() {
            Some(b) => b,
            None => false,
        },
        None => false,
    }
}

fn read_native_call(v: &Value) -> (r: NativeCall)
    ensures
        r@ == native_call(contents(*v)),
{
    match get(v, "function") {
        Some(f) => {
            let name = read_text_or_empty(f, "name");
            let arguments = match get(f, "arguments") {
                Some(a) => render(a),
                None => "{}".to_owned(),
            };
            NativeCall { name, arguments }
        },
        None => NativeCall { name: String::new(), arguments: "{}".to_owned() },
    }
}

fn read_native_calls(message: &Value) -> (r: Vec<NativeCall>)
    ensures
        call_views(r@) == native_calls(contents(*message)),
{
    let mut out: Vec<NativeCall> = Vec::new();
    if let Some(list) = get(message, "tool_calls") {
        if let Some(items) = list.as_array() {
            let ghost all = contents_of(items@);
            for i in 0..items.len()
                invariant
                    all == contents_of(items@),
                    out@.len() == i,
                    forall|k: int| 0 <= k < i ==> (#[trigger] out@[k])@ == native_call(all[k]),
            {
                out.push(read_native_call(&items[i]));
            }
            assert(call_views(out@) =~= all.map_values(|j: Json| native_call(j)));
            return out;
        }
    }
    assert(call_views(out@) =~= Seq::<CallView>::empty());
    out
}

/// Reads what the decoder needs of a line.
pub fn read_line(v: &Value) -> (r: ChatLine)
    ensures
        r@ == line_of(contents(*v)),
{
    let error = read_text(v, "error");
    let mut content = String::new();
    let mut thinking = String::new();
    let mut calls: Vec<NativeCall> = Vec::new();
    assert(call_views(calls@) =~= Seq::<CallView>::empty());
    if let Some(message) = get(v, "message") {
        content = read_text_or_empty(message, "content");
        thinking = read_text_or_empty(message, "thinking");
        calls = read_native_calls(message);
    }
    let cut_short = match read_text(v, "done_reason") {
        Some(s) => same_text(s.as_str(), "length"),
        None => false,
    };
    ChatLine {
        error,
        content,
        thinking,
        calls,
        done: read_flag(v, "done"),
        cut_short,
        prompt: read_natural(v, "prompt_eval_count"),
        completion: read_natural(v, "eval_count"),
    }
}

} // verus!
