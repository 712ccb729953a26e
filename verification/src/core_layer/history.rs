//! The conversation so far, as the model sees it.
//!
//! The model reads plain text only. Calls that it has made are shown to it in
//! the markup that it writes itself.

use serde_json::Value;
use vstd::prelude::*;

use crate::call::{call_of, value_of};
use crate::core_layer::events::ToolCall;
use crate::core_layer::round_trip::{as_read, law_plain_call_read, plain_call, replayable};
use crate::json::{
    contents, contents_of, is_listing, json_of, json_text, lemma_listing_unique, listing,
    member_views, members, object_value, parse, readable, render, scalar_text, text_value, Json,
};
use crate::markup::{decoded, unwrapped, Cdata};
use crate::text::{blank, chars_of, is_blank};

verus! {

/// Who a message is from.
#[derive(Clone, Copy, Debug, PartialEq, Eq, Structural)]
pub enum Role {
    System,
    User,
    Assistant,
    Tool,
}

/// What a message holds, as far as the model is shown it.
#[derive(Debug)]
pub enum MessageContent {
    Text(String),
    AssistantWithToolCalls { text: Option<String>, tool_calls: Vec<ToolCall> },
    ToolResult { output: String },
    ToolResultRef { summary: String },
    MultiPart { text: Option<String> },
}

/// A message of the conversation.
#[derive(Debug)]
pub struct Message {
    pub role: Role,
    pub content: MessageContent,
}

/// A call as the markup shows it: the name of the function, and the arguments
/// as JSON text.
pub type ShownCall = (Seq<char>, Seq<char>);

/// The contents of a list of calls.
pub open spec fn shown_calls(s: Seq<ToolCall>) -> Seq<ShownCall> {
    s.map_values(|c: ToolCall| (c.name@, c.arguments@))
}

/// The mathematical content of a [`MessageContent`].
pub enum ContentView {
    Text(Seq<char>),
    AssistantWithToolCalls { text: Option<Seq<char>>, tool_calls: Seq<ShownCall> },
    ToolResult { output: Seq<char> },
    ToolResultRef { summary: Seq<char> },
    MultiPart { text: Option<Seq<char>> },
}

/// The mathematical content of a text that may be absent.
pub open spec fn text_view(s: Option<String>) -> Option<Seq<char>> {
    match s {
        Some(t) => Some(t@),
        None => None,
    }
}

impl View for MessageContent {
    type V = ContentView;

    open spec fn view(&self) -> ContentView {
        match self {
            MessageContent::Text(s) => ContentView::Text(s@),
            MessageContent::AssistantWithToolCalls { text, tool_calls } =>
                ContentView::AssistantWithToolCalls {
                text: text_view(*text),
                tool_calls: shown_calls(tool_calls@),
            },
            MessageContent::ToolResult { output } => ContentView::ToolResult { output: output@ },
            MessageContent::ToolResultRef { summary } => ContentView::ToolResultRef {
                summary: summary@,
            },
            MessageContent::MultiPart { text } => ContentView::MultiPart {
                text: text_view(*text),
            },
        }
    }
}

/// The text that stands for the value of an argument: a string stands for
/// itself, anything else is written as JSON.
pub open spec fn shown_value(v: Json) -> Seq<char> {
    match v {
        Json::Text(s) => s,
        _ => json_text(v),
    }
}

/// The markup of an argument.
pub open spec fn param_xml(key: Seq<char>, value: Seq<char>) -> Seq<char> {
    "<param name=\""@ + key + "\">"@ + value + "</param>"@
}

/// The markup of the arguments, in their order.
pub open spec fn params_xml(members: Seq<(Seq<char>, Json)>) -> Seq<char>
    decreases members.len(),
{
    if members.len() == 0 {
        Seq::empty()
    } else {
        params_xml(members.drop_last()) + param_xml(
            members.last().0,
            shown_value(members.last().1),
        )
    }
}

/// The value that a parameter with the text of `v` stands for is `v`.
pub open spec fn survives(rule: Cdata, v: Json) -> bool {
    value_of(decoded(unwrapped(rule, shown_value(v)))) == v
}

/// `v` is written as JSON that can be read back, and the markup leaves that text
/// as it is.
pub open spec fn kept(v: Json) -> bool {
    !(v is Text) && readable(v, 127) && decoded(shown_value(v)) == shown_value(v)
}

/// What is written as JSON survives the way through the markup, and null, truth
/// values and integers are written as such.
pub open spec fn well_shown(v: Json) -> bool {
    &&& kept(v) ==> survives(Cdata::Strict, v) && survives(Cdata::Lenient, v)
    &&& scalar_text(v) matches Some(t) ==> shown_value(v) == t
}

/// The values of all members are shown well.
pub open spec fn all_well_shown(members: Seq<(Seq<char>, Json)>) -> bool {
    forall|i: int| 0 <= i < members.len() ==> well_shown((#[trigger] members[i]).1)
}

/// The members of a value, ordered by name; none where it is no object.
pub open spec fn members_of(v: Json) -> Seq<(Seq<char>, Json)> {
    match v {
        Json::Object(m) => listing(m),
        _ => Seq::empty(),
    }
}

/// The members that the markup of a call shows: those of the arguments where
/// they are an object, none where they are not.
pub open spec fn shown_members(arguments_json: Seq<char>) -> Seq<(Seq<char>, Json)> {
    match json_of(arguments_json) {
        Some(v) => members_of(v),
        None => Seq::empty(),
    }
}

/// The arguments that the markup of a call shows: none where they are no
/// object.
pub open spec fn shown_args(arguments_json: Seq<char>) -> Map<Seq<char>, Json> {
    match json_of(arguments_json) {
        Some(Json::Object(m)) => m,
        _ => Map::empty(),
    }
}

/// The markup of a call of `name`, around the markup of its arguments.
pub open spec fn call_xml(name: Seq<char>, params: Seq<char>) -> Seq<char> {
    "<function name=\""@ + name + "\"><arguments>"@ + params + "</arguments></function>"@
}

/// The markup of a call.
pub open spec fn function_xml(name: Seq<char>, arguments_json: Seq<char>) -> Seq<char> {
    call_xml(name, params_xml(shown_members(arguments_json)))
}

/// The markup of calls, one behind the other.
pub open spec fn functions_xml(calls: Seq<ShownCall>) -> Seq<char>
    decreases calls.len(),
{
    if calls.len() == 0 {
        Seq::empty()
    } else {
        functions_xml(calls.drop_last()) + function_xml(calls.last().0, calls.last().1)
    }
}

/// A message on the wire: the name of the role, and the text.
pub struct WireView {
    pub role: Seq<char>,
    pub content: Seq<char>,
}

/// A text that may be absent, empty where it is.
pub open spec fn or_empty(s: Option<Seq<char>>) -> Seq<char> {
    match s {
        Some(t) => t,
        None => Seq::empty(),
    }
}

/// The name of a role on the wire.
pub open spec fn role_name(r: Role) -> Seq<char> {
    match r {
        Role::System => "system"@,
        Role::User => "user"@,
        Role::Assistant => "assistant"@,
        Role::Tool => "tool"@,
    }
}

/// The message as the model is shown it; nothing where it has no text to show.
pub open spec fn wire_of(role: Role, content: ContentView) -> Option<WireView> {
    match content {
        ContentView::Text(s) => if role == Role::Tool || is_blank(s) {
            None
        } else {
            Some(WireView { role: role_name(role), content: s })
        },
        ContentView::AssistantWithToolCalls { text, tool_calls } => {
            let content = or_empty(text) + functions_xml(tool_calls);
            if is_blank(content) {
                None
            } else {
                Some(WireView { role: "assistant"@, content })
            }
        },
        ContentView::ToolResult { output } => Some(WireView { role: "tool"@, content: output }),
        ContentView::ToolResultRef { summary } => Some(
            WireView { role: "tool"@, content: summary },
        ),
        ContentView::MultiPart { text } => if or_empty(text).len() == 0 {
            None
        } else {
            Some(WireView { role: "user"@, content: or_empty(text) })
        },
    }
}

/// A message on the wire, as JSON.
pub open spec fn wire_json(w: WireView) -> Json {
    Json::Object(
        Map::empty().insert("role"@, Json::Text(w.role)).insert("content"@, Json::Text(w.content)),
    )
}

/// The messages that the model is shown, in their order.
pub open spec fn wire_messages(messages: Seq<Message>) -> Seq<Json>
    decreases messages.len(),
{
    if messages.len() == 0 {
        Seq::empty()
    } else {
        let front = wire_messages(messages.drop_last());
        match wire_of(messages.last().role, messages.last().content@) {
            Some(w) => front.push(wire_json(w)),
            None => front,
        }
    }
}

/// Writes the text that stands for the value of an argument.
pub fn show_value(v: &Value) -> (r: String)
    ensures
        r@ == shown_value(contents(*v)),
        well_shown(contents(*v)),
{
    match v.as_str() {
        Some(s) => s.to_owned(),
        None => {
            let text = render(v);
            proof {
                reveal_strlit("<![CDATA[");
                assert(!"<![CDATA["@.is_prefix_of(text@)) by {
                    if "<![CDATA["@.is_prefix_of(text@) {
                        assert(text@[0] == "<![CDATA["@[0]);
                    }
                }
                assert(!is_blank(text@));
            }
            text
        },
    }
}

/// Writes the markup of an argument behind `out`.
pub fn append_param(out: &mut String, key: &str, value: &str)
    ensures
        final(out)@ == old(out)@ + param_xml(key@, value@),
{
    out.append("<param name=\"");
    out.append(key);
    out.append("\">");
    out.append(value);
    out.append("</param>");
    assert(out@ =~= old(out)@ + param_xml(key@, value@));
}

/// Writes the markup of the members of `args`.
pub fn show_members(args: &Value) -> (r: String)
    ensures
        r@ == params_xml(members_of(contents(*args))),
        all_well_shown(members_of(contents(*args))),
        contents(*args) matches Json::Object(m) ==> is_listing(m, listing(m)),
{
    let mut params = String::new();
    if let Some(obj) = args.as_object() {
        let list = members(obj);
        let ghost m = contents(*args)->Object_0;
        let ghost all = member_views(list@);
        proof {
            assert(is_listing(m, listing(m)));
            lemma_listing_unique(m, all, listing(m));
            assert(all.take(0) =~= Seq::<(Seq<char>, Json)>::empty());
        }
        for i in 0..list.len()
            invariant
                all == member_views(list@),
                params@ == params_xml(all.take(i as int)),
                all_well_shown(all.take(i as int)),
        {
            let (key, value) = list[i];
            proof {
                assert(all[i as int] == (key@, contents(*value)));
                assert(all.take(i + 1).drop_last() =~= all.take(i as int));
                assert(all.take(i + 1).last() == all[i as int]);
            }
            append_param(&mut params, key.as_str(), show_value(value).as_str());
            proof {
                let seen = all.take(i + 1);
                assert forall|j: int| 0 <= j < seen.len() implies well_shown(
                    (#[trigger] seen[j]).1,
                ) by {
                    if j < i {
                        assert(seen[j] == all.take(i as int)[j]);
                    }
                }
            }
        }
        assert(all.take(all.len() as int) =~= all);
    }
    params
}

/// Writes the markup of a call. Arguments that are no JSON object are shown as
/// none.
///
/// A call of which nothing can be taken for markup is read again as it was, by
/// either rule, and comes out of the replayer as it was.
pub fn render_function_xml(name: &str, arguments_json: &str) -> (r: String)
    ensures
        r@ == function_xml(name@, arguments_json@),
        is_listing(shown_args(arguments_json@), shown_members(arguments_json@)),
        all_well_shown(shown_members(arguments_json@)),
        plain_call((name@, arguments_json@)) ==> {
            let call = (name@, arguments_json@);
            &&& call_of(Cdata::Strict, r@) == Some(as_read(call))
            &&& call_of(Cdata::Lenient, r@) == Some(as_read(call))
            &&& replayable(call)
        },
{
    let params = match parse(arguments_json) {
        Ok(args) => show_members(&args),
        Err(_) => String::new(),
    };
    let mut xml = "<function name=\"".to_owned();
    xml.append(name);
    xml.append("\"><arguments>");
    xml.append(params.as_str());
    xml.append("</arguments></function>");
    proof {
        let call = (name@, arguments_json@);
        assert(xml@ =~= function_xml(name@, arguments_json@));
        if plain_call(call) {
            law_plain_call_read(Cdata::Strict, call);
            law_plain_call_read(Cdata::Lenient, call);
        }
    }
    xml
}

/// A message on the wire.
#[derive(Debug)]
pub struct WireMessage {
    pub role: String,
    pub content: String,
}

impl View for WireMessage {
    type V = WireView;

    open spec fn view(&self) -> WireView {
        WireView { role: self.role@, content: self.content@ }
    }
}

fn is_blank_text(s: &str) -> (r: bool)
    ensures
        r == is_blank(s@),
{
    blank(chars_of(s).as_slice())
}

fn text_or_empty(s: &Option<String>) -> (r: String)
    ensures
        r@ == or_empty(text_view(*s)),
{
    match s {
        Some(t) => t.clone(),
        None => String::new(),
    }
}

/// Writes the message as the model is shown it.
pub fn wire_message(m: &Message) -> (r: Option<WireMessage>)
    ensures
        match r {
            Some(w) => wire_of(m.role, m.content@) == Some(w@),
            None => wire_of(m.role, m.content@) is None,
        },
        match m.content {
            MessageContent::Text(s) => (r is None <==> m.role == Role::Tool || is_blank(s@)) && (
            r matches Some(w) ==> w.content@ == s@),
            MessageContent::ToolResult { output } => r matches Some(w) && w.role@ == "tool"@
                && w.content@ == output@,
            MessageContent::ToolResultRef { summary } => r matches Some(w) && w.role@ == "tool"@
                && w.content@ == summary@,
            MessageContent::MultiPart { text: Some(s) } => (r is None <==> s@.len() == 0) && (
            r matches Some(w) ==> w.role@ == "user"@ && w.content@ == s@),
            MessageContent::MultiPart { text: None } => r is None,
            MessageContent::AssistantWithToolCalls { .. } => r matches Some(w) ==> w.role@
                == "assistant"@,
        },
{
    match &m.content {
        MessageContent::Text(s) => {
            let role = match m.role {
                Role::System => "system",
                Role::User => "user",
                Role::Assistant => "assistant",
                Role::Tool => return None,
            };
            if is_blank_text(s.as_str()) {
                return None;
            }
            Some(WireMessage { role: role.to_owned(), content: s.clone() })
        },
        MessageContent::AssistantWithToolCalls { text, tool_calls } => {
            let mut content = text_or_empty(text);
            let ghost before = content@;
            let ghost all = shown_calls(tool_calls@);
            proof {
                assert(all.take(0) =~= Seq::<ShownCall>::empty());
                assert(before + functions_xml(all.take(0)) =~= before);
            }
            for i in 0..tool_calls.len()
                invariant
                    all == shown_calls(tool_calls@),
                    content@ == before + functions_xml(all.take(i as int)),
            {
                let call = &tool_calls[i];
                proof {
                    assert(all[i as int] == (call.name@, call.arguments@));
                    assert(all.take(i + 1).drop_last() =~= all.take(i as int));
                    assert(all.take(i + 1).last() == all[i as int]);
                }
                content.append(
                    render_function_xml(call.name.as_str(), call.arguments.as_str()).as_str(),
                );
                assert(content@ =~= before + functions_xml(all.take(i + 1)));
            }
            assert(all.take(all.len() as int) =~= all);
            if is_blank_text(content.as_str()) {
                return None;
            }
            Some(WireMessage { role: "assistant".to_owned(), content })
        },
        MessageContent::ToolResult { output } => Some(
            WireMessage { role: "tool".to_owned(), content: output.clone() },
        ),
        MessageContent::ToolResultRef { summary } => Some(
            WireMessage { role: "tool".to_owned(), content: summary.clone() },
        ),
        MessageContent::MultiPart { text } => {
            let content = text_or_empty(text);
            if content.as_str().is_empty() {
                return None;
            }
            Some(WireMessage { role: "user".to_owned(), content })
        },
    }
}

/// The message as JSON.
pub fn wire_value(w: WireMessage) -> (r: Value)
    ensures
        contents(r) == wire_json(w@),
{
    let mut m = serde_json::Map::new();
    m.insert("role".to_owned(), text_value(w.role));
    m.insert("content".to_owned(), text_value(w.content));
    object_value(m)
}

/// Writes the conversation as the model is shown it.
pub fn wire_values(messages: &[Message]) -> (r: Vec<Value>)
    ensures
        contents_of(r@) == wire_messages(messages@),
{
    let mut out: Vec<Value> = Vec::new();
    assert(contents_of(out@) =~= wire_messages(messages@.take(0)));
    for i in 0..messages.len()
        invariant
            contents_of(out@) == wire_messages(messages@.take(i as int)),
    {
        let ghost seen = contents_of(out@);
        proof {
            assert(messages@.take(i + 1).drop_last() =~= messages@.take(i as int));
            assert(messages@.take(i + 1).last() == messages@[i as int]);
        }
        if let Some(w) = wire_message(&messages[i]) {
            let ghost view = w@;
            out.push(wire_value(w));
            assert(contents_of(out@) =~= seen.push(wire_json(view)));
        }
    }
    assert(messages@.take(messages@.len() as int) =~= messages@);
    out
}

} // verus!
