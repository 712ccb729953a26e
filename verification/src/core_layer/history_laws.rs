//! What holds of the conversation as the model is shown it.

use vstd::prelude::*;

use crate::core_layer::history::{
    function_xml, functions_xml, param_xml, params_xml, shown_args,     shown_members, shown_value, wire_json, wire_messages, wire_of, ContentView, Message,
    MessageContent, Role, ShownCall, WireView,
};
use crate::core_layer::provider::request_json;
use crate::json::{
    is_listing, json_of, json_text, lemma_listing_unique, listing, member, Json,
};
use crate::text::is_blank;

verus! {

/// A string stands for itself, and any other value is written as JSON.
pub proof fn law_shown_value(v: Json)
    ensures
        v matches Json::Text(s) ==> shown_value(v) == s,
        !(v is Text) ==> shown_value(v) == json_text(v),
{
}

/// The markup shows the members of the arguments, all of them, each once and in
/// the order of their names; arguments that are no object have none.
pub proof fn law_shown_members(arguments_json: Seq<char>, m: Map<Seq<char>, Json>, l: Seq<
    (Seq<char>, Json),
>)
    ensures
        json_of(arguments_json) == Some(Json::Object(m)) && is_listing(m, l) ==> shown_members(
            arguments_json,
        ) == l && shown_args(arguments_json) == m,
        !(json_of(arguments_json) matches Some(Json::Object(_))) ==> shown_members(
            arguments_json,
        ).len() == 0 && shown_args(arguments_json) == Map::<Seq<char>, Json>::empty(),
{
    if json_of(arguments_json) == Some(Json::Object(m)) && is_listing(m, l) {
        assert(is_listing(m, listing(m)));
        lemma_listing_unique(m, l, listing(m));
    }
}

/// The markup of arguments is the markup of each of them, one behind the other.
pub proof fn law_params_markup(members: Seq<(Seq<char>, Json)>, key: Seq<char>, value: Json)
    ensures
        params_xml(Seq::empty()).len() == 0,
        params_xml(members.push((key, value))) == params_xml(members) + ("<param name=\""@ + key
            + "\">"@ + shown_value(value) + "</param>"@),
        param_xml(key, shown_value(value)) == "<param name=\""@ + key + "\">"@ + shown_value(value)
            + "</param>"@,
{
    assert(members.push((key, value)).drop_last() =~= members);
}

/// The markup of a call names the function, and has the markup of the arguments
/// in it.
pub proof fn law_call_markup(name: Seq<char>, arguments_json: Seq<char>)
    ensures
        function_xml(name, arguments_json) == "<function name=\""@ + name + "\"><arguments>"@
            + params_xml(shown_members(arguments_json)) + "</arguments></function>"@,
{
}

/// The markup of calls is the markup of each of them, one behind the other.
pub proof fn law_calls_markup(calls: Seq<ShownCall>, call: ShownCall)
    ensures
        functions_xml(Seq::empty()).len() == 0,
        functions_xml(calls.push(call)) == functions_xml(calls) + function_xml(call.0, call.1),
{
    assert(calls.push(call).drop_last() =~= calls);
}

/// A text is shown as it is, under the name of its role. That of a tool, and a
/// blank one, is not shown.
pub proof fn law_text_shown(role: Role, s: Seq<char>)
    ensures
        role == Role::Tool || is_blank(s) <==> wire_of(role, ContentView::Text(s)) is None,
        wire_of(role, ContentView::Text(s)) matches Some(w) ==> w.content == s,
        wire_of(Role::System, ContentView::Text(s)) matches Some(w) ==> w.role == "system"@,
        wire_of(Role::User, ContentView::Text(s)) matches Some(w) ==> w.role == "user"@,
        wire_of(Role::Assistant, ContentView::Text(s)) matches Some(w) ==> w.role == "assistant"@,
{
}

/// What a tool has given back is always shown, as it is and as the tool's; of a
/// result that is kept elsewhere, its summary.
pub proof fn law_result_shown(role: Role, output: Seq<char>)
    ensures
        wire_of(role, ContentView::ToolResult { output }) matches Some(w) && w.role == "tool"@
            && w.content == output,
        wire_of(role, ContentView::ToolResultRef { summary: output }) matches Some(w) && w.role
            == "tool"@ && w.content == output,
{
}

/// Of a message in parts the text is shown, as it is and as the user's, where it
/// has one that is not empty.
pub proof fn law_parts_shown(role: Role, s: Seq<char>)
    ensures
        s.len() > 0 ==> (wire_of(role, ContentView::MultiPart { text: Some(s) }) matches Some(w)
            && w.role == "user"@ && w.content == s),
        s.len() == 0 ==> wire_of(role, ContentView::MultiPart { text: Some(s) }) is None,
        wire_of(role, ContentView::MultiPart { text: None }) is None,
{
}

/// A turn of the assistant is shown as its text, and behind it the markup of its
/// calls; not where that is blank.
pub proof fn law_turn_shown(role: Role, s: Seq<char>, calls: Seq<ShownCall>)
    ensures
        ({
            let with = wire_of(
                role,
                ContentView::AssistantWithToolCalls { text: Some(s), tool_calls: calls },
            );
            &&& is_blank(s + functions_xml(calls)) <==> with is None
            &&& with matches Some(w) ==> w.role == "assistant"@ && w.content == s + functions_xml(
                calls,
            )
        }),
        ({
            let without = wire_of(
                role,
                ContentView::AssistantWithToolCalls { text: None, tool_calls: calls },
            );
            &&& is_blank(functions_xml(calls)) <==> without is None
            &&& without matches Some(w) ==> w.role == "assistant"@ && w.content == functions_xml(
                calls,
            )
        }),
{
    assert(Seq::<char>::empty() + functions_xml(calls) =~= functions_xml(calls));
}

/// On the wire a message has its role and its content, and nothing else.
pub proof fn law_wire_members(w: WireView, key: Seq<char>)
    ensures
        member(wire_json(w), "role"@) == Some(Json::Text(w.role)),
        member(wire_json(w), "content"@) == Some(Json::Text(w.content)),
        key != "role"@ && key != "content"@ ==> member(wire_json(w), key) is None,
{
    reveal_strlit("role");
    reveal_strlit("content");
    assert("role"@.len() != "content"@.len());
}

/// The messages are shown in their order, each of those that are shown.
pub proof fn law_conversation(a: Seq<Message>, b: Seq<Message>, m: Message)
    ensures
        wire_messages(Seq::empty()).len() == 0,
        wire_messages(seq![m]) == match wire_of(m.role, m.content@) {
            Some(w) => seq![wire_json(w)],
            None => Seq::empty(),
        },
        wire_messages(a + b) == wire_messages(a) + wire_messages(b),
    decreases b.len(),
{
    reveal_with_fuel(wire_messages, 2);
    assert(seq![m].drop_last() =~= Seq::<Message>::empty());
    assert(seq![m].last() == m);
    if let Some(w) = wire_of(m.role, m.content@) {
        assert(Seq::<Json>::empty().push(wire_json(w)) =~= seq![wire_json(w)]);
    }
    if b.len() == 0 {
        assert(a + b =~= a);
        assert(wire_messages(a) + wire_messages(b) =~= wire_messages(a));
    } else {
        assert((a + b).drop_last() =~= a + b.drop_last());
        assert((a + b).last() == b.last());
        law_conversation(a, b.drop_last(), m);
        assert(wire_messages(a + b) =~= wire_messages(a) + wire_messages(b));
    }
}

/// A message that is shown stands behind those before it that are shown.
pub proof fn law_message_kept(messages: Seq<Message>, i: int)
    requires
        0 <= i < messages.len(),
    ensures
        wire_of(messages[i].role, messages[i].content@) matches Some(w) ==> {
            let k = wire_messages(messages.take(i)).len() as int;
            &&& k < wire_messages(messages).len()
            &&& wire_messages(messages)[k] == wire_json(w)
        },
{
    let front = messages.take(i);
    let one = seq![messages[i]];
    let rest = messages.skip(i + 1);
    law_conversation(front, one, messages[i]);
    law_conversation(front + one, rest, messages[i]);
    assert(messages =~= front + one + rest);
}

/// A request names the model, holds all messages in their order, asks for a
/// stream, and holds nothing else.
pub proof fn law_request(model: Seq<char>, messages: Seq<Json>, key: Seq<char>)
    ensures
        ({
            let r = request_json(model, messages);
            &&& member(r, "model"@) == Some(Json::Text(model))
            &&& member(r, "messages"@) == Some(Json::Array(messages))
            &&& member(r, "stream"@) == Some(Json::Bool(true))
            &&& key != "model"@ && key != "messages"@ && key != "stream"@ ==> member(r, key) is None
        }),
{
    reveal_strlit("model");
    reveal_strlit("messages");
    reveal_strlit("stream");
    assert("model"@.len() == 5 && "messages"@.len() == 8 && "stream"@.len() == 6);
}

/// What a tool has given back reaches the server: the request for a conversation
/// holds it, as it is and as the tool's, behind the messages before it.
pub proof fn law_result_sent(model: Seq<char>, messages: Seq<Message>, i: int)
    requires
        0 <= i < messages.len(),
    ensures
        messages[i].content matches MessageContent::ToolResult { output } ==> {
            let list = member(request_json(model, wire_messages(messages)), "messages"@);
            let k = wire_messages(messages.take(i)).len() as int;
            list matches Some(Json::Array(shown)) && k < shown.len() && member(
                shown[k],
                "role"@,
            ) == Some(Json::Text("tool"@)) && member(shown[k], "content"@) == Some(
                Json::Text(output@),
            )
        },
{
    law_message_kept(messages, i);
    law_request(model, wire_messages(messages), Seq::empty());
    if let MessageContent::ToolResult { output } = messages[i].content {
        law_result_shown(messages[i].role, output@);
        law_wire_members(WireView { role: "tool"@, content: output@ }, Seq::empty());
    }
}

} // verus!
