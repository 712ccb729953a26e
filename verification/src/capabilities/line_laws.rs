//! What holds of a line of the answer's body, in terms of its JSON.

use vstd::prelude::*;

use crate::capabilities::chat_line::line_of;
use crate::json::{json_text, member, Json};

verus! {

/// An object has the members that it has, and nothing else has any.
pub proof fn law_member(j: Json, key: Seq<char>)
    ensures
        j matches Json::Object(m) ==> (m.contains_key(key) ==> member(j, key) == Some(m[key])) && (
        !m.contains_key(key) ==> member(j, key) is None),
        !(j is Object) ==> member(j, key) is None,
{
}

/// A line reports an error where it has one that is a text.
pub proof fn law_error_of_line(j: Json)
    ensures
        match member(j, "error"@) {
            Some(Json::Text(e)) => line_of(j).error == Some(e),
            _ => line_of(j).error is None,
        },
{
}

/// The answer text and the reasoning of a line are those of its message.
pub proof fn law_texts_of_line(j: Json)
    ensures
        member(j, "message"@) is None ==> line_of(j).content.len() == 0 && line_of(
            j,
        ).thinking.len() == 0,
        member(j, "message"@) matches Some(m) ==> (match member(m, "content"@) {
            Some(Json::Text(s)) => line_of(j).content == s,
            _ => line_of(j).content.len() == 0,
        }) && (match member(m, "thinking"@) {
            Some(Json::Text(s)) => line_of(j).thinking == s,
            _ => line_of(j).thinking.len() == 0,
        }),
{
}

/// A line has one call for each entry of the calls of its message, in their
/// order, whatever else stands in the message.
pub proof fn law_calls_of_line(j: Json)
    ensures
        member(j, "message"@) is None ==> line_of(j).calls.len() == 0,
        member(j, "message"@) matches Some(m) ==> (match member(m, "tool_calls"@) {
            Some(Json::Array(entries)) => {
                let calls = line_of(j).calls;
                &&& calls.len() == entries.len()
                &&& forall|i: int|
                    0 <= i < entries.len() ==> {
                        let call = #[trigger] calls[i];
                        match member(entries[i], "function"@) {
                            None => call.name.len() == 0 && call.arguments == "{}"@,
                            Some(f) => {
                                &&& match member(f, "name"@) {
                                    Some(Json::Text(name)) => call.name == name,
                                    _ => call.name.len() == 0,
                                }
                                &&& match member(f, "arguments"@) {
                                    Some(a) => call.arguments == json_text(a),
                                    None => call.arguments == "{}"@,
                                }
                            },
                        }
                    }
            },
            _ => line_of(j).calls.len() == 0,
        }),
{
}

/// A line completes the answer where it says so, and says then whether the answer
/// had become too long, and how many tokens it took.
pub proof fn law_end_of_line(j: Json)
    ensures
        line_of(j).done <==> member(j, "done"@) == Some(Json::Bool(true)),
        line_of(j).cut_short <==> member(j, "done_reason"@) == Some(Json::Text("length"@)),
        match member(j, "prompt_eval_count"@) {
            Some(Json::Natural(n)) => line_of(j).prompt == n,
            _ => line_of(j).prompt == 0,
        },
        match member(j, "eval_count"@) {
            Some(Json::Natural(n)) => line_of(j).completion == n,
            _ => line_of(j).completion == 0,
        },
{
}

} // verus!
