//! From a function block to the call that it makes.

use serde_json::Value;
use vstd::prelude::*;

use crate::json::{
    contents, entries, json_of, json_text, object_value, parse, readable, render, text_value,
    Json,
};
use crate::markup::{block_of, param_views, read_block, Block, Cdata, ParamView};
use crate::text::{blank, chars_of, is_blank};

verus! {

/// The value that the text of a parameter stands for: the JSON value where it
/// is one, the text itself where not, and the empty text where it is blank.
pub open spec fn value_of(text: Seq<char>) -> Json {
    if is_blank(text) {
        Json::Text(Seq::empty())
    } else {
        match json_of(text) {
            Some(j) => j,
            None => Json::Text(text),
        }
    }
}

/// The arguments that the parameters make. Of two parameters with one name the
/// last counts.
pub open spec fn args_of(params: Seq<ParamView>) -> Map<Seq<char>, Json>
    decreases params.len(),
{
    if params.len() == 0 {
        Map::empty()
    } else {
        args_of(params.drop_last()).insert(params.last().0, value_of(params.last().1))
    }
}

/// A call: the name of the function, and the arguments as JSON text.
pub struct CallView {
    pub name: Seq<char>,
    pub arguments: Seq<char>,
}

/// The call that a function block makes; nothing where the block is broken.
pub open spec fn call_of(rule: Cdata, raw: Seq<char>) -> Option<CallView> {
    match block_of(rule, raw) {
        Some(b) => Some(
            CallView { name: b.name, arguments: json_text(Json::Object(args_of(b.params))) },
        ),
        None => None,
    }
}

/// `arguments` is the text of the object that the parameters of a function block
/// make, as far as that object can be read back.
pub open spec fn reads_back(rule: Cdata, raw: Seq<char>, arguments: Seq<char>) -> bool {
    block_of(rule, raw) matches Some(b) ==> {
        let args = Json::Object(args_of(b.params));
        readable(args, 127) ==> json_of(arguments) == Some(args)
    }
}

/// The value for a text that is not blank, given what reading it as JSON came
/// to.
pub fn typed_value(text: String, read: Result<Value, serde_json::Error>) -> (r: Value)
    ensures
        contents(r) == (match read {
            Ok(v) => contents(v),
            Err(_) => Json::Text(text@),
        }),
{
    match read {
        Ok(v) => v,
        Err(_) => text_value(text),
    }
}

/// The value that the text of a parameter stands for.
pub fn param_value(text: String) -> (r: Value)
    ensures
        contents(r) == value_of(text@),
        !is_blank(text@) ==> contents(r) == (match json_of(text@) {
            Some(j) => j,
            None => Json::Text(text@),
        }),
        is_blank(text@) ==> contents(r) == Json::Text(Seq::empty()),
{
    if blank(chars_of(text.as_str()).as_slice()) {
        return text_value(String::new());
    }
    let read = parse(text.as_str());
    typed_value(text, read)
}

/// Writes the arguments that the parameters make.
pub fn arguments_text(params: Vec<(String, String)>) -> (r: String)
    ensures
        r@ == json_text(Json::Object(args_of(param_views(params@)))),
        readable(Json::Object(args_of(param_views(params@))), 127) ==> json_of(r@) == Some(
            Json::Object(args_of(param_views(params@))),
        ),
{
    let mut args = serde_json::Map::new();
    let ghost all = param_views(params@);
    for param in it: params
        invariant
            param_views(it.seq()) == all,
            entries(args) == args_of(all.take(it.index())),
    {
        let (name, text) = param;
        proof {
            let i = it.index();
            assert(it.seq()[i] == (name, text));
            assert(param_views(it.seq())[i] == (name@, text@));
            assert(all.take(i + 1).drop_last() =~= all.take(i));
            assert(all.take(i + 1).last() == (name@, text@));
        }
        let value = param_value(text);
        args.insert(name, value);
    }
    assert(all.take(all.len() as int) =~= all);
    render(&object_value(args))
}

/// Reads the call that a function block makes.
pub fn read_call(rule: Cdata, raw: &str) -> (r: Option<(String, String)>)
    ensures
        match r {
            Some((name, arguments)) => call_of(rule, raw@) == Some(
                CallView { name: name@, arguments: arguments@ },
            ) && reads_back(rule, raw@, arguments@),
            None => call_of(rule, raw@) is None,
        },
{
    match read_block(rule, raw) {
        Some(block) => {
            let Block { name, params } = block;
            Some((name, arguments_text(params)))
        },
        None => None,
    }
}

} // verus!
