//! The body of a chat request.

use serde_json::Value;
use vstd::prelude::*;

use crate::json::{contents, entries, into_object, number_value, object_value, remove, Json};

verus! {

/// The options of a request with the context window set to `n`. What is no
/// object has no options to set.
pub open spec fn options_with_window(options: Json, n: u32) -> Json {
    match options {
        Json::Object(m) => Json::Object(m.insert("num_ctx"@, Json::Natural(n as u64))),
        _ => options,
    }
}

/// A request with the context window set to `n`, in its options or in new ones
/// where it has none. What is no object is no request.
pub open spec fn with_window(body: Json, n: u32) -> Json {
    match body {
        Json::Object(m) => {
            let options = if m.contains_key("options"@) {
                m["options"@]
            } else {
                Json::Object(Map::empty())
            };
            Json::Object(m.insert("options"@, options_with_window(options, n)))
        },
        _ => body,
    }
}

fn set_option(options: Value, n: u32) -> (r: Value)
    ensures
        contents(r) == options_with_window(contents(options), n),
{
    match into_object(options) {
        Ok(m) => {
            let mut m = m;
            m.insert("num_ctx".to_owned(), number_value(n));
            object_value(m)
        },
        Err(other) => other,
    }
}

/// Sets the context window of a request. The server would else serve the model
/// with a window that is too small for the prompt and the tools.
pub fn set_context_window(body: Value, n: u32) -> (r: Value)
    ensures
        contents(r) == with_window(contents(body), n),
{
    match into_object(body) {
        Ok(m) => {
            let mut m = m;
            let ghost all = entries(m);
            let options = match remove(&mut m, "options") {
                Some(v) => v,
                None => object_value(serde_json::Map::new()),
            };
            let options = set_option(options, n);
            let ghost set = contents(options);
            m.insert("options".to_owned(), options);
            assert(all.remove("options"@).insert("options"@, set) =~= all.insert(
                "options"@,
                set,
            ));
            object_value(m)
        },
        Err(other) => other,
    }
}

} // verus!
