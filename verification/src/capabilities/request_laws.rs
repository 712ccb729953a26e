//! What holds of a request, and of where it goes.

use vstd::prelude::*;

use crate::capabilities::provider::chat_url;
use crate::capabilities::request::with_window;
use crate::json::{member, Json};
use crate::text_laws::law_trim_end_char;

verus! {

/// A request gets the window into its options; every other member of it, and
/// every other option, stays as it is.
pub proof fn law_window_set(body: Map<Seq<char>, Json>, n: u32)
    ensures
        ({
            let r = with_window(Json::Object(body), n);
            &&& r is Object
            &&& forall|k: Seq<char>|
                k != "options"@ ==> #[trigger] member(r, k) == member(Json::Object(body), k)
            &&& match member(Json::Object(body), "options"@) {
                None => member(r, "options"@) matches Some(o) && member(o, "num_ctx"@) == Some(
                    Json::Natural(n as u64),
                ) && forall|k: Seq<char>| k != "num_ctx"@ ==> #[trigger] member(o, k) is None,
                Some(Json::Object(old)) => member(r, "options"@) matches Some(o) && member(
                    o,
                    "num_ctx"@,
                ) == Some(Json::Natural(n as u64)) && forall|k: Seq<char>|
                    k != "num_ctx"@ ==> #[trigger] member(o, k) == member(Json::Object(old), k),
                Some(other) => member(r, "options"@) == Some(other),
            }
        }),
{
}

/// What is no object stays as it is.
pub proof fn law_no_request(body: Json, n: u32)
    requires
        !(body is Object),
    ensures
        with_window(body, n) == body,
{
}

/// Requests go to `/api/chat` behind the address of the server, and slashes
/// behind that address make no difference.
pub proof fn law_chat_url(base: Seq<char>)
    ensures
        base.len() == 0 || base.last() != '/' ==> chat_url(base) == base + "/api/chat"@,
        chat_url(base.push('/')) == chat_url(base),
{
    law_trim_end_char(base, '/');
}

} // verus!
