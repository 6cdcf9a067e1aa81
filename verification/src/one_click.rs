//! The one-click request of RFC 8058: what is sent, and what an answer means.

use crate::text::{begins_but_case, begins_ignoring_case, decimal, to_decimal};
use crate::unsubscribe::ONE_CLICK;
use vstd::prelude::*;

verus! {

/// A form to POST: one field with its value.
pub struct OneClickRequest {
    pub url: String,
    /// The `User-Agent` header.
    pub user_agent: String,
    pub field: &'static str,
    pub value: &'static str,
    /// How long to wait for the answer.
    pub timeout_secs: u64,
}

/// How the request ended.
pub enum PostReply {
    /// The list's server answered with this status.
    Answered(u16),
    /// No answer came, for the reason given.
    Failed(String),
}

/// The RFC 8058 one-click request for a list's https handle: a POST of
/// `List-Unsubscribe=One-Click`, under the given user agent. A handle that is not
/// https gets none.
pub fn one_click_post(url: &str, user_agent: &str) -> (r: Result<OneClickRequest, String>)
    ensures
        r is Ok <==> begins_but_case(url@, "https://"@),
        r matches Ok(request) ==> {
            &&& request.url@ == url@
            &&& request.user_agent@ == user_agent@
            &&& request.field@ == "List-Unsubscribe"@
            &&& request.value@ == "One-Click"@
            &&& request.field@ + "="@ + request.value@ == ONE_CLICK@
            &&& request.timeout_secs == 20
        },
        r matches Err(error) ==> error@
            == "the list's unsubscribe handle is not an https address"@,
{
    if !begins_ignoring_case(url, "https://") {
        return Err("the list's unsubscribe handle is not an https address".to_owned());
    }
    proof {
        reveal_strlit("List-Unsubscribe");
        reveal_strlit("=");
        reveal_strlit("One-Click");
        reveal_strlit("List-Unsubscribe=One-Click");
        assert("List-Unsubscribe"@ + "="@ + "One-Click"@ == "List-Unsubscribe=One-Click"@);
    }
    Ok(
        OneClickRequest {
            url: url.to_owned(),
            user_agent: user_agent.to_owned(),
            field: "List-Unsubscribe",
            value: "One-Click",
            timeout_secs: 20,
        },
    )
}

/// What the answer to a one-click request means for the user. Any 2xx status means
/// that the list took the request.
pub fn one_click_answer(reply: PostReply) -> (r: Result<(), String>)
    ensures
        match reply {
            PostReply::Answered(code) => {
                &&& r is Ok <==> 200 <= code <= 299
                &&& r matches Err(error) ==> error@ == "the list's server answered "@ + decimal(
                    code as nat,
                )
            },
            PostReply::Failed(reason) => r matches Err(error) && error@ == reason@,
        },
{
    match reply {
        PostReply::Answered(code) => {
            if 200 <= code && code <= 299 {
                return Ok(());
            }
            let mut error = "the list's server answered ".to_owned();
            error.append(to_decimal(code).as_str());
            Err(error)
        },
        PostReply::Failed(reason) => Err(reason),
    }
}

} // verus!
