//! The JSON bodies of the answers to the login and registration forms.
use vstd::prelude::*;
use vstd::string::StringExecFns;
use crate::json::{json_quote, json_quoted};

verus! {

/// A JSON object with a response type and a message, in that order.
pub open spec fn response_json(response_type: Seq<char>, message: Seq<char>) -> Seq<char> {
    "{\"response_type\":"@ + json_quoted(response_type) + ",\"message\":"@ + json_quoted(message) + "}"@
}

fn response_body(response_type: &str, message: &str) -> (r: String)
    ensures
        r@ == response_json(response_type@, message@),
{
    let mut body = String::from_str("{\"response_type\":");
    let t = json_quote(response_type);
    body.append(t.as_str());
    body.append(",\"message\":");
    let m = json_quote(message);
    body.append(m.as_str());
    body.append("}");
    body
}

/// The answer that reports how a login or registration went.
pub fn resp_log_reg_status(data: &str) -> (r: String)
    ensures
        r@ == response_json("log_reg_status"@, data@),
{
    response_body("log_reg_status", data)
}

/// The answer that hands a logged-in user their session id.
pub fn resp_give_uuid(uuid: String) -> (r: String)
    ensures
        r@ == response_json("uuid"@, uuid@),
{
    response_body("uuid", uuid.as_str())
}

} // verus!
