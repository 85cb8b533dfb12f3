//! Short answers of the management interface.
use vstd::prelude::*;
use crate::http::responses::{CachePolicy, json_response, text_response};
use crate::text::{copy_text, decimal};

verus! {

/// An answer: what was done, or why not.
pub enum Reply {
    Done { result: String },
    Refused { code: i32, msg: String },
}

/// The model of an answer.
pub enum ReplyModel {
    Done { result: Seq<char> },
    Refused { code: int, msg: Seq<char> },
}

impl View for Reply {
    type V = ReplyModel;

    open spec fn view(&self) -> ReplyModel {
        match self {
            Reply::Done { result } => ReplyModel::Done { result: result@ },
            Reply::Refused { code, msg } => ReplyModel::Refused { code: *code as int, msg: msg@ },
        }
    }
}

/// An answer that something was done.
pub fn done(result: &str) -> (r: Reply)
    ensures
        r@ == (ReplyModel::Done { result: result@ }),
{
    Reply::Done { result: copy_text(result) }
}

/// An answer that something was not done.
pub fn refused(code: i32, msg: &str) -> (r: Reply)
    ensures
        r@ == (ReplyModel::Refused { code: code as int, msg: msg@ }),
{
    Reply::Refused { code, msg: copy_text(msg) }
}

/// The JSON text of an object with a number and a text under the given names.
pub uninterp spec fn json_object(
    number_name: Seq<char>,
    number: int,
    name: Seq<char>,
    text: Seq<char>,
) -> Seq<char>;

/// A number with its sign.
pub open spec fn signed(n: int) -> Seq<char> {
    if n < 0 {
        "-"@ + decimal(-n)
    } else {
        decimal(n)
    }
}

/// Whether JSON writes a text as it is: without control characters, quotation
/// marks and backslashes.
pub open spec fn is_plain(text: Seq<char>) -> bool {
    forall|i: int|
        0 <= i < text.len() ==> {
            let c = #[trigger] text[i];
            c as int >= 0x20 && c != '"' && c != '\\'
        }
}

/// The lines of an object with a number and a text that is written as it is.
pub open spec fn plain_object(
    number_name: Seq<char>,
    number: int,
    name: Seq<char>,
    text: Seq<char>,
) -> Seq<char> {
    "{\n  \""@ + number_name + "\": "@ + signed(number) + ",\n  \""@ + name + "\": \""@ + text + "\"\n}"@
}

/// `serde_json::to_string_pretty` of an object with a number and a text: each
/// field stands on a line of its own, indented by two spaces. How other
/// characters are escaped is left to the name.
#[verifier::external_body]
fn write_object(number_name: &str, number: i32, name: &str, text: &str) -> (r: String)
    requires
        number_name@ == "code"@,
        name@ == "msg"@ || name@ == "result"@,
    ensures
        r@ == json_object(number_name@, number as int, name@, text@),
        is_plain(text@) ==> r@ == plain_object(number_name@, number as int, name@, text@),
{
    let mut object = serde_json::Map::new();
    object.insert(number_name.to_string(), serde_json::Value::from(number));
    object.insert(name.to_string(), serde_json::Value::from(text));
    serde_json::to_string_pretty(&serde_json::Value::Object(object)).unwrap_or_default()
}

/// The JSON text of an answer.
pub open spec fn reply_text(r: ReplyModel) -> Seq<char> {
    match r {
        ReplyModel::Done { result } => json_object("code"@, 0, "result"@, result),
        ReplyModel::Refused { code, msg } => json_object("code"@, code, "msg"@, msg),
    }
}

/// Whether every text of an answer is written as it is.
pub open spec fn reply_is_plain(r: ReplyModel) -> bool {
    match r {
        ReplyModel::Done { result } => is_plain(result),
        ReplyModel::Refused { code, msg } => is_plain(msg),
    }
}

/// The JSON text of an answer.
pub fn reply_json(reply: &Reply) -> (r: String)
    ensures
        r@ == reply_text(reply@),
        reply_is_plain(reply@) ==> r@ == match reply@ {
            ReplyModel::Done { result } => plain_object("code"@, 0, "result"@, result),
            ReplyModel::Refused { code, msg } => plain_object("code"@, code, "msg"@, msg),
        },
{
    match reply {
        Reply::Done { result } => write_object("code", 0, "result", result.as_str()),
        Reply::Refused { code, msg } => write_object("code", *code, "msg", msg.as_str()),
    }
}

/// The response with an answer.
pub fn reply_response(reply: &Reply) -> (r: String)
    ensures
        r@ == text_response("application/json"@, reply_text(reply@), false, CachePolicy::Unsaid),
{
    let body = reply_json(reply);
    json_response(body.as_str())
}

} // verus!
