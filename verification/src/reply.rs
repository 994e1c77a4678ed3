//! Replies of the Herdr socket API: a request's reply line, or the
//! acknowledgement of an event subscription, read as results and errors.
use vstd::prelude::*;
use crate::text::{chars_of, string_of_range, trim, trim_bounds};

verus! {

/// A reply line as JSON, read as plain values: whether it holds an `error`,
/// that error's `message` when it is a string, and the JSON text of its
/// `result` when it has one.
#[derive(Debug)]
pub struct Reply {
    pub error: bool,
    pub message: Option<String>,
    pub result: Option<String>,
}

/// The view of an optional text.
pub open spec fn opt_text(o: Option<String>) -> Option<Seq<char>> {
    match o {
        Some(s) => Some(s@),
        None => None,
    }
}

/// A parsed reply as plain values, or the parser's error message.
pub open spec fn reply_view(r: Result<Reply, String>) -> Result<
    (bool, Option<Seq<char>>, Option<Seq<char>>),
    Seq<char>,
> {
    match r {
        Ok(x) => Ok((x.error, opt_text(x.message), opt_text(x.result))),
        Err(e) => Err(e@),
    }
}

/// What `serde_json` makes of a reply line.
pub uninterp spec fn reply_of(line: Seq<char>) -> Result<
    (bool, Option<Seq<char>>, Option<Seq<char>>),
    Seq<char>,
>;

/// Parses `line` with `serde_json::from_str` into a JSON value and reads it
/// as a `Reply`: `error` is whether the value has an `"error"` member, the
/// message is that member's `"message"` when it is a string, the result is
/// the text of the `"result"` member; a line that is not JSON gives the
/// parser's error message. The contract claims only that the outcome is a
/// function of the line (`reply_of`), which `serde_json` computes alone.
#[verifier::external_body]
fn parse_reply(line: &str) -> (r: Result<Reply, String>)
    ensures
        reply_view(r) == reply_of(line@),
{
    match serde_json::from_str::<serde_json::Value>(line) {
        Ok(v) => Ok(Reply {
            error: v.get("error").is_some(),
            message: v.get("error").and_then(|e| e.get("message")).and_then(
                serde_json::Value::as_str,
            ).map(str::to_string),
            result: v.get("result").map(|r| r.to_string()),
        }),
        Err(e) => Err(e.to_string()),
    }
}

/// `s` with its surrounding whitespace removed (`str::trim`).
fn trimmed(s: &str) -> (r: String)
    ensures
        r@ == trim(s@),
{
    let v = chars_of(s);
    let (a, b) = trim_bounds(&v, 0, v.len());
    assert(v@.subrange(0, v@.len() as int) =~= v@);
    string_of_range(&v, a, b)
}

/// The message of a reply's error: its message, or `unknown error`.
pub open spec fn error_message(m: Option<Seq<char>>) -> Seq<char> {
    match m {
        Some(x) => x,
        None => "unknown error"@,
    }
}

/// What a request's reply means: a malformed reply and a reply carrying an
/// error are errors, prefixed by the method; otherwise the result's text,
/// nothing when the reply has no result.
pub open spec fn request_outcome(
    method: Seq<char>,
    reply: Result<(bool, Option<Seq<char>>, Option<Seq<char>>), Seq<char>>,
) -> Result<Option<Seq<char>>, Seq<char>> {
    match reply {
        Err(e) => Err(method + ": malformed response: "@ + e),
        Ok((error, message, result)) => if error {
            Err(method + ": "@ + error_message(message))
        } else {
            Ok(result)
        },
    }
}

/// What a request came to, given the line read back: nothing read means
/// the connection closed; otherwise the line, trimmed, is the reply.
pub open spec fn call_outcome(method: Seq<char>, line: Seq<char>) -> Result<
    Option<Seq<char>>,
    Seq<char>,
> {
    if line.len() == 0 {
        Err(method + ": connection closed"@)
    } else {
        request_outcome(method, reply_of(trim(line)))
    }
}

pub open spec fn outcome_view(r: Result<Option<String>, String>) -> Result<
    Option<Seq<char>>,
    Seq<char>,
> {
    match r {
        Ok(x) => Ok(opt_text(x)),
        Err(e) => Err(e@),
    }
}

/// What a request's reply means (see `request_outcome`).
pub fn request_result(method: &str, reply: Result<Reply, String>) -> (r: Result<
    Option<String>,
    String,
>)
    ensures
        outcome_view(r) == request_outcome(method@, reply_view(reply)),
{
    match reply {
        Err(e) => {
            let mut s = method.to_owned();
            s.append(": malformed response: ");
            s.append(e.as_str());
            Err(s)
        },
        Ok(x) => if x.error {
            let mut s = method.to_owned();
            s.append(": ");
            match x.message {
                Some(m) => s.append(m.as_str()),
                None => s.append("unknown error"),
            }
            Err(s)
        } else {
            Ok(x.result)
        },
    }
}

/// What a request came to, given the line read back from the server (empty
/// when the connection closed before a line came).
pub fn read_reply(method: &str, line: &str) -> (r: Result<Option<String>, String>)
    ensures
        outcome_view(r) == call_outcome(method@, line@),
{
    if line.is_empty() {
        let mut s = method.to_owned();
        s.append(": connection closed");
        return Err(s);
    }
    let t = trimmed(line);
    let reply = parse_reply(t.as_str());
    request_result(method, reply)
}

/// What a subscription's acknowledgement means: a malformed one and one
/// carrying an error are errors of `subscribe`; otherwise it is accepted.
pub open spec fn ack_outcome(
    reply: Result<(bool, Option<Seq<char>>, Option<Seq<char>>), Seq<char>>,
) -> Result<(), Seq<char>> {
    match reply {
        Err(e) => Err("subscribe: malformed ack: "@ + e),
        Ok((error, message, _)) => if error {
            Err("subscribe: "@ + error_message(message))
        } else {
            Ok(())
        },
    }
}

pub open spec fn ack_view(r: Result<(), String>) -> Result<(), Seq<char>> {
    match r {
        Ok(()) => Ok(()),
        Err(e) => Err(e@),
    }
}

/// What a subscription's acknowledgement means (see `ack_outcome`).
pub fn ack_result(reply: Result<Reply, String>) -> (r: Result<(), String>)
    ensures
        ack_view(r) == ack_outcome(reply_view(reply)),
{
    match reply {
        Err(e) => {
            let mut s = "subscribe: malformed ack: ".to_owned();
            s.append(e.as_str());
            Err(s)
        },
        Ok(x) => if x.error {
            let mut s = "subscribe: ".to_owned();
            match x.message {
                Some(m) => s.append(m.as_str()),
                None => s.append("unknown error"),
            }
            Err(s)
        } else {
            Ok(())
        },
    }
}

/// What the acknowledgement line of a subscription came to: the line,
/// trimmed, is the reply.
pub fn read_ack(line: &str) -> (r: Result<(), String>)
    ensures
        ack_view(r) == ack_outcome(reply_of(trim(line@))),
{
    let t = trimmed(line);
    let reply = parse_reply(t.as_str());
    ack_result(reply)
}

} // verus!
