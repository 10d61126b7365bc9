use vstd::prelude::*;

use crate::json::create_emails_body;
use crate::json::encode_create_emails;
use crate::json::gen_response;
use crate::json::inbox_response;
use crate::json::parse_generated_emails;
use crate::json::parse_inbox_headers;
use crate::EmailKind;
use crate::Error;
use crate::Inbox;

verus! {

/// The HTTP status code the service answers with when throttling.
pub const TOO_MANY_REQUESTS: u16 = 429;

/// Whether a status code is the service's throttling answer. The shared
/// protocol inspects the status before the body is consumed; the
/// transport shell uses this to avoid reading a throttled response's
/// body at all.
pub fn is_rate_limited(status: u16) -> (r: bool)
    ensures
        r == (status == TOO_MANY_REQUESTS),
{
    status == TOO_MANY_REQUESTS
}

/// Validates the inputs of the generation operation and builds its
/// request body: `NoEmailKinds` for an empty kind set (whatever the
/// count), `ZeroCount` for a zero count, else the JSON body — all before
/// any network traffic.
pub fn create_emails_request(kinds: &Vec<EmailKind>, count: u32) -> (r: Result<String, Error>)
    ensures
        (match r {
            Ok(body) => kinds@.len() > 0 && count > 0 && body@ == create_emails_body(
                kinds@,
                count,
            ),
            Err(e) => (kinds@.len() == 0 && e is NoEmailKinds) || (kinds@.len() > 0 && count == 0
                && e is ZeroCount),
        }),
{
    if kinds.len() == 0 {
        return Err(Error::NoEmailKinds);
    }
    if count == 0 {
        return Err(Error::ZeroCount);
    }
    Ok(encode_create_emails(kinds, count))
}

/// Decides the generation operation's outcome from the response: HTTP 429
/// is `RateLimited` before any look at the body; otherwise the body must
/// be a JSON object holding an `email` array (other members are ignored),
/// whose addresses are returned in order, and any other body is a `Parse`
/// failure.
pub fn create_emails_response(status: u16, body: &str) -> (r: Result<Vec<String>, Error>)
    ensures
        (match r {
            Ok(emails) => status != TOO_MANY_REQUESTS && gen_response(body@) == Some(
                emails.deep_view(),
            ),
            Err(e) => if status == TOO_MANY_REQUESTS {
                e is RateLimited
            } else {
                e is Parse && gen_response(body@) is None
            },
        }),
{
    if status == TOO_MANY_REQUESTS {
        return Err(Error::RateLimited);
    }
    match parse_generated_emails(body) {
        Some(emails) => Ok(emails),
        None => Err(Error::Parse(String::from_str("unexpected generation response shape"))),
    }
}

/// Decides the inbox operation's outcome from the response: HTTP 429 is
/// `RateLimited` before any look at the body; otherwise the body must be
/// a JSON object holding a `messageData` array of header records (other
/// members are ignored), returned as the inbox in order, and any other
/// body is a `Parse` failure.
pub fn fetch_inbox_response(status: u16, body: &str) -> (r: Result<Inbox, Error>)
    ensures
        (match r {
            Ok(inbox) => status != TOO_MANY_REQUESTS && inbox_response(body@) == Some(inbox@),
            Err(e) => if status == TOO_MANY_REQUESTS {
                e is RateLimited
            } else {
                e is Parse && inbox_response(body@) is None
            },
        }),
{
    if status == TOO_MANY_REQUESTS {
        return Err(Error::RateLimited);
    }
    match parse_inbox_headers(body) {
        Some(message) => Ok(Inbox { message }),
        None => Err(Error::Parse(String::from_str("unexpected inbox response shape"))),
    }
}

/// Decides the read-message operation's outcome from the response: HTTP
/// 429 is `RateLimited`; any other status hands the body text back
/// verbatim — the endpoint answers raw message content, not JSON.
pub fn read_message_response(status: u16, body: String) -> (r: Result<String, Error>)
    ensures
        (match r {
            Ok(text) => status != TOO_MANY_REQUESTS && text@ == body@,
            Err(e) => status == TOO_MANY_REQUESTS && e is RateLimited,
        }),
{
    if status == TOO_MANY_REQUESTS {
        return Err(Error::RateLimited);
    }
    Ok(body)
}

} // verus!
