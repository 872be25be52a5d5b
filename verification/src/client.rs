//! The client's side of the request protocol: the request for each
//! operation, and what each reply means.

use crate::hashing::{fingerprint, fingerprint_of};
use crate::messages::{FoundValue, KVPair, Message};
use crate::text::{parse_u64, parsed_u64};
use vstd::prelude::*;
use vstd::string::StringExecFns;
use vstd::utf8::encode_utf8;

verus! {

/// An entry of the store, as a dump hands it to the caller.
#[derive(Debug, Clone, PartialEq, Eq)]
pub struct KeyVal(pub KVPair);

/// What a lookup found.
#[derive(Debug, Clone, PartialEq, Eq)]
pub enum Lookup {
    Present(String),
    NotPresent,
}

/// Why an operation failed.
#[derive(Debug, Clone, PartialEq, Eq)]
pub enum ClientError {
    /// The replica closed the connection.
    Closed,
    /// The replica refused the request, with this reason.
    Remote(String),
    /// The replica said that the push did not succeed.
    PushFailed,
    /// The replica sent a message that is no reply to the request.
    Unexpected(Message),
    /// The key is no sixty-four-bit number in decimal.
    InvalidKey,
}

/// Trusted: `String::into_boxed_str`. The box holds the text of the string.
#[verifier::external_body]
fn boxed(s: String) -> (b: Box<str>)
    ensures
        b@ == s@,
{
    s.into_boxed_str()
}

/// Trusted: `Box::leak`. The reference is to what the box held.
#[verifier::external_body]
fn leaked(b: Box<str>) -> (r: &'static str)
    ensures
        r@ == b@,
{
    Box::leak(b)
}

/// The text of `s`, for the rest of the program's life. The memory is never
/// given back.
pub fn string_to_static_str(s: String) -> (r: &'static str)
    ensures
        r@ == s@,
{
    leaked(boxed(s))
}

impl ClientError {
    /// The error in words. `shown` is the unexpected message as the caller
    /// prints it, and is used for no other error.
    pub fn text(&self, shown: &str) -> (text: String)
        ensures
            text@ == match *self {
                ClientError::Closed => "Remote closed unexpectedly."@,
                ClientError::Remote(reason) => reason@,
                ClientError::PushFailed => "Failed to push keys successfully"@,
                ClientError::Unexpected(_) => "Unexpected response received from remote: "@
                    + shown@,
                ClientError::InvalidKey => "Please pass a valid u64 as a string."@,
            },
    {
        match self {
            ClientError::Closed => "Remote closed unexpectedly.".to_string(),
            ClientError::Remote(reason) => reason.clone(),
            ClientError::PushFailed => "Failed to push keys successfully".to_string(),
            ClientError::Unexpected(_) => {
                let mut text = "Unexpected response received from remote: ".to_string();
                text.append(shown);
                text
            },
            ClientError::InvalidKey => "Please pass a valid u64 as a string.".to_string(),
        }
    }
}

/// What a reply means that is no answer to the request that was sent.
pub open spec fn failure_of(reply: Message) -> ClientError {
    match reply {
        Message::ConnectionClosed => ClientError::Closed,
        Message::Error(reason) => ClientError::Remote(reason),
        other => ClientError::Unexpected(other),
    }
}

fn failure(reply: Message) -> (e: ClientError)
    ensures
        e == failure_of(reply),
{
    match reply {
        Message::ConnectionClosed => ClientError::Closed,
        Message::Error(reason) => ClientError::Remote(reason),
        other => ClientError::Unexpected(other),
    }
}

/// The request that pushes `value`: the value under its fingerprint.
pub fn push_request(value: String) -> (request: Message)
    ensures
        request == Message::PushReq(KVPair { key: fingerprint_of(value@), value }),
{
    let key: u64 = fingerprint(&value);
    Message::PushReq(KVPair { key, value })
}

/// What the reply to a push means.
pub fn push_result(reply: Message) -> (r: Result<(), ClientError>)
    ensures
        r == match reply {
            Message::PushResp { success: true } => Ok::<(), ClientError>(()),
            Message::PushResp { success: false } => Err(ClientError::PushFailed),
            other => Err(failure_of(other)),
        },
{
    match reply {
        Message::PushResp { success: true } => Ok(()),
        Message::PushResp { success: false } => Err(ClientError::PushFailed),
        other => Err(failure(other)),
    }
}

/// The request that looks up the key written in `key`.
pub fn get_request(key: &str) -> (r: Result<Message, ClientError>)
    ensures
        r == match parsed_u64(encode_utf8(key@)) {
            Some(k) => Ok::<Message, ClientError>(Message::RetrieveReq { key: k }),
            None => Err(ClientError::InvalidKey),
        },
{
    let bytes = key.as_bytes();
    assert(bytes@.subrange(0, bytes@.len() as int) =~= bytes@);
    match parse_u64(bytes, 0, bytes.len()) {
        Some(k) => Ok(Message::RetrieveReq { key: k }),
        None => Err(ClientError::InvalidKey),
    }
}

/// What the reply to a lookup means.
pub fn get_result(reply: Message) -> (r: Result<Lookup, ClientError>)
    ensures
        r == match reply {
            Message::RetrieveResp { result: FoundValue::Success { value } } => Ok::<
                Lookup,
                ClientError,
            >(Lookup::Present(value)),
            Message::RetrieveResp { result: FoundValue::Failure } => Ok(Lookup::NotPresent),
            other => Err(failure_of(other)),
        },
{
    match reply {
        Message::RetrieveResp { result: FoundValue::Success { value } } => Ok(
            Lookup::Present(value),
        ),
        Message::RetrieveResp { result: FoundValue::Failure } => Ok(Lookup::NotPresent),
        other => Err(failure(other)),
    }
}

/// What the reply to a dump means.
pub fn dump_result(reply: Message) -> (r: Result<Vec<KeyVal>, ClientError>)
    ensures
        match reply {
            Message::DumpResp(pairs) => r matches Ok(entries) && entries@.len() == pairs@.len()
                && forall|i: int| 0 <= i < pairs@.len() ==> (#[trigger] entries@[i]).0 == pairs@[i],
            other => r == Err::<Vec<KeyVal>, ClientError>(failure_of(other)),
        },
{
    match reply {
        Message::DumpResp(pairs) => {
            let mut entries: Vec<KeyVal> = Vec::new();
            let ghost all = pairs@;
            for pair in it: pairs
                invariant
                    all == it.seq(),
                    entries@.len() == it.index(),
                    forall|j: int| 0 <= j < entries@.len() ==> (#[trigger] entries@[j]).0 == all[j],
            {
                entries.push(KeyVal(pair));
            }
            Ok(entries)
        },
        other => Err(failure(other)),
    }
}

} // verus!
