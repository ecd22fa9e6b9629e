//! Errors that are shown to the users of an HTTP API.
use vstd::prelude::*;

use crate::status;

verus! {

/// What kind of mistake an error is.
#[derive(Clone, Copy, Debug, PartialEq, Eq, Structural)]
pub enum ErrorKind {
    /// Some parameters were invalid
    InvalidInput,
    /// Internal or unknown error
    Internal,
}

impl ErrorKind {
    /// The HTTP status of the reply.
    pub open spec fn status(self) -> u16 {
        match self {
            ErrorKind::InvalidInput => 400,
            ErrorKind::Internal => 500,
        }
    }

    /// How the kind is spelled in replies.
    pub open spec fn name(self) -> Seq<char> {
        match self {
            ErrorKind::InvalidInput => "INVALID_INPUT"@,
            ErrorKind::Internal => "INTERNAL"@,
        }
    }

    /// The HTTP status of the reply.
    pub fn http_status(self) -> (code: u16)
        ensures
            code == self.status(),
    {
        match self {
            ErrorKind::InvalidInput => status::bad_request(),
            ErrorKind::Internal => status::internal_server_error(),
        }
    }

    /// How the kind is spelled in replies.
    pub fn wire_name(self) -> (name: &'static str)
        ensures
            name@ == self.name(),
    {
        match self {
            ErrorKind::InvalidInput => "INVALID_INPUT",
            ErrorKind::Internal => "INTERNAL",
        }
    }
}

/// The entries of a JSON object.
pub uninterp spec fn json_entries(
    object: serde_json::Map<String, serde_json::Value>,
) -> Map<Seq<char>, serde_json::Value>;

/// What an empty JSON object holds.
pub open spec fn no_entries() -> Map<Seq<char>, serde_json::Value> {
    Map::empty()
}

/// Calls `serde_json::Map::new`, which makes an object without entries.
#[verifier::external_body]
fn json_object() -> (object: serde_json::Map<String, serde_json::Value>)
    ensures
        json_entries(object) == no_entries(),
{
    serde_json::Map::new()
}

/// Calls `serde_json::Map::insert`, which sets the value of a key, whether or
/// not the key had one, and returns the value that it had.
#[verifier::external_body]
fn json_insert(
    object: &mut serde_json::Map<String, serde_json::Value>,
    key: String,
    value: serde_json::Value,
) -> (replaced: Option<serde_json::Value>)
    ensures
        json_entries(*final(object)) == json_entries(*old(object)).insert(key@, value),
        replaced == if json_entries(*old(object)).contains_key(key@) {
            Some(json_entries(*old(object))[key@])
        } else {
            None
        },
{
    object.insert(key, value)
}

/// Put this struct into error context to return user-facing API error
pub struct ApiError {
    pub kind: ErrorKind,
    pub code: String,
    pub details: serde_json::Map<String, serde_json::Value>,
}

/// What is sent to the user: a status, and a JSON object with these fields.
pub struct ErrorReply<'a> {
    pub status: u16,
    pub kind: &'static str,
    pub code: &'a str,
    pub details: &'a serde_json::Map<String, serde_json::Value>,
}

impl ApiError {
    /// The entries of `details`.
    pub open spec fn entries(self) -> Map<Seq<char>, serde_json::Value> {
        json_entries(self.details)
    }

    /// What errors of this kind say of themselves, whatever they hold.
    pub fn description(&self) -> (text: &'static str)
        ensures
            text@ == "api error"@,
    {
        "api error"
    }

    /// An error without details.
    pub fn new(kind: ErrorKind, code: &str) -> (error: Self)
        ensures
            error.kind == kind,
            error.code@ == code@,
            error.entries() == no_entries(),
    {
        ApiError { kind, code: code.to_owned(), details: json_object() }
    }

    /// Sets a detail, given the outcome of serializing its value.
    pub fn add_detail(
        &mut self,
        key: &str,
        value: Result<serde_json::Value, serde_json::Error>,
    ) -> (outcome: Result<(), serde_json::Error>)
        ensures
            final(self).kind == old(self).kind,
            final(self).code == old(self).code,
            match value {
                Ok(value) => {
                    &&& outcome == Ok::<(), serde_json::Error>(())
                    &&& final(self).entries() == old(self).entries().insert(key@, value)
                },
                Err(err) => {
                    &&& outcome == Err::<(), serde_json::Error>(err)
                    &&& *final(self) == *old(self)
                },
            },
    {
        match value {
            Ok(value) => {
                let replaced = json_insert(&mut self.details, key.to_owned(), value);
                Ok(())
            },
            Err(err) => Err(err),
        }
    }

    /// What is sent to the user.
    pub fn reply(&self) -> (reply: ErrorReply<'_>)
        ensures
            reply.status == self.kind.status(),
            reply.kind@ == self.kind.name(),
            reply.code@ == self.code@,
            *reply.details == self.details,
    {
        ErrorReply {
            status: self.kind.http_status(),
            kind: self.kind.wire_name(),
            code: self.code.as_str(),
            details: &self.details,
        }
    }
}

/// The error that a rejected request is answered with, given the error that
/// was found in the rejection, if there was one.
pub fn recover(found: Option<ApiError>) -> (answer: ApiError)
    ensures
        match found {
            Some(error) => answer == error,
            None => {
                &&& answer.kind == ErrorKind::Internal
                &&& answer.code@ == "UnknownError"@
                &&& answer.entries() == no_entries()
            },
        },
{
    match found {
        Some(error) => error,
        None => ApiError::new(ErrorKind::Internal, "UnknownError"),
    }
}

/// Every reply has an error status: one for mistakes of the user and one for the rest.
pub proof fn law_replies_have_error_status(kind: ErrorKind)
    ensures
        kind.status() == 400 <==> kind == ErrorKind::InvalidInput,
        kind.status() == 500 <==> kind == ErrorKind::Internal,
        400 <= kind.status() < 600,
{
}

/// Of two details with the same key the later one counts, and details with
/// different keys do not touch each other.
pub proof fn law_details_are_kept_by_key(
    entries: Map<Seq<char>, serde_json::Value>,
    key: Seq<char>,
    value: serde_json::Value,
    other: Seq<char>,
    other_value: serde_json::Value,
)
    ensures
        entries.insert(key, value).insert(key, other_value) == entries.insert(key, other_value),
        key != other ==> entries.insert(key, value).insert(other, other_value)[key] == value,
        key != other && entries.contains_key(other) ==> entries.insert(key, value)[other]
            == entries[other],
{
    assert(entries.insert(key, value).insert(key, other_value) =~= entries.insert(
        key,
        other_value,
    ));
}

/// How each kind is spelled in replies. So the kind can be told from the reply.
pub proof fn law_kinds_are_told_apart(kind: ErrorKind, other: ErrorKind)
    ensures
        kind == ErrorKind::InvalidInput ==> kind.name() == "INVALID_INPUT"@,
        kind == ErrorKind::Internal ==> kind.name() == "INTERNAL"@,
        kind.name() == other.name() ==> kind == other,
        kind.status() == other.status() ==> kind == other,
{
    reveal_strlit("INVALID_INPUT");
    reveal_strlit("INTERNAL");
    assert("INVALID_INPUT"@.len() != "INTERNAL"@.len());
}

/// A new error has no details, whatever the key.
pub proof fn law_new_errors_have_no_details(key: Seq<char>)
    ensures
        !no_entries().contains_key(key),
{
}

/// The details of an error are the entries of its object of details.
pub proof fn law_details_are_the_entries(error: ApiError)
    ensures
        error.entries() == json_entries(error.details),
{
}

} // verus!
