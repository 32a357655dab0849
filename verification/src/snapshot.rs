//! The snapshot of a store: its entries as one JSON text, and the messages
//! with which a failure to save or load it is reported.

use crate::sorted_map::entries_of;
use vstd::prelude::*;
use vstd::string::StringExecFns;
use vstd::utf8::{encode_utf8, valid_utf8};

verus! {

/// The error type of `serde_json`, carried through as an opaque value.
#[verifier::external_type_specification]
#[verifier::external_body]
pub struct ExJsonError(serde_json::Error);

/// The text that `serde_json::to_string_pretty` gives for a list of
/// key-value pairs, or `None` where it fails.
pub uninterp spec fn pretty_json(entries: Seq<(Seq<u8>, Seq<u8>)>) -> Option<Seq<char>>;

/// The list of key-value pairs that `serde_json::from_str` reads from a
/// text, or `None` where it rejects the text.
pub uninterp spec fn parsed_json(text: Seq<char>) -> Option<Seq<(Seq<u8>, Seq<u8>)>>;

/// Calls `serde_json::to_string_pretty` on a list of key-value pairs. Trusted:
/// the outcome is a function of the pairs alone, named `pretty_json`.
#[verifier::external_body]
pub(crate) fn to_json(entries: &Vec<(Vec<u8>, Vec<u8>)>) -> (r: Result<String, serde_json::Error>)
    ensures
        match r {
            Ok(text) => pretty_json(entries_of(entries@)) == Some(text@),
            Err(_) => pretty_json(entries_of(entries@)) is None,
        },
{
    serde_json::to_string_pretty(entries)
}

/// Calls `serde_json::from_str` to read a list of key-value pairs. Trusted:
/// the outcome is a function of the text alone, named `parsed_json`.
#[verifier::external_body]
pub(crate) fn from_json(text: &str) -> (r: Result<Vec<(Vec<u8>, Vec<u8>)>, serde_json::Error>)
    ensures
        match r {
            Ok(entries) => parsed_json(text@) == Some(entries_of(entries@)),
            Err(_) => parsed_json(text@) is None,
        },
{
    serde_json::from_str(text)
}

/// Renders a `serde_json::Error` with its `Display` impl. Trusted; nothing
/// is claimed of the text.
#[verifier::external_body]
pub(crate) fn json_error_text(e: &serde_json::Error) -> (text: String) {
    e.to_string()
}

/// Calls `std::str::from_utf8`. Trusted: it succeeds exactly on well-formed
/// UTF-8, and the string it gives has the bytes it was given.
#[verifier::external_body]
pub(crate) fn utf8_str<'a>(bytes: &'a [u8]) -> (r: Option<&'a str>)
    ensures
        r is Some <==> valid_utf8(bytes@),
        r matches Some(s) ==> encode_utf8(s@) == bytes@,
{
    match std::str::from_utf8(bytes) {
        Ok(s) => Some(s),
        Err(_) => None,
    }
}

/// The step of saving or loading a snapshot at which a failure occurred.
#[derive(Clone, Copy, Debug, PartialEq, Eq)]
pub enum Failure {
    CreateDirectory,
    Serialize,
    WriteFile,
    ReadFile,
    Deserialize,
}

impl Failure {
    /// What the message of a failure at this step begins with.
    pub open spec fn prefix(self) -> Seq<char> {
        match self {
            Failure::CreateDirectory => "Failed to create directory: "@,
            Failure::Serialize => "Failed to serialize: "@,
            Failure::WriteFile => "Failed to write file: "@,
            Failure::ReadFile => "Failed to read file: "@,
            Failure::Deserialize => "Failed to deserialize: "@,
        }
    }

    /// `message` reports a failure at this step.
    pub open spec fn reported_by(self, message: Seq<char>) -> bool {
        self.prefix().len() <= message.len() && message.subrange(0, self.prefix().len() as int)
            == self.prefix()
    }

    /// The message of a failure at this step: the step's own words, then
    /// the detail that the failing operation gave.
    pub fn message(self, detail: &str) -> (m: String)
        ensures
            m@ == self.prefix() + detail@,
            self.reported_by(m@),
    {
        let head = match self {
            Failure::CreateDirectory => "Failed to create directory: ",
            Failure::Serialize => "Failed to serialize: ",
            Failure::WriteFile => "Failed to write file: ",
            Failure::ReadFile => "Failed to read file: ",
            Failure::Deserialize => "Failed to deserialize: ",
        };
        let m = String::from_str(head).concat(detail);
        proof {
            assert(m@.subrange(0, self.prefix().len() as int) =~= self.prefix());
        }
        m
    }
}

} // verus!
