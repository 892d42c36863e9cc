//! Splitting and reading the text of a line.
//!
//! The three functions that do the work belong to std and to the `chrono`
//! crate. Nothing is proved of them here: each has a name for what it
//! returns, and the rest of the library speaks of that name.

use crate::request::price_update::Timestamp;
use chrono::DateTime;
use vstd::prelude::*;

verus! {

/// The texts of a list of strings.
pub open spec fn texts(v: Seq<String>) -> Seq<Seq<char>> {
    Seq::new(v.len(), |i: int| v[i]@)
}

/// The parts of a text between its stretches of white space, in order: what
/// `str::split_whitespace` gives.
pub uninterp spec fn whitespace_fields(text: Seq<char>) -> Seq<Seq<char>>;

/// A text in upper case: what `str::to_uppercase` gives.
pub uninterp spec fn uppercase(text: Seq<char>) -> Seq<char>;

/// The point in time that a text in the form of RFC 3339 names, as whole
/// seconds since 1970-01-01T00:00:00 UTC, nanoseconds since the last whole
/// second, and the seconds that the text's local time is ahead of UTC; or
/// nothing, where the text has not that form. It is what
/// `chrono::DateTime::parse_from_rfc3339` gives.
pub uninterp spec fn rfc3339_instant(text: Seq<char>) -> Option<(i64, u32, i32)>;

/// The timestamp that the three numbers of an instant make.
pub open spec fn timestamp_of(instant: Option<(i64, u32, i32)>) -> Option<Timestamp> {
    match instant {
        Some(t) => Some(Timestamp { seconds: t.0, nanos: t.1, offset: t.2 }),
        None => None,
    }
}

/// `str::split_whitespace`: the parts of the line between its stretches of
/// white space, each as a string of its own.
#[verifier::external_body]
pub(crate) fn split_whitespace(line: &str) -> (r: Vec<String>)
    ensures
        texts(r@) == whitespace_fields(line@),
{
    line.split_whitespace().map(String::from).collect()
}

/// `str::to_uppercase`: the text in upper case.
#[verifier::external_body]
pub(crate) fn to_uppercase(text: &str) -> (r: String)
    ensures
        r@ == uppercase(text@),
{
    text.to_uppercase()
}

/// `chrono::DateTime::parse_from_rfc3339`: the point in time that the text
/// names, taken apart into seconds, nanoseconds and offset by the
/// `DateTime`'s own `timestamp`, `timestamp_subsec_nanos` and
/// `offset().local_minus_utc()`; nothing where chrono rejects the text.
#[verifier::external_body]
pub(crate) fn parse_rfc3339(text: &str) -> (r: Option<Timestamp>)
    ensures
        r == timestamp_of(rfc3339_instant(text@)),
{
    match DateTime::parse_from_rfc3339(text) {
        Ok(t) => Some(
            Timestamp {
                seconds: t.timestamp(),
                nanos: t.timestamp_subsec_nanos(),
                offset: t.offset().local_minus_utc(),
            },
        ),
        Err(_) => None,
    }
}

/// The message that names a line item between two fixed parts.
pub(crate) fn message(before: &str, label: &String, after: &str) -> (r: String)
    ensures
        r@ == before@ + label@ + after@,
{
    let mut text = String::from_str(before);
    text.append(label.as_str());
    text.append(after);
    text
}

} // verus!
