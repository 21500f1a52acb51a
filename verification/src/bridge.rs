//! Trusted access to functions of other crates that the planner leans on:
//! `String::push` for building strings, Unicode case mapping from std,
//! `natord`'s natural-order comparator, and `time`'s calendar conversion.
//! Each wrapper states only what the callee's source or documentation shows.

use vstd::prelude::*;
use crate::model::CivilDateTime;

verus! {

/// Relies on `String::push`: appends the given character to the string.
#[verifier::external_body]
pub fn push_char(s: &mut String, c: char)
    ensures
        final(s)@ == old(s)@.push(c),
{
    s.push(c);
}

/// What `str::to_lowercase` returns; it depends on the characters alone.
pub uninterp spec fn lower_of(s: Seq<char>) -> Seq<char>;

/// Relies on `str::to_lowercase`: the Unicode lowercase mapping of the
/// string, a pure function of its characters; an empty string stays empty.
#[verifier::external_body]
pub fn to_lower(s: &str) -> (r: String)
    ensures
        r@ == lower_of(s@),
        s@.len() == 0 ==> r@.len() == 0,
{
    s.to_lowercase()
}

/// What `str::to_uppercase` returns; it depends on the characters alone.
pub uninterp spec fn upper_of(s: Seq<char>) -> Seq<char>;

/// Relies on `str::to_uppercase`: the Unicode uppercase mapping of the
/// string, a pure function of its characters; an empty string stays empty.
#[verifier::external_body]
pub fn to_upper(s: &str) -> (r: String)
    ensures
        r@ == upper_of(s@),
        s@.len() == 0 ==> r@.len() == 0,
{
    s.to_uppercase()
}

/// Whether `natord::compare` finds the first string less than or equal to
/// the second; it depends on the characters alone.
pub uninterp spec fn nat_le(a: Seq<char>, b: Seq<char>) -> bool;

/// The natural order is lawful: any two strings are comparable, and the
/// order is transitive. `natord::compare` shows this by construction: it
/// reads both strings as streams of tokens — maximal digit runs, and
/// single characters, with whitespace skipped but splitting runs — and
/// compares the streams lexicographically under one fixed total order on
/// tokens: runs with a leading zero sit below all other runs and among
/// themselves in digit order, other runs compare as numbers, characters
/// compare by code point, and a run against a character compares by the
/// run's first digit, which falls the same way for every digit.
pub open spec fn nat_le_lawful() -> bool {
    &&& forall|a: Seq<char>, b: Seq<char>| #[trigger] nat_le(a, b) || #[trigger] nat_le(b, a)
    &&& forall|a: Seq<char>, b: Seq<char>, c: Seq<char>|
        #[trigger] nat_le(a, b) && #[trigger] nat_le(b, c) ==> nat_le(a, c)
}

/// Relies on `natord::compare`: a digit-aware comparator that implements a
/// total order on strings (its result is `Less`, `Equal` or `Greater`, and
/// its own tests exercise the order's consistency). The two conditional
/// clauses together attach the order's lawfulness to every call, whichever
/// way the comparison went.
#[verifier::external_body]
pub fn natural_le(a: &str, b: &str) -> (r: bool)
    ensures
        r == nat_le(a@, b@),
        r ==> nat_le_lawful(),
        !r ==> nat_le_lawful(),
{
    natord::compare(a, b) != core::cmp::Ordering::Greater
}

/// What `time::OffsetDateTime::from_unix_timestamp` yields as the proleptic
/// Gregorian year, month and day in UTC, or `None` when the timestamp lies
/// outside the supported range; it depends on the timestamp alone.
pub uninterp spec fn civil_ymd_of_epoch(secs: int) -> Option<(int, int, int)>;

/// The full conversion of a Unix timestamp: the named calendar part, and the
/// clock part, which the callee computes directly from the timestamp.
pub open spec fn civil_of_epoch(secs: int) -> Option<CivilDateTime> {
    match civil_ymd_of_epoch(secs) {
        None => None,
        Some((y, mo, d)) => Some(
            CivilDateTime {
                year: y as i32,
                month: mo as u8,
                day: d as u8,
                hour: ((secs % 86400) / 3600) as u8,
                minute: (((secs % 86400) % 3600) / 60) as u8,
                second: ((secs % 86400) % 60) as u8,
            },
        ),
    }
}

/// Relies on `time::OffsetDateTime::from_unix_timestamp` and its accessors:
/// it succeeds exactly on the timestamps of the years -9999 through 9999,
/// splits the timestamp into a day part and a Euclidean remainder of 86400
/// seconds, converts the day part through a Julian day number to year, month
/// and day, and cuts the remainder into hour, minute and second.
#[verifier::external_body]
pub fn civil_from_epoch(secs: i64) -> (r: Option<CivilDateTime>)
    ensures
        (r is Some) == (civil_ymd_of_epoch(secs as int) is Some),
        r == civil_of_epoch(secs as int),
        r is Some ==> {
            let c = r->Some_0;
            &&& -9999 <= c.year <= 9999
            &&& 1 <= c.month <= 12
            &&& 1 <= c.day <= 31
        },
{
    match time::OffsetDateTime::from_unix_timestamp(secs) {
        Err(_) => None,
        Ok(dt) => Some(
            CivilDateTime {
                year: dt.year(),
                month: dt.month() as u8,
                day: dt.day(),
                hour: dt.hour(),
                minute: dt.minute(),
                second: dt.second(),
            },
        ),
    }
}

} // verus!
