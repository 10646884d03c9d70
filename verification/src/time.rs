//! Points in time as the filesystem reports them, kept as seconds and
//! nanoseconds since 1970-01-01 00:00:00 UTC.

use chrono::DateTime;
use chrono::Utc;
use vstd::prelude::*;

verus! {

/// What `chrono::DateTime::<Utc>::from_timestamp` makes of a count of seconds
/// and nanoseconds, read back as seconds and nanoseconds: `None` where chrono
/// has no UTC date and time for them.
pub uninterp spec fn utc_timestamp(secs: i64, nanos: u32) -> Option<(i64, u32)>;

/// Calls `chrono::DateTime::<Utc>::from_timestamp` and reads the date and time
/// it made back with `timestamp` and `timestamp_subsec_nanos`.
///
/// Believed, not proved: the outcome depends on the two numbers alone, and a
/// date and time that chrono could make reads back as the numbers it was made
/// from.
#[verifier::external_body]
fn utc_parts(secs: i64, nanos: u32) -> (r: Option<(i64, u32)>)
    ensures
        r == utc_timestamp(secs, nanos),
        r matches Some(p) ==> p.0 == secs && p.1 == nanos,
{
    match DateTime::<Utc>::from_timestamp(secs, nanos) {
        Some(t) => Some((t.timestamp(), t.timestamp_subsec_nanos())),
        None => None,
    }
}

/// A point in time, in UTC.
#[derive(Clone, Copy, Debug, PartialEq, Eq, Structural)]
pub struct Timestamp {
    /// Whole seconds since the start of 1970, negative before it.
    pub secs: i64,
    /// Nanoseconds past that second.
    pub nanos: u32,
}

impl Timestamp {
    /// The timestamp is one that has a date and time in UTC.
    pub open spec fn valid(self) -> bool {
        utc_timestamp(self.secs, self.nanos) is Some
    }

    /// The timestamp that stands for a date and time read back as `parts`.
    pub open spec fn of_parts(parts: Option<(i64, u32)>) -> Option<Timestamp> {
        match parts {
            Some(p) => Some(Timestamp { secs: p.0, nanos: p.1 }),
            None => None,
        }
    }

    /// Makes a timestamp of the parts of a date and time, where there is one.
    pub fn from_parts(parts: Option<(i64, u32)>) -> (r: Option<Timestamp>)
        ensures
            r == Timestamp::of_parts(parts),
    {
        match parts {
            Some(p) => Some(Timestamp { secs: p.0, nanos: p.1 }),
            None => None,
        }
    }

    /// Makes a timestamp of seconds and nanoseconds since the start of 1970,
    /// or `None` where they name no date and time in UTC.
    pub fn from_unix(secs: i64, nanos: u32) -> (r: Option<Timestamp>)
        ensures
            r == Timestamp::of_parts(utc_timestamp(secs, nanos)),
            r is Some <==> (Timestamp { secs, nanos }).valid(),
            r matches Some(t) ==> t == (Timestamp { secs, nanos }),
    {
        Timestamp::from_parts(utc_parts(secs, nanos))
    }
}

} // verus!
