//! Points in time, as the clock reports them.

use vstd::prelude::*;

verus! {

/// The number of nanoseconds in a second.
pub const NANOSECONDS_PER_SECOND: i128 = 1_000_000_000;

/// The number of nanoseconds in a minute.
pub const NANOSECONDS_PER_MINUTE: i128 = 60_000_000_000;

/// A point in time: a number of nanoseconds after the first second of 1970, or before it where
/// the number is negative.
#[derive(Clone, Copy, Debug, PartialEq, Eq, PartialOrd, Ord, Hash, Structural)]
pub struct Timestamp {
    nanoseconds: i128,
}

impl View for Timestamp {
    type V = int;

    closed spec fn view(&self) -> int {
        self.nanoseconds as int
    }
}

/// `time::now_utc`, converted to seconds since 1970 and the nanoseconds of the second. What
/// the clock shows is not for a contract to say; the contract claims only what `time` holds
/// every `Timespec` to: the nanoseconds are fewer than a second has, and not negative.
#[verifier::external_body]
fn clock() -> (reading: (i64, i32))
    ensures
        0 <= reading.1 < 1_000_000_000,
{
    let now = time::now_utc().to_timespec();
    (now.sec, now.nsec)
}

impl Timestamp {
    /// The number of nanoseconds from the first second of 1970 to the time `sec` seconds and
    /// `nsec` nanoseconds after it.
    pub open spec fn nanoseconds_of(sec: i64, nsec: i32) -> int {
        sec * NANOSECONDS_PER_SECOND + nsec
    }

    /// Whether the time is one that a clock shows: a whole number of seconds from the first
    /// second of 1970, as many as a clock can count, and of the second after them a number of
    /// nanoseconds.
    pub open spec fn is_reading(self) -> bool {
        exists|sec: i64, nsec: i32|
            0 <= nsec < NANOSECONDS_PER_SECOND && self@ == #[trigger] Self::nanoseconds_of(sec, nsec)
    }

    /// The time `sec` seconds and `nsec` nanoseconds after the first second of 1970.
    pub fn new(sec: i64, nsec: i32) -> (stamp: Timestamp)
        ensures
            stamp@ == sec * NANOSECONDS_PER_SECOND + nsec,
            stamp@ == Self::nanoseconds_of(sec, nsec),
    {
        Timestamp { nanoseconds: sec as i128 * NANOSECONDS_PER_SECOND + nsec as i128 }
    }

    /// The time that stands for "never": the last day of 1899, where a calendar with every
    /// field at zero points.
    pub open spec fn never() -> int {
        -2_209_075_200 * NANOSECONDS_PER_SECOND
    }

    /// The time that stands for "never".
    pub fn empty() -> (stamp: Timestamp)
        ensures
            stamp@ == Timestamp::never(),
    {
        Timestamp::new(-2_209_075_200, 0)
    }

    /// What the clock shows now: the time its seconds and its nanoseconds of the second
    /// come to.
    pub fn now() -> (stamp: Timestamp)
        ensures
            stamp.is_reading(),
    {
        let (sec, nsec) = clock();
        Timestamp::new(sec, nsec)
    }

    pub fn is_before(&self, other: &Timestamp) -> (before: bool)
        ensures
            before == (self@ < other@),
    {
        self.nanoseconds < other.nanoseconds
    }

    /// The later of the two.
    pub fn latest(self, other: Timestamp) -> (later: Timestamp)
        ensures
            later == Timestamp::later_of(self, other),
    {
        if self.nanoseconds < other.nanoseconds {
            other
        } else {
            self
        }
    }

    /// The later of the two.
    pub open spec fn later_of(a: Timestamp, b: Timestamp) -> Timestamp {
        if a@ < b@ {
            b
        } else {
            a
        }
    }

    /// Whether fewer than `minutes` minutes have passed at `self` since `earlier`.
    pub fn is_within_minutes_of(&self, earlier: &Timestamp, minutes: i64) -> (within: bool)
        ensures
            within == (self@ - earlier@ < minutes * NANOSECONDS_PER_MINUTE),
    {
        let span: i128 = minutes as i128 * NANOSECONDS_PER_MINUTE;
        match earlier.nanoseconds.checked_add(span) {
            Some(limit) => self.nanoseconds < limit,
            None => span > 0,
        }
    }

    /// Whether more than `minutes` minutes have passed at `self` since `earlier`.
    pub fn is_minutes_past(&self, earlier: &Timestamp, minutes: i64) -> (past: bool)
        ensures
            past == (self@ - earlier@ > minutes * NANOSECONDS_PER_MINUTE),
    {
        let span: i128 = minutes as i128 * NANOSECONDS_PER_MINUTE;
        match earlier.nanoseconds.checked_add(span) {
            Some(limit) => self.nanoseconds > limit,
            None => span < 0,
        }
    }
}

} // verus!
