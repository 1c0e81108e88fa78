//! Points in time as plain values, and the calendar work that is left to
//! `chrono`.
//!
//! A [`Timestamp`] holds what the rest of the library reads of a zoned date
//! and time: the instant, by which notes are ordered and identified, and the
//! offset of the zone it is shown in. Reading and writing calendar text is
//! `chrono`'s work; each call stands behind one function below whose
//! contract is stated, not proved.

use crate::text::is_space;
use chrono::{DateTime, FixedOffset, Local, NaiveDate, NaiveDateTime, NaiveTime, Timelike};
use vstd::prelude::*;

verus! {

/// The first second that `chrono` represents: midnight before the first day
/// of the year -262143, counted from 1970-01-01T00:00:00Z.
pub const MIN_SECS: i64 = -8_334_601_228_800;

/// The last second that `chrono` represents: the one before midnight after
/// the last day of the year 262142.
pub const MAX_SECS: i64 = 8_210_266_876_799;

/// Whether `chrono` represents the instant `nanos` nanoseconds past the
/// second `secs`. Within a leap second the nanoseconds run on past
/// 999,999,999.
pub open spec fn instant_ok(secs: i64, nanos: u32) -> bool {
    &&& MIN_SECS <= secs <= MAX_SECS
    &&& nanos < 2_000_000_000
    &&& secs == MAX_SECS ==> nanos < 1_000_000_000
}

/// Whether `offset` is less than a day, either way.
pub open spec fn offset_ok(offset: i32) -> bool {
    -86_400 < offset < 86_400
}

/// An instant, and the zone offset it is shown in.
#[derive(Clone, Copy, Debug, PartialEq, Eq, Structural)]
pub struct Timestamp {
    /// Whole seconds since 1970-01-01T00:00:00Z, leap seconds not counted.
    pub secs: i64,
    /// Nanoseconds past that second.
    pub nanos: u32,
    /// Seconds that the zone is ahead of UTC.
    pub offset: i32,
}

/// The instant that `DateTime::parse_from_rfc3339` reads from `s`.
pub uninterp spec fn rfc3339_instant(s: Seq<char>) -> Option<(i64, u32)>;

/// The instant that `DateTime::parse_from_str` reads from `s` by the
/// format `fmt`.
pub uninterp spec fn zoned_instant(s: Seq<char>, fmt: Seq<char>) -> Option<(i64, u32)>;

/// The wall-clock date and time that `NaiveDateTime::parse_from_str` reads
/// from `s` by the format `fmt`.
pub uninterp spec fn wall_time(s: Seq<char>, fmt: Seq<char>) -> Option<(i64, u32)>;

/// Midnight of the date that `NaiveDate::parse_from_str` reads from `s` by
/// the format `fmt`.
pub uninterp spec fn date_midnight(s: Seq<char>, fmt: Seq<char>) -> Option<i64>;

/// Midnight of the date that `NaiveDate::from_ymd_opt` makes of a year, a
/// month and a day.
pub uninterp spec fn civil_midnight(year: i32, month: u32, day: u32) -> Option<i64>;

/// The text that `DateTime::to_rfc3339` gives for an instant shown at an
/// offset.
pub uninterp spec fn rfc3339_of(secs: i64, nanos: u32, offset: i32) -> Seq<char>;

/// `Local::now`: the current time in the local zone. It is a time that
/// `chrono` represents, with an offset of less than a day.
#[verifier::external_body]
pub(crate) fn now_parts() -> (t: Timestamp)
    ensures
        t.wf(),
{
    let now = Local::now();
    Timestamp {
        secs: now.timestamp(),
        nanos: now.timestamp_subsec_nanos(),
        offset: now.offset().local_minus_utc(),
    }
}

/// `DateTime::parse_from_rfc3339`: the instant read from RFC 3339 text, or
/// `None` where the text is none. The zone that the text names is dropped.
#[verifier::external_body]
pub(crate) fn rfc3339_parts(s: &str) -> (r: Option<(i64, u32)>)
    ensures
        r == rfc3339_instant(s@),
{
    match DateTime::parse_from_rfc3339(s) {
        Ok(dt) => Some((dt.timestamp(), dt.timestamp_subsec_nanos())),
        Err(_) => None,
    }
}

/// `DateTime::parse_from_str`: the instant read from text that names its
/// zone, by a `strftime` format, or `None` where the text does not fit.
#[verifier::external_body]
pub(crate) fn zoned_parts(s: &str, fmt: &str) -> (r: Option<(i64, u32)>)
    ensures
        r == zoned_instant(s@, fmt@),
{
    match DateTime::parse_from_str(s, fmt) {
        Ok(dt) => Some((dt.timestamp(), dt.timestamp_subsec_nanos())),
        Err(_) => None,
    }
}

/// `NaiveDateTime::parse_from_str`: the date and time read from text
/// without a zone, by a `strftime` format, or `None` where the text does
/// not fit.
#[verifier::external_body]
pub(crate) fn wall_parts(s: &str, fmt: &str) -> (r: Option<(i64, u32)>)
    ensures
        r == wall_time(s@, fmt@),
{
    match NaiveDateTime::parse_from_str(s, fmt) {
        Ok(dt) => Some((dt.and_utc().timestamp(), dt.and_utc().timestamp_subsec_nanos())),
        Err(_) => None,
    }
}

/// `NaiveDate::parse_from_str`: midnight of the date read from text by a
/// `strftime` format, or `None` where the text does not fit.
#[verifier::external_body]
pub(crate) fn date_parts(s: &str, fmt: &str) -> (r: Option<i64>)
    ensures
        r == date_midnight(s@, fmt@),
{
    match NaiveDate::parse_from_str(s, fmt) {
        Ok(d) => Some(d.and_time(NaiveTime::MIN).and_utc().timestamp()),
        Err(_) => None,
    }
}

/// `NaiveDate::from_ymd_opt`: midnight of the day of a month of a year, or
/// `None` where the calendar has no such day.
#[verifier::external_body]
pub(crate) fn ymd_parts(year: i32, month: u32, day: u32) -> (r: Option<i64>)
    ensures
        r == civil_midnight(year, month, day),
{
    match NaiveDate::from_ymd_opt(year, month, day) {
        Some(d) => Some(d.and_time(NaiveTime::MIN).and_utc().timestamp()),
        None => None,
    }
}

/// `DateTime::with_timezone` for `Local`: the offset of the local zone at
/// an instant. An offset of `chrono` is less than a day.
#[verifier::external_body]
pub(crate) fn local_offset_at(secs: i64) -> (offset: i32)
    requires
        MIN_SECS <= secs <= MAX_SECS,
    ensures
        offset_ok(offset),
{
    let utc = DateTime::from_timestamp(secs, 0).unwrap();
    utc.with_timezone(&Local).offset().local_minus_utc()
}

/// `NaiveDateTime::and_local_timezone` for `Local`: the offset of the local
/// zone at a date and time of its wall clock, where exactly one instant
/// shows that date and time, and `None` where none or two do.
#[verifier::external_body]
pub(crate) fn local_offset_for(wall_secs: i64) -> (offset: Option<i32>)
    requires
        MIN_SECS <= wall_secs <= MAX_SECS,
    ensures
        offset matches Some(o) ==> offset_ok(o),
{
    let wall = DateTime::from_timestamp(wall_secs, 0).unwrap().naive_utc();
    wall.and_local_timezone(Local).single().map(|dt| dt.offset().local_minus_utc())
}

/// `DateTime::to_rfc3339`: the date, `T`, the time with the fraction of a
/// second that it needs, and the offset as hours and minutes. The text is
/// made of digits, signs and the marks `-`, `:`, `.` and `T`.
#[verifier::external_body]
pub(crate) fn rfc3339_text(t: &Timestamp) -> (out: String)
    requires
        t.wf(),
    ensures
        out@ == rfc3339_of(t.secs, t.nanos, t.offset),
        out@.len() > 0,
        forall|i: int| 0 <= i < out@.len() ==> !is_space(#[trigger] out@[i]),
{
    let utc = DateTime::from_timestamp(t.secs, 0).unwrap().with_nanosecond(t.nanos).unwrap();
    utc.with_timezone(&FixedOffset::east_opt(t.offset).unwrap()).to_rfc3339()
}

impl Timestamp {
    /// Whether `chrono` represents this instant and this offset.
    pub open spec fn wf(self) -> bool {
        instant_ok(self.secs, self.nanos) && offset_ok(self.offset)
    }

    /// Whether `self` is no earlier than `other`. The offsets play no part.
    pub open spec fn not_before(self, other: Timestamp) -> bool {
        self.secs > other.secs || (self.secs == other.secs && self.nanos >= other.nanos)
    }

    /// The nanoseconds from 1970-01-01T00:00:00Z to this instant, where an
    /// `i64` holds them.
    pub open spec fn epoch_nanos(self) -> Option<i64> {
        let total = self.secs * 1_000_000_000 + self.nanos;
        if i64::MIN <= total <= i64::MAX {
            Some(total as i64)
        } else {
            None
        }
    }

    /// The timestamp of these parts, where `chrono` represents it.
    pub fn new(secs: i64, nanos: u32, offset: i32) -> (r: Option<Timestamp>)
        ensures
            r == if instant_ok(secs, nanos) && offset_ok(offset) {
                Some(Timestamp { secs, nanos, offset })
            } else {
                None::<Timestamp>
            },
    {
        if valid_instant(secs, nanos) && -86_400 < offset && offset < 86_400 {
            Some(Timestamp { secs, nanos, offset })
        } else {
            None
        }
    }

    /// Tests whether `self` is no earlier than `other`.
    pub fn is_not_before(&self, other: &Timestamp) -> (r: bool)
        ensures
            r == self.not_before(*other),
    {
        self.secs > other.secs || (self.secs == other.secs && self.nanos >= other.nanos)
    }

    /// The nanoseconds from 1970-01-01T00:00:00Z to this instant, or `None`
    /// where an `i64` does not hold them.
    pub fn timestamp_nanos_opt(&self) -> (r: Option<i64>)
        ensures
            r == self.epoch_nanos(),
    {
        let total: i128 = self.secs as i128 * 1_000_000_000 + self.nanos as i128;
        if total < i64::MIN as i128 || total > i64::MAX as i128 {
            None
        } else {
            Some(total as i64)
        }
    }
}

/// Tests whether `chrono` represents an instant.
pub fn valid_instant(secs: i64, nanos: u32) -> (r: bool)
    ensures
        r == instant_ok(secs, nanos),
{
    MIN_SECS <= secs && secs <= MAX_SECS && nanos < 2_000_000_000 && (secs < MAX_SECS || nanos
        < 1_000_000_000)
}

} // verus!
