//! Reading the date of a block header.
//!
//! A date is tried as RFC 3339 text, then as a date and time with an
//! offset, then as a date and time of the local wall clock, then as a bare
//! date, which stands for its midnight on the local wall clock.

use crate::text::{
    copy_range, in_class, lemma_run, run, scan, to_chars, views, CharClass,
};
use crate::timestamp::{
    civil_midnight, date_midnight, date_parts, instant_ok, local_offset_at, local_offset_for,
    now_parts, offset_ok, rfc3339_instant, rfc3339_parts, valid_instant, wall_parts, wall_time,
    ymd_parts, zoned_instant, zoned_parts, Timestamp, MAX_SECS, MIN_SECS,
};
use vstd::prelude::*;

verus! {

/// What the text of a date was read as.
#[derive(Clone, Copy, Debug, PartialEq, Eq, Structural)]
pub enum DateReading {
    /// An instant: the text named its own zone.
    Instant { secs: i64, nanos: u32 },
    /// A date and time on the wall clock of the local zone, as the seconds
    /// that the same date and time has in UTC.
    Wall { secs: i64, nanos: u32 },
    /// Nothing.
    Unreadable,
}

/// The value of a decimal digit.
pub open spec fn digit_of(c: char) -> Option<nat> {
    if '0' <= c <= '9' {
        Some((c as u32 - 48) as nat)
    } else {
        None
    }
}

/// The number that `s` writes in decimal digits; `None` where `s` is empty
/// or holds anything but digits.
pub open spec fn decimal(s: Seq<char>) -> Option<nat>
    decreases s.len(),
{
    if s.len() == 0 {
        None
    } else if s.len() == 1 {
        digit_of(s[0])
    } else {
        match (decimal(s.drop_last()), digit_of(s.last())) {
            (Some(high), Some(low)) => Some(high * 10 + low),
            _ => None,
        }
    }
}

/// The `u32` that `s` writes: digits, after an optional `+`.
pub open spec fn u32_of(s: Seq<char>) -> Option<u32> {
    let body = if s.len() > 0 && s[0] == '+' {
        s.skip(1)
    } else {
        s
    };
    match decimal(body) {
        Some(v) => if v <= u32::MAX {
            Some(v as u32)
        } else {
            None
        },
        None => None,
    }
}

/// The `i32` that `s` writes: digits, after an optional `+` or `-`.
pub open spec fn i32_of(s: Seq<char>) -> Option<i32> {
    if s.len() > 0 && s[0] == '-' {
        match decimal(s.skip(1)) {
            Some(v) => if v <= 0x8000_0000 {
                Some((-v) as i32)
            } else {
                None
            },
            None => None,
        }
    } else {
        match u32_of(s) {
            Some(v) => if v <= i32::MAX {
                Some(v as i32)
            } else {
                None
            },
            None => None,
        }
    }
}

/// The number that the characters from `from` on write in decimal digits,
/// where it is at most `u32::MAX`, and `0x1_0000_0000` where it is more.
fn read_decimal(v: &Vec<char>, from: usize) -> (r: Option<u64>)
    requires
        from <= v.len(),
    ensures
        match decimal(v@.skip(from as int)) {
            Some(n) => r == Some(
                if n <= u32::MAX {
                    n as u64
                } else {
                    0x1_0000_0000u64
                },
            ),
            None => r is None,
        },
{
    let n = v.len();
    if from == n {
        return None;
    }
    let ghost s = v@.skip(from as int);
    let mut acc: u64 = 0;
    let mut i: usize = from;
    while i < n
        invariant
            from <= i <= n,
            n == v.len(),
            s == v@.skip(from as int),
            acc <= 0x1_0000_0000,
            i > from ==> match decimal(s.take(i - from)) {
                Some(m) => acc == if m <= u32::MAX {
                    m as u64
                } else {
                    0x1_0000_0000u64
                },
                None => false,
            },
            i == from ==> acc == 0,
        decreases n - i,
    {
        let c = v[i];
        let ghost next = s.take(i - from + 1);
        proof {
            assert(next.last() == c);
            assert(next.drop_last() == s.take(i - from));
        }
        if !('0' <= c && c <= '9') {
            proof {
                lemma_decimal_prefix(s, i - from + 1);
            }
            return None;
        }
        let d: u64 = (c as u32 - 48) as u64;
        let grown: u64 = acc * 10 + d;
        acc = if grown > 0xFFFF_FFFF {
            0x1_0000_0000
        } else {
            grown
        };
        i += 1;
    }
    proof {
        assert(s.take((n - from) as int) == s);
    }
    Some(acc)
}

/// Where a prefix writes no number, neither does the whole.
proof fn lemma_decimal_prefix(s: Seq<char>, k: int)
    requires
        0 < k <= s.len(),
        decimal(s.take(k)) is None,
    ensures
        decimal(s) is None,
    decreases s.len(),
{
    if k < s.len() {
        assert(s.drop_last().take(k) == s.take(k));
        lemma_decimal_prefix(s.drop_last(), k);
    } else {
        assert(s.take(k) == s);
    }
}

/// The `u32` that `v` writes.
pub fn parse_u32(v: &Vec<char>) -> (r: Option<u32>)
    ensures
        r == u32_of(v@),
{
    let from: usize = if v.len() > 0 && v[0] == '+' {
        1
    } else {
        0
    };
    assert(v@.skip(0) == v@);
    match read_decimal(v, from) {
        Some(n) => if n <= 0xFFFF_FFFF {
            Some(n as u32)
        } else {
            None
        },
        None => None,
    }
}

/// The `i32` that `v` writes.
pub fn parse_i32(v: &Vec<char>) -> (r: Option<i32>)
    ensures
        r == i32_of(v@),
{
    if v.len() > 0 && v[0] == '-' {
        match read_decimal(v, 1) {
            Some(n) => if n <= 0x8000_0000 {
                Some((0 - n as i64) as i32)
            } else {
                None
            },
            None => None,
        }
    } else {
        match parse_u32(v) {
            Some(n) => if n <= 0x7FFF_FFFF {
                Some(n as i32)
            } else {
                None
            },
            None => None,
        }
    }
}

/// The pieces of `s` between the occurrences of `sep`: one more than there
/// are occurrences.
pub open spec fn split_on(s: Seq<char>, sep: char) -> Seq<Seq<char>>
    decreases s.len(),
{
    let k = run(s, CharClass::Until(sep)) as int;
    if k < 0 || k >= s.len() {
        seq![s]
    } else {
        seq![s.take(k)] + split_on(s.skip(k + 1), sep)
    }
}

/// The pieces of `text` between the occurrences of `sep`.
pub fn split_at_char(text: &Vec<char>, sep: char) -> (out: Vec<Vec<char>>)
    ensures
        views(out@) == split_on(text@, sep),
{
    let mut out: Vec<Vec<char>> = Vec::new();
    let n = text.len();
    let mut start: usize = 0;
    assert(text@.skip(0) == text@);
    assert(views(out@) + split_on(text@, sep) == split_on(text@, sep));
    loop
        invariant_except_break
            start <= n,
            n == text.len(),
            views(out@) + split_on(text@.skip(start as int), sep) == split_on(text@, sep),
        ensures
            views(out@) == split_on(text@, sep),
        decreases n - start,
    {
        let ghost rest = text@.skip(start as int);
        let ghost before = views(out@);
        let end = scan(text, start, CharClass::Until(sep));
        let piece = copy_range(text, start, end);
        assert(piece@ == rest.take(end - start));
        out.push(piece);
        assert(views(out@) == before.push(piece@));
        if end == n {
            assert(rest.take(end - start) == rest);
            break ;
        }
        assert(rest.skip(end - start + 1) == text@.skip(end + 1));
        start = end + 1;
    }
    out
}

/// Tests whether `c` occurs in `text`.
pub fn has_char(text: &Vec<char>, c: char) -> (r: bool)
    ensures
        r == text@.contains(c),
{
    let k = scan(text, 0, CharClass::Until(c));
    proof {
        assert(text@.skip(0) == text@);
        lemma_run(text@, CharClass::Until(c));
        if k < text.len() {
            assert(text@[k as int] == c);
        } else {
            assert forall|i: int| 0 <= i < text@.len() implies text@[i] != c by {
                assert(in_class(CharClass::Until(c), text@[i]));
            }
        }
    }
    k < text.len()
}

/// Midnight of a date written as a year, a month and a day between `/`,
/// or, where the text holds no `/`, between `-`.
pub open spec fn manual_date(d: Seq<char>) -> Option<i64> {
    if !d.contains('/') && !d.contains('-') {
        None
    } else {
        let parts = split_on(
            d,
            if d.contains('/') {
                '/'
            } else {
                '-'
            },
        );
        if parts.len() != 3 {
            None
        } else {
            match (i32_of(parts[0]), u32_of(parts[1]), u32_of(parts[2])) {
                (Some(year), Some(month), Some(day)) => civil_midnight(year, month, day),
                _ => None,
            }
        }
    }
}

/// Reads a date written as a year, a month and a day, by hand.
pub fn parse_manual_date(date: &Vec<char>) -> (r: Option<i64>)
    ensures
        r == manual_date(date@),
{
    let sep = if has_char(date, '/') {
        '/'
    } else if has_char(date, '-') {
        '-'
    } else {
        return None;
    };
    let parts = split_at_char(date, sep);
    if parts.len() != 3 {
        return None;
    }
    proof {
        assert(views(parts@)[0] == parts@[0]@);
        assert(views(parts@)[1] == parts@[1]@);
        assert(views(parts@)[2] == parts@[2]@);
    }
    let year = parse_i32(&parts[0]);
    let month = parse_u32(&parts[1]);
    let day = parse_u32(&parts[2]);
    match (year, month, day) {
        (Some(y), Some(m), Some(d)) => ymd_parts(y, m, d),
        _ => None,
    }
}

/// Midnight of the date that `d` writes: by the first format of four that
/// fits, or else as `manual_date` reads it.
pub open spec fn bare_date(d: Seq<char>) -> Option<i64> {
    if date_midnight(d, "%Y/%m/%d"@) is Some {
        date_midnight(d, "%Y/%m/%d"@)
    } else if date_midnight(d, "%Y-%m-%d"@) is Some {
        date_midnight(d, "%Y-%m-%d"@)
    } else if date_midnight(d, "%Y/%#m/%#d"@) is Some {
        date_midnight(d, "%Y/%#m/%#d"@)
    } else if date_midnight(d, "%Y-%#m-%#d"@) is Some {
        date_midnight(d, "%Y-%#m-%#d"@)
    } else {
        manual_date(d)
    }
}

/// Reads a bare date.
pub fn parse_simple_date(date: &str) -> (r: Option<i64>)
    ensures
        r == bare_date(date@),
{
    let first = date_parts(date, "%Y/%m/%d");
    if first.is_some() {
        return first;
    }
    let second = date_parts(date, "%Y-%m-%d");
    if second.is_some() {
        return second;
    }
    let third = date_parts(date, "%Y/%#m/%#d");
    if third.is_some() {
        return third;
    }
    let fourth = date_parts(date, "%Y-%#m-%#d");
    if fourth.is_some() {
        return fourth;
    }
    let chars = to_chars(date);
    parse_manual_date(&chars)
}

/// An instant, where `chrono` represents it.
pub open spec fn in_range(p: Option<(i64, u32)>) -> Option<(i64, u32)> {
    match p {
        Some((secs, nanos)) => if instant_ok(secs, nanos) {
            p
        } else {
            None
        },
        None => None,
    }
}

/// What the date `d` of a header reads as: by RFC 3339; else as a date and
/// time with an offset; else as a date and time of the wall clock; else as
/// a bare date, at midnight of the wall clock.
pub open spec fn date_reading(d: Seq<char>) -> DateReading {
    if let Some((secs, nanos)) = in_range(rfc3339_instant(d)) {
        DateReading::Instant { secs, nanos }
    } else if let Some((secs, nanos)) = in_range(zoned_instant(d, "%Y-%m-%d %H:%M:%S %z"@)) {
        DateReading::Instant { secs, nanos }
    } else if let Some((secs, nanos)) = in_range(wall_time(d, "%Y-%m-%d %H:%M:%S"@)) {
        DateReading::Wall { secs, nanos }
    } else {
        match bare_date(d) {
            Some(secs) => if MIN_SECS <= secs <= MAX_SECS {
                DateReading::Wall { secs, nanos: 0 }
            } else {
                DateReading::Unreadable
            },
            None => DateReading::Unreadable,
        }
    }
}

/// Keeps an instant that `chrono` represents.
fn checked(p: Option<(i64, u32)>) -> (r: Option<(i64, u32)>)
    ensures
        r == in_range(p),
{
    match p {
        Some((secs, nanos)) => if valid_instant(secs, nanos) {
            p
        } else {
            None
        },
        None => None,
    }
}

/// Reads the date of a header.
pub fn read_date(date: &str) -> (r: DateReading)
    ensures
        r == date_reading(date@),
        r.wf(),
{
    if let Some((secs, nanos)) = checked(rfc3339_parts(date)) {
        return DateReading::Instant { secs, nanos };
    }
    if let Some((secs, nanos)) = checked(zoned_parts(date, "%Y-%m-%d %H:%M:%S %z")) {
        return DateReading::Instant { secs, nanos };
    }
    if let Some((secs, nanos)) = checked(wall_parts(date, "%Y-%m-%d %H:%M:%S")) {
        return DateReading::Wall { secs, nanos };
    }
    match parse_simple_date(date) {
        Some(secs) => if MIN_SECS <= secs && secs <= MAX_SECS {
            DateReading::Wall { secs, nanos: 0 }
        } else {
            DateReading::Unreadable
        },
        None => DateReading::Unreadable,
    }
}

impl DateReading {
    /// Whether what was read is a time that `chrono` represents.
    pub open spec fn wf(self) -> bool {
        match self {
            DateReading::Instant { secs, nanos } => instant_ok(secs, nanos),
            DateReading::Wall { secs, nanos } => instant_ok(secs, nanos),
            DateReading::Unreadable => true,
        }
    }

    /// The timestamp of a reading, given the offset of the local zone
    /// there, if it has one: the instant read, shown in the local zone; or
    /// the instant at which the local wall clock shows what was read. It is
    /// `None` where nothing was read, where the zone gave no offset, and
    /// where `chrono` does not represent what was read or the result.
    pub open spec fn placed(self, local: Option<i32>) -> Option<Timestamp> {
        match (self, local) {
            (DateReading::Instant { secs, nanos }, Some(offset)) => if instant_ok(secs, nanos)
                && offset_ok(offset) {
                Some(Timestamp { secs, nanos, offset })
            } else {
                None
            },
            (DateReading::Wall { secs, nanos }, Some(offset)) => if MIN_SECS <= secs <= MAX_SECS
                && offset_ok(offset) && instant_ok((secs - offset) as i64, nanos) {
                Some(Timestamp { secs: (secs - offset) as i64, nanos, offset })
            } else {
                None
            },
            _ => None,
        }
    }

    /// Whether `t` may be the timestamp of this reading on some machine at
    /// some time: an instant that was read is kept; anything else depends
    /// on the local zone and the clock.
    pub open spec fn admits(self, t: Timestamp) -> bool {
        &&& t.wf()
        &&& self matches DateReading::Instant { secs, nanos } ==> instant_ok(secs, nanos)
            ==> t.secs == secs && t.nanos == nanos
    }

    /// The timestamp of a reading, given the offset of the local zone
    /// there, if it has one.
    pub fn place(self, local: Option<i32>) -> (r: Option<Timestamp>)
        ensures
            r == self.placed(local),
            r matches Some(t) ==> t.wf() && self.admits(t),
    {
        match (self, local) {
            (DateReading::Instant { secs, nanos }, Some(offset)) => {
                if valid_instant(secs, nanos) && -86_400 < offset && offset < 86_400 {
                    Some(Timestamp { secs, nanos, offset })
                } else {
                    None
                }
            },
            (DateReading::Wall { secs, nanos }, Some(offset)) => {
                if MIN_SECS <= secs && secs <= MAX_SECS && -86_400 < offset && offset < 86_400
                    && valid_instant(secs - offset as i64, nanos) {
                    Some(Timestamp { secs: secs - offset as i64, nanos, offset })
                } else {
                    None
                }
            },
            _ => None,
        }
    }

    /// The timestamp of a reading on this machine: as `placed` gives it
    /// with the offset that the local zone has there, and the current time
    /// where that is `None`.
    pub fn resolve(self) -> (t: Timestamp)
        ensures
            self.admits(t),
    {
        let local = match self {
            DateReading::Instant { secs, nanos } => {
                if valid_instant(secs, nanos) {
                    Some(local_offset_at(secs))
                } else {
                    None
                }
            },
            DateReading::Wall { secs, nanos } => {
                if MIN_SECS <= secs && secs <= MAX_SECS {
                    local_offset_for(secs)
                } else {
                    None
                }
            },
            DateReading::Unreadable => None,
        };
        match self.place(local) {
            Some(t) => t,
            None => now_parts(),
        }
    }
}

} // verus!
