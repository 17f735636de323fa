//! Wall-clock time: a reading of the CMOS clock turned into Unix milliseconds,
//! and carried on by the tick counter.

use vstd::prelude::*;

verus! {

/// Readings of the clock before the last one is taken as it is.
pub const MAX_READS: usize = 8;

/// The clock's registers as read.
#[derive(Clone, Copy, Debug, PartialEq, Eq, Structural)]
pub struct RtcSnapshot {
    pub sec: u8,
    pub min: u8,
    /// In 12-hour mode the highest bit marks the afternoon.
    pub hour: u8,
    pub day: u8,
    pub mon: u8,
    /// Two digits.
    pub year: u8,
    pub century: u8,
}

/// A date and a time of day.
#[derive(Clone, Copy, Debug, PartialEq, Eq, Structural)]
pub struct RtcTime {
    pub sec: u32,
    pub min: u32,
    pub hour: u32,
    pub day: u32,
    pub mon: u32,
    pub year: u32,
}

/// The wall clock: not set yet, or anchored by the Unix time of a moment and the
/// tick at that moment.
#[derive(Clone, Copy, Debug, PartialEq, Eq, Structural)]
pub enum Clock {
    Unset,
    Anchored { epoch_ms: u64, mono: u64 },
}

/// The first reading, of the first so many pairs, that was read twice alike.
pub open spec fn stable_from(reads: Seq<(RtcSnapshot, RtcSnapshot)>, k: int) -> Option<RtcSnapshot>
    decreases reads.len() - k,
{
    if k >= reads.len() || k >= MAX_READS {
        None
    } else if reads[k].0 == reads[k].1 {
        Some(reads[k].0)
    } else {
        stable_from(reads, k + 1)
    }
}

/// The first reading that was read twice alike.
pub fn stable_snapshot(reads: &[(RtcSnapshot, RtcSnapshot)]) -> (s: Option<RtcSnapshot>)
    ensures
        s == stable_from(reads@, 0),
{
    let mut k: usize = 0;
    while k < reads.len() && k < MAX_READS
        invariant
            k <= reads@.len(),
            stable_from(reads@, 0) == stable_from(reads@, k as int),
        decreases reads@.len() - k,
    {
        if reads[k].0 == reads[k].1 {
            return Some(reads[k].0);
        }
        k += 1;
    }
    None
}

/// The reading to use: the first that was read twice alike, else `last`.
pub fn choose_snapshot(reads: &[(RtcSnapshot, RtcSnapshot)], last: RtcSnapshot) -> (s: RtcSnapshot)
    ensures
        s == match stable_from(reads@, 0) {
            Some(a) => a,
            None => last,
        },
{
    match stable_snapshot(reads) {
        Some(a) => a,
        None => last,
    }
}

/// A value in binary-coded decimal.
pub open spec fn bcd(b: u8) -> int {
    b as int / 16 * 10 + b as int % 16
}

pub fn bcd_to_bin(b: u8) -> (r: u8)
    ensures
        r == bcd(b),
{
    b / 16 * 10 + b % 16
}

/// A register in the encoding that status register B names.
pub open spec fn converted(b: u8, reg_b: u8) -> int {
    if reg_b / 4 % 2 == 1 {
        b as int
    } else {
        bcd(b)
    }
}

/// The hour of the day. In 12-hour mode twelve is the first hour of its half.
pub open spec fn hour_of(raw: u8, reg_b: u8) -> int {
    if reg_b / 2 % 2 == 1 {
        converted(raw, reg_b)
    } else {
        let h = converted((raw % 0x80) as u8, reg_b);
        let pm = raw >= 0x80;
        if h == 12 {
            if pm {
                12
            } else {
                0
            }
        } else if pm {
            h + 12
        } else {
            h
        }
    }
}

/// The century, where the clock's register holds a plausible one.
pub open spec fn century_of(raw: u8, reg_b: u8) -> int {
    let c = converted(raw, reg_b);
    if 19 <= c <= 21 {
        c
    } else {
        20
    }
}

/// The date and time in a reading.
pub open spec fn time_in(s: RtcSnapshot, reg_b: u8) -> RtcTime {
    RtcTime {
        sec: converted(s.sec, reg_b) as u32,
        min: converted(s.min, reg_b) as u32,
        hour: hour_of(s.hour, reg_b) as u32,
        day: converted(s.day, reg_b) as u32,
        mon: converted(s.mon, reg_b) as u32,
        year: (century_of(s.century, reg_b) * 100 + converted(s.year, reg_b)) as u32,
    }
}

fn convert(b: u8, reg_b: u8) -> (r: u8)
    ensures
        r == converted(b, reg_b),
{
    if reg_b / 4 % 2 == 1 {
        b
    } else {
        bcd_to_bin(b)
    }
}

/// The date and time in a reading, by the modes in status register B.
pub fn decode_snapshot(s: RtcSnapshot, reg_b: u8) -> (t: RtcTime)
    ensures
        t == time_in(s, reg_b),
{
    let hour: u32 = if reg_b / 2 % 2 == 1 {
        convert(s.hour, reg_b) as u32
    } else {
        let pm: bool = s.hour >= 0x80;
        let h: u32 = convert(s.hour % 0x80, reg_b) as u32;
        if h == 12 {
            if pm {
                12
            } else {
                0
            }
        } else if pm {
            h + 12
        } else {
            h
        }
    };
    let raw: u8 = convert(s.century, reg_b);
    let century: u32 = if 19 <= raw && raw <= 21 {
        raw as u32
    } else {
        20
    };
    RtcTime {
        sec: convert(s.sec, reg_b) as u32,
        min: convert(s.min, reg_b) as u32,
        hour,
        day: convert(s.day, reg_b) as u32,
        mon: convert(s.mon, reg_b) as u32,
        year: century * 100 + convert(s.year, reg_b) as u32,
    }
}

// ── Calendar ─────────────────────────────────────────────────────────────────

/// Days from 1970-01-01 to a date, counted in years that begin in March, so
/// that the leap day is the last of its year.
pub open spec fn civil_days(y: int, m: int, d: int) -> int {
    let y1 = if m <= 2 {
        y - 1
    } else {
        y
    };
    let m1 = if m > 2 {
        m - 3
    } else {
        m + 9
    };
    let era = y1 / 400;
    let yoe = y1 % 400;
    era * 146_097 + yoe * 365 + yoe / 4 - yoe / 100 + (153 * m1 + 2) / 5 + d - 1 - 719_468
}

/// Days from 1970-01-01 to a date of the proleptic Gregorian calendar.
pub fn days_from_civil(y: i64, m: i64, d: i64) -> (r: i64)
    requires
        -20_000_000_000_000_000 <= y <= 20_000_000_000_000_000,
        0 <= m <= 255,
        0 <= d <= 255,
    ensures
        r == civil_days(y as int, m as int, d as int),
{
    let y1: i64 = if m <= 2 {
        y - 1
    } else {
        y
    };
    let m1: i64 = if m > 2 {
        m - 3
    } else {
        m + 9
    };
    let rem: i64 = if y1 >= 0 {
        y1 % 400
    } else {
        let back: i64 = (-(y1 + 1)) % 400;
        399 - back
    };
    let era: i64 = if y1 >= 0 {
        y1 / 400
    } else {
        -((-(y1 + 1)) / 400) - 1
    };
    assert(era == y1 as int / 400 && rem == y1 as int % 400);
    era * 146_097 + rem * 365 + rem / 4 - rem / 100 + (153 * m1 + 2) / 5 + d - 1 - 719_468
}

/// A leap year of the Gregorian calendar.
pub open spec fn is_leap(y: int) -> bool {
    y % 4 == 0 && (y % 100 != 0 || y % 400 == 0)
}

/// The days of a month.
pub open spec fn month_len(y: int, m: int) -> int {
    if m == 2 {
        if is_leap(y) {
            29
        } else {
            28
        }
    } else if m == 4 || m == 6 || m == 9 || m == 11 {
        30
    } else {
        31
    }
}

/// Unix milliseconds at a date and time; machine arithmetic before 1970.
pub open spec fn epoch_of(t: RtcTime) -> int {
    (civil_days(t.year as int, t.mon as int, t.day as int) * 86_400_000 + (t.hour * 3_600 + t.min
        * 60 + t.sec) * 1_000) % 0x1_0000_0000_0000_0000
}

/// The largest that a field can be when decoded.
pub open spec fn plausible(t: RtcTime) -> bool {
    t.sec <= 255 && t.min <= 255 && t.hour <= 267 && t.day <= 255 && t.mon <= 255 && t.year <= 2355
}

fn epoch_at(t: RtcTime) -> (ms: u64)
    requires
        plausible(t),
    ensures
        ms == epoch_of(t),
{
    let days: i64 = days_from_civil(t.year as i64, t.mon as i64, t.day as i64);
    let intraday: i64 = (t.hour as i64 * 3_600 + t.min as i64 * 60 + t.sec as i64) * 1_000;
    let total: i128 = days as i128 * 86_400_000 + intraday as i128;
    if total >= 0 {
        total as u64
    } else {
        assert(total + 0x1_0000_0000_0000_0000 == total % 0x1_0000_0000_0000_0000);
        (total + 0x1_0000_0000_0000_0000) as u64
    }
}

/// Anchor the clock: the reading's Unix time belongs to the current tick.
pub fn init(s: RtcSnapshot, reg_b: u8, ticks: u64) -> (c: Clock)
    ensures
        c == (Clock::Anchored { epoch_ms: epoch_of(time_in(s, reg_b)) as u64, mono: ticks }),
{
    let t: RtcTime = decode_snapshot(s, reg_b);
    Clock::Anchored { epoch_ms: epoch_at(t), mono: ticks }
}

/// Unix milliseconds at a tick: 0 before the clock is set, and from there on by
/// machine arithmetic, with the anchor's time for a tick before it.
pub open spec fn epoch_ms_at(c: Clock, ticks: u64) -> u64 {
    match c {
        Clock::Unset => 0,
        Clock::Anchored { epoch_ms, mono } => {
            let ahead = if ticks > mono {
                ticks - mono
            } else {
                0
            };
            ((epoch_ms + ahead) % 0x1_0000_0000_0000_0000) as u64
        },
    }
}

/// Unix milliseconds now.
pub fn epoch_ms(c: &Clock, ticks: u64) -> (ms: u64)
    ensures
        ms == epoch_ms_at(*c, ticks),
{
    match *c {
        Clock::Unset => 0,
        Clock::Anchored { epoch_ms, mono } => epoch_ms.wrapping_add(ticks.saturating_sub(mono)),
    }
}

// ── Laws ─────────────────────────────────────────────────────────────────────

/// The count of days is that of the calendar: the epoch is day 0, the next day
/// of a month is one more, and so is the first day of the next month after the
/// last of one, and of the next year after the last of one.
pub proof fn law_days_follow_the_calendar(y: int, m: int, d: int)
    requires
        1 <= m <= 12,
    ensures
        civil_days(1970, 1, 1) == 0,
        civil_days(y, m, d + 1) == civil_days(y, m, d) + 1,
        m < 12 ==> civil_days(y, m + 1, 1) == civil_days(y, m, month_len(y, m)) + 1,
        civil_days(y + 1, 1, 1) == civil_days(y, 12, 31) + 1,
{
    let y1 = y - 1;
    assert(y / 400 * 400 + y % 400 == y);
    assert(y1 / 400 * 400 + y1 % 400 == y1);
    assert(y % 400 % 4 == y % 4 && y % 400 % 100 == y % 100);
    assert(y1 % 400 == if y % 400 == 0 {
        399
    } else {
        y % 400 - 1
    });
    assert(y1 / 400 == if y % 400 == 0 {
        y / 400 - 1
    } else {
        y / 400
    });
}

/// Between two ticks after the anchor the clock advances by as many
/// milliseconds.
pub proof fn law_clock_follows_the_ticks(epoch_ms: u64, mono: u64, a: u64, b: u64)
    requires
        mono <= a <= b,
        epoch_ms + (b - mono) <= u64::MAX,
    ensures
        ({
            let c = Clock::Anchored { epoch_ms, mono };
            epoch_ms_at(c, b) - epoch_ms_at(c, a) == b - a
        }),
{
}

} // verus!
