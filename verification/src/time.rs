//! Points in time: reading the clock, telling the time from text and showing it.

use crate::text::{
    begins_with, byte_len, char_separates, chars_of, digit_value, is_digit, lower, parse_signed,
    parse_unsigned, part_at, same_text, shorter_than, signed_value, starts_with, starts_with_char,
    to_lower, trim, trim_leading, trimmed, trimmed_start, unsigned_value, without_leading,
};
use chrono::{Offset, TimeZone, Timelike};
use vstd::prelude::*;
use vstd::string::StrSliceExecFns;

verus! {

pub const DAY: i64 = 86400;

/// The first second of the calendar, a quarter of a million years before 1970.
pub const DAWN: i64 = -8_334_601_228_800;

/// The last second of the calendar, a quarter of a million years after 1970.
pub const HORIZON: i64 = 8_210_266_876_799;

/// A point in time, with the distance of the local clock from UTC in seconds.
#[derive(Clone, Copy, Debug, PartialEq, Eq, Structural)]
pub struct LocalTime {
    pub secs: i64,
    pub nanos: u32,
    pub offset: i32,
}

impl LocalTime {
    pub open spec fn in_range(self) -> bool {
        DAWN <= self.secs <= HORIZON && -DAY < self.offset < DAY
    }

    /// The number of days that the local calendar has counted since 1970.
    pub open spec fn day(self) -> int {
        (self.secs + self.offset) / (DAY as int)
    }

    pub fn is_in_range(&self) -> (r: bool)
        ensures
            r == self.in_range(),
    {
        DAWN <= self.secs && self.secs <= HORIZON && -DAY < self.offset as i64
            && (self.offset as i64) < DAY
    }

    pub fn local_day(&self) -> (r: i64)
        requires
            self.in_range(),
        ensures
            r == self.day(),
    {
        let wall: i64 = self.secs + self.offset as i64;
        match wall.checked_div_euclid(DAY) {
            Some(day) => day,
            None => 0,
        }
    }
}

/// A point in time that has a nostr timestamp.
pub trait ToTimestamp {
    spec fn seconds(&self) -> int;

    /// Seconds since 1970, or zero for earlier times.
    fn to_timestamp(&self) -> (r: u64)
        ensures
            r == if self.seconds() > 0 {
                self.seconds()
            } else {
                0
            },
    ;
}

impl ToTimestamp for LocalTime {
    open spec fn seconds(&self) -> int {
        self.secs as int
    }

    fn to_timestamp(&self) -> (r: u64) {
        if self.secs > 0 {
            self.secs as u64
        } else {
            0
        }
    }
}

// ---------------------------------------------------------------------------
// The clock and the zone of the machine

/// `nostr_sdk::Timestamp::now` reads the clock. Nothing is said of what it shows.
#[verifier::external_body]
pub(crate) fn clock() -> (r: u64) {
    nostr_sdk::Timestamp::now().as_u64()
}

/// `chrono::Local::now` reads the clock and the time zone. What they show is open, but it is a
/// second of the calendar, not before 1970, with less than a second more, and the local clock is
/// less than a day from UTC.
#[verifier::external_body]
fn zoned_clock() -> (r: (i64, u32, i32))
    ensures
        0 <= r.0 <= HORIZON,
        r.1 < 1_000_000_000,
        -DAY < r.2 < DAY,
{
    let now = chrono::Local::now();
    (now.timestamp(), now.timestamp_subsec_nanos(), now.offset().local_minus_utc())
}

/// `chrono::Local.timestamp_opt`: how far the local clock is from UTC at the given second, if the
/// calendar has it, from the dawn to the horizon. The distance is less than a day; which it is
/// rests with the machine.
#[verifier::external_body]
pub(crate) fn local_offset(secs: i64) -> (r: Option<i32>)
    ensures
        r matches Some(offset) ==> -DAY < offset < DAY,
        DAWN <= secs <= HORIZON ==> r is Some,
{
    chrono::Local.timestamp_opt(secs, 0).single().map(|t| t.offset().local_minus_utc())
}

/// `chrono::Local.from_local_datetime`: when the local clock shows the given second of the given
/// day, if it does so once. Which time that is rests with the machine; with its distance from UTC
/// it is the time shown.
#[verifier::external_body]
fn wall_clock(day: i64, second: u32) -> (r: Option<(i64, i32)>)
    ensures
        r matches Some((secs, offset)) ==> secs + offset == day * DAY + second && -DAY < offset
            < DAY,
{
    let date = chrono::NaiveDate::from_ymd_opt(1970, 1, 1)?
        .checked_add_signed(chrono::TimeDelta::try_days(day)?)?;
    let time = chrono::NaiveTime::from_num_seconds_from_midnight_opt(second, 0)?;
    let found = chrono::Local.from_local_datetime(&date.and_time(time)).single()?;
    Some((found.timestamp(), found.offset().local_minus_utc()))
}

/// A time that the clock of the machine can show.
pub open spec fn is_clock_time(time: LocalTime) -> bool {
    time.in_range() && 0 <= time.secs && time.nanos < 1_000_000_000
}

/// The time of the machine.
pub fn local_now() -> (r: LocalTime)
    ensures
        is_clock_time(r),
{
    let (secs, nanos, offset): (i64, u32, i32) = zoned_clock();
    LocalTime { secs, nanos, offset }
}

// ---------------------------------------------------------------------------
// Hours

/// The hour and minute that a plain number stands for: up to two digits are an hour, more are an
/// hour with minutes.
pub open spec fn hour_of(s: Seq<char>) -> Option<(int, int)> {
    match unsigned_value(s, 0xffff_ffff) {
        Some(n) => {
            let (hour, minute) = if byte_len(s) > 2 {
                (n / 100, n % 100)
            } else {
                (n, 0)
            };
            if hour < 24 && minute < 60 {
                Some((hour, minute))
            } else {
                None
            }
        },
        None => None,
    }
}

pub fn read_hour(s: &str) -> (r: Option<(u32, u32)>)
    ensures
        match r {
            Some((hour, minute)) => hour_of(s@) == Some((hour as int, minute as int)) && hour < 24
                && minute < 60,
            None => hour_of(s@) is None,
        },
{
    match parse_unsigned(s, 0xffff_ffff) {
        Some(n) => {
            let n: u32 = n as u32;
            let (hour, minute): (u32, u32) = if !shorter_than(s, 3) {
                (n / 100, n % 100)
            } else {
                (n, 0)
            };
            if hour < 24 && minute < 60 {
                Some((hour, minute))
            } else {
                None
            }
        },
        None => None,
    }
}

/// Whether the second starts before the given time.
pub open spec fn is_before(secs: int, time: LocalTime) -> bool {
    secs < time.secs || (secs == time.secs && time.nanos > 0)
}

/// The second at which the local clock shows the given hour on the day of `after`, or a day later
/// if that is before `after`; `shown` is the second at which it shows it on that day.
pub open spec fn next_day_if_before(shown: int, after: LocalTime) -> int {
    if is_before(shown, after) {
        shown + DAY
    } else {
        shown
    }
}

/// What the local clock shows at the given hour of the day of `after`.
pub open spec fn wall_at(after: LocalTime, hour: int, minute: int) -> int {
    after.day() * DAY + hour * 3600 + minute * 60
}

/// The first time not before `after` at which a clock that keeps its distance from UTC shows the
/// hour in the text.
pub open spec fn hour_after(s: Seq<char>, after: LocalTime) -> Option<LocalTime> {
    match hour_of(s) {
        Some((hour, minute)) => Some(
            LocalTime {
                secs: next_day_if_before(
                    wall_at(after, hour, minute) - after.offset,
                    after,
                ) as i64,
                nanos: 0,
                offset: after.offset,
            },
        ),
        None => None,
    }
}

/// Parses the hour optionally with minute from a plain number in a String.
pub fn parse_hour_after(str: &str, after: LocalTime) -> (r: Option<LocalTime>)
    requires
        after.in_range(),
    ensures
        r == hour_after(str@, after),
{
    match read_hour(str) {
        Some((hour, minute)) => {
            let day: i64 = after.local_day();
            let wall: i64 = day * DAY + (hour as i64) * 3600 + (minute as i64) * 60;
            let shown: i64 = wall - after.offset as i64;
            let secs: i64 = if shown < after.secs || (shown == after.secs && after.nanos > 0) {
                shown + DAY
            } else {
                shown
            };
            Some(LocalTime { secs, nanos: 0, offset: after.offset })
        },
        None => None,
    }
}

/// The time at which the local clock shows an hour next, not before `after`: on that day it does so
/// at the second and the distance from UTC in `shown`, if it does so once, and a day later its
/// distance from UTC is `next`, if the calendar has that second.
pub open spec fn hour_found(
    after: LocalTime,
    shown: Option<(i64, i32)>,
    next: Option<i32>,
) -> Option<LocalTime> {
    match shown {
        Some((secs, offset)) => if is_before(secs as int, after) {
            match next {
                Some(later) => Some(
                    LocalTime { secs: (secs + DAY) as i64, nanos: 0, offset: later },
                ),
                None => None,
            }
        } else {
            Some(LocalTime { secs, nanos: 0, offset })
        },
        None => None,
    }
}

/// Whether a clock can show the hour in the text at that second on the day of `after`; it does not
/// where there is no hour in the text.
pub open spec fn may_show_hour(s: Seq<char>, after: LocalTime, shown: Option<(i64, i32)>) -> bool {
    match hour_of(s) {
        Some((hour, minute)) => shown matches Some((secs, offset)) ==> secs + offset == wall_at(
            after,
            hour,
            minute,
        ) && -DAY < offset < DAY,
        None => shown is None,
    }
}

/// Whether a clock can be that far from UTC a day after it shows an hour. It is so anywhere in
/// the calendar.
pub open spec fn may_differ_next(shown: Option<(i64, i32)>, next: Option<i32>) -> bool {
    &&& next matches Some(offset) ==> -DAY < offset < DAY
    &&& shown matches Some((secs, _)) ==> (DAWN <= secs + DAY <= HORIZON ==> next is Some)
}

/// Whether the clock of the machine can show the hour in the text next at that time, for some rules
/// of the time zone.
pub open spec fn is_hour_found(s: Seq<char>, after: LocalTime, r: Option<LocalTime>) -> bool {
    exists|shown: Option<(i64, i32)>, next: Option<i32>|
        {
            &&& r == #[trigger] hour_found(after, shown, next)
            &&& may_show_hour(s, after, shown)
            &&& may_differ_next(shown, next)
        }
}

/// Takes the time at which the local clock shows an hour on the day of `after`, or the same a day
/// later if that is before.
pub fn choose_hour(after: LocalTime, shown: Option<(i64, i32)>, next: Option<i32>) -> (r: Option<
    LocalTime,
>)
    requires
        shown matches Some((secs, _)) ==> secs + DAY <= i64::MAX,
    ensures
        r == hour_found(after, shown, next),
{
    match shown {
        Some((secs, offset)) => if secs < after.secs || (secs == after.secs && after.nanos > 0) {
            match next {
                Some(later) => Some(LocalTime { secs: secs + DAY, nanos: 0, offset: later }),
                None => None,
            }
        } else {
            Some(LocalTime { secs, nanos: 0, offset })
        },
        None => None,
    }
}

/// Parses the hour optionally with minute from a plain number in a String, by the clock of the
/// machine. None where that clock does not show the hour on the day, or shows it twice.
pub fn parse_local_hour_after(str: &str, after: LocalTime) -> (r: Option<LocalTime>)
    requires
        after.in_range(),
    ensures
        is_hour_found(str@, after, r),
{
    let shown: Option<(i64, i32)> = match read_hour(str) {
        Some((hour, minute)) => wall_clock(after.local_day(), hour * 3600 + minute * 60),
        None => None,
    };
    assert(may_show_hour(str@, after, shown));
    let next: Option<i32> = match shown {
        Some((secs, _)) => local_offset(secs + DAY),
        None => None,
    };
    let r: Option<LocalTime> = choose_hour(after, shown, next);
    assert(r == hour_found(after, shown, next));
    r
}

/// How far the local clock is from UTC at the given second, where `offset` was found: less than a
/// day, and anywhere in the calendar there is a distance.
pub open spec fn zone_at(secs: i64, offset: Option<i32>) -> Option<i32> {
    match offset {
        Some(o) => if -DAY < o < DAY {
            Some(o)
        } else {
            default_zone(secs)
        },
        None => default_zone(secs),
    }
}

pub open spec fn default_zone(secs: i64) -> Option<i32> {
    if DAWN <= secs <= HORIZON {
        Some(0)
    } else {
        None
    }
}

/// Takes the distance from UTC that was found, if it can be.
pub fn choose_zone(secs: i64, offset: Option<i32>) -> (r: Option<i32>)
    ensures
        r == zone_at(secs, offset),
{
    match offset {
        Some(o) => {
            if -DAY < o as i64 && (o as i64) < DAY {
                return Some(o);
            }
        },
        None => {},
    }
    if DAWN <= secs && secs <= HORIZON {
        Some(0)
    } else {
        None
    }
}

/// `time` moved back by the given hours, if that is within range, where the local clock is `offset`
/// seconds from UTC.
pub open spec fn moved_back(time: LocalTime, hours: int, offset: Option<i32>) -> Option<LocalTime> {
    let secs: int = time.secs - 3600 * hours;
    if DAWN <= secs <= HORIZON {
        match zone_at(secs as i64, offset) {
            Some(o) => Some(LocalTime { secs: secs as i64, nanos: time.nanos, offset: o }),
            None => None,
        }
    } else {
        None
    }
}

fn move_back(time: LocalTime, hours: i64) -> (r: Option<i64>)
    ensures
        match r {
            Some(secs) => secs == time.secs - 3600 * hours && DAWN <= secs <= HORIZON,
            None => !(DAWN <= time.secs - 3600 * hours <= HORIZON),
        },
{
    let secs: i128 = time.secs as i128 - 3600 * (hours as i128);
    if secs < DAWN as i128 || secs > HORIZON as i128 {
        None
    } else {
        Some(secs as i64)
    }
}

/// `time` moved back by the given hours, if that is within range, where the local clock is `offset`
/// seconds from UTC.
pub fn hours_before_at(time: LocalTime, hours: i64, offset: Option<i32>) -> (r: Option<LocalTime>)
    ensures
        r == moved_back(time, hours as int, offset),
{
    match move_back(time, hours) {
        Some(secs) => match choose_zone(secs, offset) {
            Some(o) => Some(LocalTime { secs, nanos: time.nanos, offset: o }),
            None => None,
        },
        None => None,
    }
}

/// `time` moved back by the given hours, if that is within range.
pub fn hours_before(time: LocalTime, hours: i64) -> (r: Option<LocalTime>)
    ensures
        exists|offset: Option<i32>| r == #[trigger] moved_back(time, hours as int, offset),
{
    let offset: Option<i32> = match move_back(time, hours) {
        Some(secs) => local_offset(secs),
        None => None,
    };
    let r: Option<LocalTime> = hours_before_at(time, hours, offset);
    assert(r == moved_back(time, hours as int, offset));
    r
}

/// From when on to look for an hour at most `max_future` hours ahead: a day before that.
pub open spec fn hour_start(now: LocalTime, max_future: int, offset: Option<i32>) -> Option<LocalTime> {
    moved_back(now, 24 - max_future, offset)
}

/// From when on to look for an hour at most `max_future` hours ahead, where the local clock is
/// `offset` seconds from UTC then.
pub fn choose_hour_start(now: LocalTime, max_future: i64, offset: Option<i32>) -> (r: Option<
    LocalTime,
>)
    requires
        now.in_range(),
    ensures
        r == hour_start(now, max_future as int, offset),
{
    if max_future < -5_000_000_000 || max_future > 5_000_000_000 {
        None
    } else {
        hours_before_at(now, 24 - max_future, offset)
    }
}

/// Whether the hour in a text can be at that time, if it is looked for at all.
pub open spec fn is_hour_from(
    s: Seq<char>,
    start: Option<LocalTime>,
    r: Option<LocalTime>,
) -> bool {
    match start {
        Some(after) => is_hour_found(s, after, r),
        None => r is None,
    }
}

/// Whether the hour in a text can be at that time when the clock shows `now`, at most `max_future`
/// hours ahead, for some rules of the time zone.
pub open spec fn is_hour_read_at(
    s: Seq<char>,
    max_future: int,
    now: LocalTime,
    r: Option<LocalTime>,
) -> bool {
    exists|offset: Option<i32>|
        is_hour_from(s, #[trigger] hour_start(now, max_future, offset), r)
}

/// The same, for some clock.
pub open spec fn is_hour_read(s: Seq<char>, max_future: int, r: Option<LocalTime>) -> bool {
    exists|now: LocalTime| #[trigger]
        is_clock_time(now) && is_hour_read_at(s, max_future, now, r)
}

/// Parses the hour optionally with minute from a plain number in a String,
/// with max of max_future hours into the future from the given time.
pub fn parse_hour_at(str: &str, max_future: i64, now: LocalTime) -> (r: Option<LocalTime>)
    requires
        now.in_range(),
    ensures
        is_hour_read_at(str@, max_future as int, now, r),
{
    let there: Option<LocalTime> = choose_hour_start(now, max_future, None);
    let offset: Option<i32> = match there {
        Some(t) => local_offset(t.secs),
        None => None,
    };
    let start: Option<LocalTime> = choose_hour_start(now, max_future, offset);
    assert(start == hour_start(now, max_future as int, offset));
    match start {
        Some(after) => parse_local_hour_after(str, after),
        None => None,
    }
}

/// Parses the hour optionally with minute from a plain number in a String,
/// with max of max_future hours into the future.
pub fn parse_hour(str: &str, max_future: i64) -> (r: Option<LocalTime>)
    ensures
        is_hour_read(str@, max_future as int, r),
{
    let now: LocalTime = local_now();
    assert(is_clock_time(now));
    parse_hour_at(str, max_future, now)
}

/// Where the local clock keeps its distance from UTC, an hour is found within the day that starts
/// with `after`, and it is the one that such a clock shows.
pub proof fn an_hour_comes_within_a_day(s: Seq<char>, after: LocalTime, shown: i64)
    requires
        after.in_range(),
        hour_of(s) is Some,
        may_show_hour(s, after, Some((shown, after.offset))),
    ensures
        hour_found(after, Some((shown, after.offset)), Some(after.offset)) == hour_after(s, after),
        hour_found(after, Some((shown, after.offset)), Some(after.offset)) matches Some(t)
            && !is_before(t.secs as int, after) && is_before(t.secs - DAY, after),
{
    crate::text::lemma_unsigned_value(s, 0xffff_ffff);
    let (hour, minute) = hour_of(s).unwrap();
    assert(0 <= hour < 24 && 0 <= minute < 60);
    let wall: int = after.secs + after.offset;
    assert(after.day() * DAY <= wall < after.day() * DAY + DAY);
}

/// Where the local clock keeps its distance from UTC, an hour is found at most `max_future` hours
/// ahead, and at most a day before that.
pub proof fn an_hour_is_near_the_present(s: Seq<char>, max_future: int, now: LocalTime, shown: i64)
    requires
        now.in_range(),
        hour_of(s) is Some,
        hour_start(now, max_future, Some(now.offset)) matches Some(after) && may_show_hour(
            s,
            after,
            Some((shown, now.offset)),
        ),
    ensures
        ({
            let after = hour_start(now, max_future, Some(now.offset)).unwrap();
            hour_found(after, Some((shown, now.offset)), Some(now.offset)) matches Some(t)
                && !is_before(t.secs + 3600 * (24 - max_future), now) && is_before(
                t.secs - 3600 * max_future,
                now,
            )
        }),
{
    let after = hour_start(now, max_future, Some(now.offset)).unwrap();
    an_hour_comes_within_a_day(s, after, shown);
}

// ---------------------------------------------------------------------------
// Dates

/// The number that stands directly before position `at`.
pub open spec fn number_before(s: Seq<char>, at: int) -> int
    decreases at,
{
    if 0 < at <= s.len() && is_digit(s[at - 1]) {
        10 * number_before(s, at - 1) + digit_value(s[at - 1])
    } else {
        0
    }
}

/// Whether the number that stands directly before position `at` has a minus sign.
pub open spec fn is_negative(s: Seq<char>, at: int) -> bool
    decreases at,
{
    if 0 < at <= s.len() {
        if is_digit(s[at - 1]) {
            is_negative(s, at - 1)
        } else {
            s[at - 1] == '-'
        }
    } else {
        false
    }
}

/// The seconds in the unit of time that a text starts with, if it does with one.
pub open spec fn unit_secs(s: Seq<char>) -> int {
    if begins_with(s, "year"@) {
        31_536_000
    } else if begins_with(s, "month"@) {
        2_592_000
    } else if begins_with(s, "fortnight"@) {
        1_209_600
    } else if begins_with(s, "week"@) {
        604_800
    } else if begins_with(s, "day"@) {
        86_400
    } else if begins_with(s, "h"@) {
        3_600
    } else if begins_with(s, "m"@) {
        60
    } else if begins_with(s, "s"@) {
        1
    } else {
        0
    }
}

/// Where the unit is to stand in the text behind a number: a direction may come before.
pub open spec fn unit_part(s: Seq<char>) -> Seq<char> {
    let t = trimmed_start(s);
    if begins_with(t, "next"@) || begins_with(t, "last"@) {
        trimmed_start(t.skip(4))
    } else {
        t
    }
}

/// The seconds that the number makes that ends at position `to`, in its unit.
pub open spec fn secs_at(s: Seq<char>, to: int) -> int {
    if 0 < to <= s.len() && is_digit(s[to - 1]) && (to == s.len() || !is_digit(s[to])) {
        let secs = number_before(s, to) * unit_secs(unit_part(s.skip(to)));
        if is_negative(s, to) {
            -secs
        } else {
            secs
        }
    } else {
        0
    }
}

/// How many seconds the numbers that end up to position `to` make together.
pub open spec fn named_secs(s: Seq<char>, to: int) -> int
    decreases to,
{
    if to <= 0 {
        0
    } else {
        named_secs(s, to - 1) + secs_at(s, to)
    }
}

/// The longest time that a duration holds, in seconds.
pub const LONGEST: i128 = 9_223_372_036_854_775;

pub const YEAR: i128 = 31_536_000;

/// Whether so many seconds come close to what a duration holds, up to a year for each of `count`
/// units without a number, and one more.
pub open spec fn is_close_to_longest(secs: int, count: int) -> bool {
    let length = if secs < 0 {
        -secs
    } else {
        secs
    };
    LONGEST - YEAR * (count + 1) <= length <= LONGEST + YEAR * (count + 1)
}

/// Whether a duration holds the times that a text names: each of them, and all together, in
/// whichever direction they go from some position on.
pub open spec fn fits_duration(s: Seq<char>) -> bool {
    &&& forall|to: int| 0 <= to <= s.len() ==> -LONGEST <= #[trigger] secs_at(s, to) <= LONGEST
    &&& forall|to: int|
        0 <= to <= s.len() ==> !is_close_to_longest(
            2 * #[trigger] named_secs(s, to) - named_secs(s, s.len() as int),
            s.len() as int,
        )
}

fn skip_space(v: &Vec<char>, at: usize) -> (r: usize)
    requires
        at <= v.len(),
    ensures
        at <= r <= v.len(),
        v@.skip(r as int) == trimmed_start(v@.skip(at as int)),
{
    let mut i: usize = at;
    while i < v.len() && char_separates(true, v[i])
        invariant
            at <= i <= v.len(),
            trimmed_start(v@.skip(at as int)) == trimmed_start(v@.skip(i as int)),
        decreases v.len() - i,
    {
        assert(v@.skip(i as int).drop_first() =~= v@.skip(i + 1));
        i += 1;
    }
    i
}

fn word_at(v: &Vec<char>, at: usize, word: &str) -> (r: bool)
    requires
        at <= v.len(),
    ensures
        r == begins_with(v@.skip(at as int), word@),
        r ==> at + word@.len() <= v.len(),
{
    proof {
        let len = word@.len();
        if at + len <= v.len() {
            assert(v@.skip(at as int).subrange(0, len as int) =~= v@.subrange(
                at as int,
                at + len,
            ));
        }
    }
    part_at(v, &chars_of(word), at)
}

fn unit_at(v: &Vec<char>, at: usize) -> (r: i128)
    requires
        at <= v.len(),
    ensures
        r == unit_secs(unit_part(v@.skip(at as int))),
        0 <= r <= YEAR,
{
    let mut i: usize = skip_space(v, at);
    proof {
        reveal_strlit("next");
        reveal_strlit("last");
    }
    if word_at(v, i, "next") || word_at(v, i, "last") {
        assert(v@.skip(i as int).skip(4) =~= v@.skip(i + 4));
        i = skip_space(v, i + 4);
    }
    if word_at(v, i, "year") {
        31_536_000
    } else if word_at(v, i, "month") {
        2_592_000
    } else if word_at(v, i, "fortnight") {
        1_209_600
    } else if word_at(v, i, "week") {
        604_800
    } else if word_at(v, i, "day") {
        86_400
    } else if word_at(v, i, "h") {
        3_600
    } else if word_at(v, i, "m") {
        60
    } else if word_at(v, i, "s") {
        1
    } else {
        0
    }
}

/// The seconds that a number makes in a unit, unless they are too many.
fn times_unit(number: i128, negative: bool, unit: i128, exact: Ghost<int>) -> (r: Option<i128>)
    requires
        0 <= number <= 10 * LONGEST + 9,
        0 <= unit <= YEAR,
        number == exact@ || (number > LONGEST && exact@ > LONGEST),
    ensures
        ({
            let secs = if negative {
                -(exact@ * unit)
            } else {
                exact@ * unit
            };
            match r {
                Some(t) => t == secs && -LONGEST <= t <= LONGEST,
                None => !(-LONGEST <= secs <= LONGEST),
            }
        }),
{
    assert(0 <= number * unit <= (10 * LONGEST + 9) * YEAR) by (nonlinear_arith)
        requires
            0 <= number <= 10 * LONGEST + 9,
            0 <= unit <= YEAR,
    ;
    let secs: i128 = number * unit;
    proof {
        let e = exact@;
        assert(unit > 0 && number > LONGEST ==> secs > LONGEST && e * unit > LONGEST)
            by (nonlinear_arith)
            requires
                secs == number * unit,
                number > LONGEST ==> e > LONGEST,
                unit >= 0,
                LONGEST > 0,
        ;
        assert(unit == 0 ==> e * unit == 0 && secs == 0) by (nonlinear_arith)
            requires
                secs == number * unit,
        ;
    }
    if secs > LONGEST {
        None
    } else if negative {
        Some(-secs)
    } else {
        Some(secs)
    }
}

/// The most seconds that so many numbers make.
spec fn most_secs(count: int) -> int {
    9_223_372_036_854_775 * count
}

/// The seconds that are named up to each position, unless a number makes too many.
fn count_secs(v: &Vec<char>) -> (r: Option<Vec<i128>>)
    ensures
        match r {
            Some(sums) => sums.len() == v.len() + 1 && forall|to: int|
                0 <= to <= v.len() ==> {
                    &&& #[trigger] sums[to] == named_secs(v@, to)
                    &&& -LONGEST <= secs_at(v@, to) <= LONGEST
                    &&& -most_secs(v.len() as int) <= sums[to] <= most_secs(v.len() as int)
                },
            None => exists|to: int|
                0 <= to <= v.len() && !(-LONGEST <= #[trigger] secs_at(v@, to) <= LONGEST),
        },
{
    let mut sums: Vec<i128> = Vec::new();
    let mut number: i128 = 0;
    let mut negative: bool = false;
    let mut total: i128 = 0;
    let mut i: usize = 0;
    sums.push(0);
    while i < v.len()
        invariant
            0 <= i <= v.len(),
            0 <= number <= 10 * LONGEST + 9,
            number == number_before(v@, i as int) || (number > LONGEST && number_before(
                v@,
                i as int,
            ) > LONGEST),
            negative == is_negative(v@, i as int),
            total == named_secs(v@, i as int),
            -most_secs(i as int) <= total <= most_secs(i as int),
            sums.len() == i + 1,
            forall|to: int|
                0 <= to <= i ==> {
                    &&& #[trigger] sums[to] == named_secs(v@, to)
                    &&& -LONGEST <= secs_at(v@, to) <= LONGEST
                    &&& -most_secs(v.len() as int) <= sums[to] <= most_secs(v.len() as int)
                },
        decreases v.len() - i,
    {
        let c: char = v[i];
        if '0' <= c && c <= '9' {
            if number <= LONGEST {
                number = 10 * number + (c as i128 - '0' as i128);
            }
            if i + 1 == v.len() || !('0' <= v[i + 1] && v[i + 1] <= '9') {
                let unit: i128 = unit_at(v, i + 1);
                match times_unit(number, negative, unit, Ghost(number_before(v@, i + 1))) {
                    Some(secs) => {
                        assert(secs == secs_at(v@, i + 1));
                        total = total + secs;
                    },
                    None => {
                        assert(!(-LONGEST <= secs_at(v@, i + 1) <= LONGEST));
                        return None;
                    },
                }
            }
        } else {
            number = 0;
            negative = c == '-';
        }
        i += 1;
        assert(total == named_secs(v@, i as int));
        assert(-LONGEST <= secs_at(v@, i as int) <= LONGEST);
        let ghost before = sums@;
        sums.push(total);
        assert forall|to: int| 0 <= to <= i implies {
            &&& #[trigger] sums[to] == named_secs(v@, to)
            &&& -LONGEST <= secs_at(v@, to) <= LONGEST
            &&& -most_secs(v.len() as int) <= sums[to] <= most_secs(v.len() as int)
        } by {
            if to < i {
                assert(sums[to] == before[to]);
            }
        }
    }
    Some(sums)
}

fn close_to_longest(secs: i128, count: usize) -> (r: bool)
    requires
        -most_secs(4 * usize::MAX) <= secs <= most_secs(4 * usize::MAX),
    ensures
        r == is_close_to_longest(secs as int, count as int),
{
    let length: i128 = if secs < 0 {
        -secs
    } else {
        secs
    };
    let slack: i128 = YEAR * (count as i128 + 1);
    LONGEST - slack <= length && length <= LONGEST + slack
}

/// Whether a duration holds the times that a text names.
pub fn check_duration(s: &str) -> (r: bool)
    ensures
        r == fits_duration(s@),
{
    let v: Vec<char> = chars_of(s);
    let sums: Vec<i128> = match count_secs(&v) {
        Some(sums) => sums,
        None => {
            return false;
        },
    };
    assert forall|to: int| 0 <= to <= s@.len() implies -LONGEST <= #[trigger] secs_at(s@, to)
        <= LONGEST by {
        assert(sums[to] == named_secs(v@, to));
    }
    let all: i128 = sums[v.len()];
    let mut i: usize = 0;
    while i < sums.len()
        invariant
            0 <= i <= sums.len(),
            v@ == s@,
            sums.len() == v.len() + 1,
            all == named_secs(s@, s@.len() as int),
            -most_secs(v.len() as int) <= all <= most_secs(v.len() as int),
            forall|to: int|
                0 <= to <= v.len() ==> {
                    &&& #[trigger] sums[to] == named_secs(v@, to)
                    &&& -most_secs(v.len() as int) <= sums[to] <= most_secs(v.len() as int)
                },
            forall|to: int|
                0 <= to < i ==> !is_close_to_longest(
                    2 * #[trigger] named_secs(s@, to) - named_secs(s@, s@.len() as int),
                    s@.len() as int,
                ),
        decreases sums.len() - i,
    {
        let secs: i128 = sums[i];
        if close_to_longest(2 * secs - all, v.len()) {
            assert(is_close_to_longest(
                2 * named_secs(s@, i as int) - named_secs(s@, s@.len() as int),
                s@.len() as int,
            ));
            return false;
        }
        i += 1;
    }
    true
}

/// The names of the days of the week.
pub open spec fn is_weekday(s: Seq<char>) -> bool {
    ||| s == "monday"@ || s == "mon"@ || s == "tuesday"@ || s == "tues"@ || s == "tue"@
    ||| s == "wednesday"@ || s == "wednes"@ || s == "wed"@
    ||| s == "thursday"@ || s == "thurs"@ || s == "thur"@ || s == "thu"@
    ||| s == "friday"@ || s == "fri"@ || s == "saturday"@ || s == "sat"@
    ||| s == "sunday"@ || s == "sun"@
}

pub fn names_weekday(s: &str) -> (r: bool)
    ensures
        r == is_weekday(lower(trimmed(s@))),
{
    let t: String = trim(s);
    let t: String = to_lower(t.as_str());
    let t: &str = t.as_str();
    same_text(t, "monday") || same_text(t, "mon") || same_text(t, "tuesday") || same_text(t, "tues")
        || same_text(t, "tue") || same_text(t, "wednesday") || same_text(t, "wednes") || same_text(
        t,
        "wed",
    ) || same_text(t, "thursday") || same_text(t, "thurs") || same_text(t, "thur") || same_text(
        t,
        "thu",
    ) || same_text(t, "friday") || same_text(t, "fri") || same_text(t, "saturday") || same_text(
        t,
        "sat",
    ) || same_text(t, "sunday") || same_text(t, "sun")
}

/// How many seconds from the ends of the calendar every day is told: ten days.
pub const EDGE: i64 = 864_000;

/// How many seconds a relative date can lie from its reference: some ten thousand years.
pub const REACH: i64 = 316_000_000_000;

/// Whether dates are looked for as seen from the reference. They are so in all of the calendar
/// but some days at its ends, and but for those ten thousand years at either end from which a
/// date can be found that the calendar has for the local clock and not for UTC.
pub open spec fn is_near(reference: LocalTime) -> bool {
    &&& -DAY < reference.offset < DAY
    &&& DAWN + EDGE <= reference.secs <= HORIZON - EDGE
    &&& reference.offset > 0 ==> DAWN + REACH <= reference.secs
    &&& reference.offset < 0 ==> reference.secs <= HORIZON - REACH
}

fn check_near(reference: LocalTime) -> (r: bool)
    ensures
        r == is_near(reference),
{
    let offset: i64 = reference.offset as i64;
    let secs: i64 = reference.secs;
    -DAY < offset && offset < DAY && DAWN + EDGE <= secs && secs <= HORIZON - EDGE && (offset <= 0
        || DAWN + REACH <= secs) && (offset >= 0 || secs <= HORIZON - REACH)
}

/// The second of the date that `interim` reads from a text in the dialect of the United States,
/// seen from the given second and nanosecond on a clock at the given distance from UTC.
pub uninterp spec fn date_named(
    text: Seq<char>,
    secs: i64,
    nanos: u32,
    offset: i32,
) -> Option<i64>;

/// `interim::parse_date_string` in the dialect of the United States: the second of the date that
/// the text names, if it names one, depends on the text, the reference and its distance from UTC
/// alone. It panics on a date that the calendar has for the local clock and not for UTC.
#[verifier::external_body]
fn interim_date(str: &str, reference: LocalTime) -> (r: Option<i64>)
    requires
        is_near(reference),
    ensures
        r == date_named(str@, reference.secs, reference.nanos, reference.offset),
{
    let zone = chrono::FixedOffset::east_opt(reference.offset)?;
    let time = zone.timestamp_opt(reference.secs, reference.nanos).single()?;
    let date = interim::parse_date_string(str, time, interim::Dialect::Us).ok()?;
    Some(date.to_utc().timestamp())
}

/// `parse_datetime::parse_datetime_at_date`: the second of the date that the text names, seen from
/// the reference, if it names one. Nothing is said of which it is: it rests on the clock and the
/// time zone of the machine. It panics where a duration does not hold the times that the text
/// names, and on the name of a weekday where the local clock does not show the start of the day.
#[verifier::external_body]
fn datetime_date(str: &str, secs: i64, nanos: u32) -> (r: Option<i64>)
    requires
        fits_duration(str@),
        !is_weekday(lower(trimmed(str@))),
        DAWN + EDGE <= secs <= HORIZON - EDGE,
{
    let reference = chrono::Local.timestamp_opt(secs, nanos).single()?;
    let date = parse_datetime::parse_datetime_at_date(reference, str).ok()?;
    Some(date.to_utc().timestamp())
}

/// The same for the name of a weekday, where `DateTime::with_hour`, `with_minute` and `with_second`
/// of `chrono` find the start of the day on the local clock, as they do not where that clock is
/// changed then. Nothing is said of which second it is: it rests on the time zone of the machine.
#[verifier::external_body]
fn weekday_date(str: &str, secs: i64, nanos: u32) -> (r: Option<i64>)
    requires
        is_weekday(lower(trimmed(str@))),
        DAWN + EDGE <= secs <= HORIZON - EDGE,
{
    let reference = chrono::Local.timestamp_opt(secs, nanos).single()?;
    reference.with_hour(0)?.with_minute(0)?.with_second(0)?.with_nanosecond(0)?;
    let date = parse_datetime::parse_datetime_at_date(reference, str).ok()?;
    Some(date.to_utc().timestamp())
}

/// Whether `char::is_numeric` holds of a character.
pub uninterp spec fn numeric_char(c: char) -> bool;

/// `char::is_numeric`: of the ASCII characters it holds of the digits alone.
#[verifier::external_body]
fn is_numeric(c: char) -> (r: bool)
    ensures
        r == numeric_char(c),
        (c as u32) < 0x80 ==> r == is_digit(c),
{
    c.is_numeric()
}

pub open spec fn has_numeric(s: Seq<char>) -> bool {
    exists|i: int| 0 <= i < s.len() && numeric_char(#[trigger] s[i])
}

/// The date that was read from the text: the first reading, else the second. A text without any
/// number names a day, of which the start in UTC is taken.
pub open spec fn date_read(s: Seq<char>, first: Option<i64>, second: Option<i64>) -> Option<int> {
    let read = match first {
        Some(t) => Some(t),
        None => second,
    };
    match read {
        Some(t) => Some(
            if has_numeric(s) {
                t as int
            } else {
                t - (t as int) % (DAY as int)
            },
        ),
        None => None,
    }
}

fn find_numeric(str: &str) -> (r: bool)
    ensures
        r == has_numeric(str@),
{
    let v: Vec<char> = chars_of(str);
    let mut i: usize = 0;
    while i < v.len()
        invariant
            0 <= i <= v.len(),
            v@ == str@,
            forall|k: int| 0 <= k < i ==> !numeric_char(#[trigger] str@[k]),
        decreases v.len() - i,
    {
        if is_numeric(v[i]) {
            assert(numeric_char(str@[i as int]));
            return true;
        }
        i += 1;
    }
    false
}

fn start_of_day(t: i64) -> (r: i64)
    requires
        DAWN <= t <= HORIZON,
    ensures
        r == t - (t as int) % (DAY as int),
{
    match t.checked_rem_euclid(DAY) {
        Some(part) => t - part,
        None => t,
    }
}

/// Takes the first reading of a date, else the second, and the start of the day unless the text
/// has a number in it.
pub fn choose_date(str: &str, first: Option<i64>, second: Option<i64>) -> (r: Option<i64>)
    requires
        first matches Some(t) ==> DAWN <= t <= HORIZON,
        second matches Some(t) ==> DAWN <= t <= HORIZON,
    ensures
        match r {
            Some(t) => date_read(str@, first, second) == Some(t as int),
            None => date_read(str@, first, second) is None,
        },
{
    let read: Option<i64> = match first {
        Some(t) => Some(t),
        None => second,
    };
    match read {
        Some(t) => {
            if find_numeric(str) {
                Some(t)
            } else {
                Some(start_of_day(t))
            }
        },
        None => None,
    }
}

/// A reading of a date if the calendar has it.
pub open spec fn in_calendar(read: Option<i64>) -> Option<i64> {
    match read {
        Some(t) => if DAWN <= t <= HORIZON {
            Some(t)
        } else {
            None
        },
        None => None,
    }
}

fn within_calendar(read: Option<i64>) -> (r: Option<i64>)
    ensures
        r == in_calendar(read),
{
    match read {
        Some(t) => if DAWN <= t && t <= HORIZON {
            Some(t)
        } else {
            None
        },
        None => None,
    }
}

/// What is read from a text first, seen from the reference.
pub open spec fn first_reading(s: Seq<char>, reference: LocalTime) -> Option<i64> {
    if is_near(reference) {
        in_calendar(date_named(s, reference.secs, reference.nanos, reference.offset))
    } else {
        None
    }
}

/// Whether that can be what is read from a text second, seen from the reference. Times that a
/// duration does not hold are not read.
pub open spec fn is_second_reading(s: Seq<char>, reference: LocalTime, read: Option<i64>) -> bool {
    &&& read == in_calendar(read)
    &&& read is Some ==> is_near(reference) && fits_duration(s)
}

/// Whether a text can name that date or none, seen from the reference: it is what is read first,
/// else second.
pub open spec fn is_date_found(s: Seq<char>, reference: LocalTime, r: Option<i64>) -> bool {
    exists|second: Option<i64>|
        {
            &&& #[trigger] date_read(s, first_reading(s, reference), second) == (match r {
                Some(t) => Some(t as int),
                None => None,
            })
            &&& is_second_reading(s, reference, second)
        }
}

/// The same, seen from the time on some clock.
pub open spec fn is_date_read(s: Seq<char>, r: Option<i64>) -> bool {
    exists|now: LocalTime| #[trigger] is_clock_time(now) && is_date_found(s, now, r)
}

/// The date that a text names, as seen from the reference, in seconds since 1970.
pub fn parse_date_with_ref(str: &str, reference: LocalTime) -> (r: Option<i64>)
    ensures
        is_date_found(str@, reference, r),
{
    let mut first: Option<i64> = None;
    let mut second: Option<i64> = None;
    if check_near(reference) {
        first = within_calendar(interim_date(str, reference));
        if first.is_none() && check_duration(str) {
            let read: Option<i64> = if names_weekday(str) {
                weekday_date(str, reference.secs, reference.nanos)
            } else {
                datetime_date(str, reference.secs, reference.nanos)
            };
            second = within_calendar(read);
        }
    }
    let r: Option<i64> = choose_date(str, first, second);
    assert(is_second_reading(str@, reference, second));
    assert(date_read(str@, first_reading(str@, reference), second) == (match r {
        Some(t) => Some(t as int),
        None => None,
    }));
    r
}

pub fn parse_date(str: &str) -> (r: Option<i64>)
    ensures
        is_date_read(str@, r),
{
    let now: LocalTime = local_now();
    assert(is_clock_time(now));
    parse_date_with_ref(str, now)
}

// ---------------------------------------------------------------------------
// Tracking

/// `s` without repetitions of `part` at its start.
pub open spec fn without_prefixes(s: Seq<char>, part: Seq<char>) -> Seq<char>
    decreases s.len(),
{
    if part.len() > 0 && begins_with(s, part) {
        without_prefixes(s.skip(part.len() as int), part)
    } else {
        s
    }
}

/// What a text says without the words that only tell it from an hour.
pub open spec fn offset_text(s: Seq<char>) -> Seq<char> {
    without_prefixes(without_leading(trimmed(s), '+'), "in "@)
}

/// The offset in minutes that a text stands for.
pub open spec fn minutes_of(s: Seq<char>) -> Option<int> {
    signed_value(offset_text(s))
}

fn read_offset(str: &str) -> (r: String)
    ensures
        r@ == offset_text(str@),
{
    let t: String = trim(str);
    let t: String = trim_leading(t.as_str(), '+');
    let mut rest: &str = t.as_str();
    proof {
        reveal_strlit("in ");
    }
    while starts_with(rest, "in ")
        invariant
            "in "@.len() == 3,
            without_prefixes(t@, "in "@) == without_prefixes(rest@, "in "@),
        decreases rest@.len(),
    {
        let shorter: &str = rest.substring_char(3, rest.unicode_len());
        assert(shorter@ =~= rest@.skip(3));
        rest = shorter;
    }
    rest.to_string()
}

/// The time that lies the given minutes after `clock`, as far as timestamps reach.
pub open spec fn minutes_after(clock: u64, minutes: int) -> u64 {
    let t: int = clock + 60 * minutes;
    if t < 0 {
        0
    } else if t > u64::MAX {
        u64::MAX
    } else {
        t as u64
    }
}

pub fn shift_minutes(clock: u64, minutes: i64) -> (r: u64)
    ensures
        r == minutes_after(clock, minutes as int),
{
    let t: i128 = clock as i128 + 60 * (minutes as i128);
    if t < 0 {
        0
    } else if t > u64::MAX as i128 {
        u64::MAX
    } else {
        t as u64
    }
}

/// The time to track from: that of the hour, else `clock` moved by the minutes, else that of the
/// date, which has to be after 1970.
pub open spec fn tracking_stamp(
    s: Seq<char>,
    hour: Option<LocalTime>,
    clock: u64,
    date: Option<i64>,
) -> Option<u64> {
    match hour {
        Some(time) => Some(
            if time.secs > 0 {
                time.secs as u64
            } else {
                0
            },
        ),
        None => match minutes_of(s) {
            Some(minutes) => Some(minutes_after(clock, minutes)),
            None => match date {
                Some(t) => if t > 0 {
                    Some(t as u64)
                } else {
                    None
                },
                None => None,
            },
        },
    }
}

/// The second as a timestamp.
pub open spec fn stamp_of(secs: i64) -> u64 {
    if secs > 0 {
        secs as u64
    } else {
        0
    }
}

pub open spec fn time_read(hour: Option<LocalTime>, date: Option<i64>) -> Option<u64> {
    match hour {
        Some(time) => Some(stamp_of(time.secs)),
        None => match date {
            Some(t) => Some(stamp_of(t)),
            None => None,
        },
    }
}

/// Takes the time of the hour, else that of the date.
pub fn choose_time(hour: Option<LocalTime>, date: Option<i64>) -> (r: Option<u64>)
    ensures
        r == time_read(hour, date),
{
    match hour {
        Some(time) => Some(time.to_timestamp()),
        None => match date {
            Some(t) => Some(
                if t > 0 {
                    t as u64
                } else {
                    0
                },
            ),
            None => None,
        },
    }
}

/// Whether a text can stand for a time when the clock shows `now`: an hour at most `max_future`
/// hours ahead, or else a date.
pub open spec fn is_time_read_at(
    s: Seq<char>,
    max_future: int,
    now: LocalTime,
    r: Option<u64>,
) -> bool {
    exists|hour: Option<LocalTime>, date: Option<i64>|
        {
            &&& r == #[trigger] time_read(hour, date)
            &&& is_hour_read_at(s, max_future, now, hour)
            &&& hour is None ==> is_date_found(s, now, date)
        }
}

/// The same, for some clock.
pub open spec fn is_time_read(s: Seq<char>, max_future: int, r: Option<u64>) -> bool {
    exists|now: LocalTime| #[trigger]
        is_clock_time(now) && is_time_read_at(s, max_future, now, r)
}

/// The time that a text stands for, seen from the given time: an hour at most `max_future` hours
/// ahead, or else a date.
pub fn read_time_at(str: &str, max_future: i64, now: LocalTime) -> (r: Option<u64>)
    requires
        now.in_range(),
    ensures
        is_time_read_at(str@, max_future as int, now, r),
{
    let hour: Option<LocalTime> = parse_hour_at(str, max_future, now);
    let date: Option<i64> = if hour.is_none() {
        parse_date_with_ref(str, now)
    } else {
        None
    };
    let r: Option<u64> = choose_time(hour, date);
    assert(r == time_read(hour, date));
    r
}

/// The time that a text stands for: an hour at most `max_future` hours ahead, or else a date.
pub fn read_time(str: &str, max_future: i64) -> (r: Option<u64>)
    ensures
        is_time_read(str@, max_future as int, r),
{
    let now: LocalTime = local_now();
    assert(is_clock_time(now));
    read_time_at(str, max_future, now)
}

/// From when on to look for an hour to track from: the given time, else 18 hours before `now`.
pub open spec fn tracking_start(
    after: Option<LocalTime>,
    now: LocalTime,
    offset: Option<i32>,
) -> LocalTime {
    match after {
        Some(t) => t,
        None => match moved_back(now, 18, offset) {
            Some(t) => t,
            None => now,
        },
    }
}

/// From when on to look for an hour to track from: the given time, else 18 hours before `now`, where
/// the local clock is `offset` seconds from UTC.
pub fn choose_start(after: Option<LocalTime>, now: LocalTime, offset: Option<i32>) -> (r: LocalTime)
    ensures
        r == tracking_start(after, now, offset),
{
    match after {
        Some(t) => t,
        None => match hours_before_at(now, 18, offset) {
            Some(t) => t,
            None => now,
        },
    }
}

/// Whether a number in a text is one without a prefix.
pub open spec fn is_plain(s: Seq<char>) -> bool {
    !(trimmed(s).len() > 0 && trimmed(s)[0] == '+')
}

/// Takes the time of the hour, else `clock` moved by the minutes in the text, else the time of the
/// date if that is after 1970.
pub fn choose_stamp(str: &str, hour: Option<LocalTime>, clock: u64, date: Option<i64>) -> (r:
    Option<u64>)
    ensures
        r == tracking_stamp(str@, hour, clock, date),
{
    match hour {
        Some(time) => Some(time.to_timestamp()),
        None => match parse_signed(read_offset(str).as_str()) {
            Some(minutes) => Some(shift_minutes(clock, minutes)),
            None => match date {
                Some(t) => if t > 0 {
                    Some(t as u64)
                } else {
                    None
                },
                None => None,
            },
        },
    }
}

/// Whether a text can stand for that date or none, with or without the words that only tell it
/// from an hour.
pub open spec fn is_tracked_date(s: Seq<char>, now: LocalTime, date: Option<i64>) -> bool {
    ||| date is Some && is_date_found(s, now, date)
    ||| is_date_found(s, now, None) && is_date_found(offset_text(s), now, date)
}

/// Whether a text can stand for a time to track from when the clocks show `now` and `clock`, for
/// some rules of the time zone: a plain hour comes after the given time.
pub open spec fn is_tracking_stamp_at(
    s: Seq<char>,
    after: Option<LocalTime>,
    now: LocalTime,
    clock: u64,
    r: Option<u64>,
) -> bool {
    exists|hour: Option<LocalTime>, date: Option<i64>|
        {
            &&& r == #[trigger] tracking_stamp(s, hour, clock, date)
            &&& if is_plain(s) {
                exists|offset: Option<i32>|
                    is_hour_found(s, #[trigger] tracking_start(after, now, offset), hour)
            } else {
                hour is None
            }
            &&& hour is None && minutes_of(s) is None ==> is_tracked_date(s, now, date)
        }
}

/// The same, for some clocks.
pub open spec fn is_tracking_stamp(s: Seq<char>, after: Option<LocalTime>, r: Option<u64>) -> bool {
    exists|now: LocalTime, clock: u64|
        is_clock_time(now) && #[trigger] is_tracking_stamp_at(s, after, now, clock, r)
}

/// Turn a human-readable relative timestamp into a nostr Timestamp, seen from the given time.
/// - Plain number as hour after given date, if none 18 hours back or 6 hours forward
/// - Number with prefix as minute offset
/// - Otherwise try to parse a relative date, also behind a prefix
pub fn parse_tracking_stamp_at(
    str: &str,
    after: Option<LocalTime>,
    now: LocalTime,
    clock: u64,
) -> (r: Option<u64>)
    requires
        now.in_range(),
        after matches Some(t) ==> t.in_range(),
    ensures
        is_tracking_stamp_at(str@, after, now, clock, r),
{
    let text: String = trim(str);
    let hour: Option<LocalTime> = if starts_with_char(text.as_str(), '+') {
        None
    } else {
        let there: LocalTime = choose_start(after, now, None);
        let offset: Option<i32> = local_offset(there.secs);
        let start: LocalTime = choose_start(after, now, offset);
        assert(start == tracking_start(after, now, offset));
        parse_local_hour_after(str, start)
    };
    let offset: String = read_offset(str);
    let date: Option<i64> = if hour.is_some() || parse_signed(offset.as_str()).is_some() {
        None
    } else {
        match parse_date_with_ref(str, now) {
            Some(t) => Some(t),
            None => parse_date_with_ref(offset.as_str(), now),
        }
    };
    let r: Option<u64> = choose_stamp(str, hour, clock, date);
    assert(r == tracking_stamp(str@, hour, clock, date));
    r
}

/// Turn a human-readable relative timestamp into a nostr Timestamp.
/// - Plain number as hour after given date, if none 18 hours back or 6 hours forward
/// - Number with prefix as minute offset
/// - Otherwise try to parse a relative date, also behind a prefix
pub fn parse_tracking_stamp(str: &str, after: Option<LocalTime>) -> (r: Option<u64>)
    requires
        after matches Some(t) ==> t.in_range(),
    ensures
        is_tracking_stamp(str@, after, r),
{
    let now: LocalTime = local_now();
    let stamp: u64 = clock();
    let r: Option<u64> = parse_tracking_stamp_at(str, after, now, stamp);
    assert(is_clock_time(now) && is_tracking_stamp_at(str@, after, now, stamp, r));
    r
}

/// A number with a prefix is an offset in minutes, whatever the time zone.
pub proof fn a_prefix_makes_minutes(
    s: Seq<char>,
    after: Option<LocalTime>,
    now: LocalTime,
    clock: u64,
    r: Option<u64>,
)
    requires
        !is_plain(s),
        minutes_of(s) is Some,
        is_tracking_stamp_at(s, after, now, clock, r),
    ensures
        r == Some(minutes_after(clock, minutes_of(s).unwrap())),
{
}

// ---------------------------------------------------------------------------
// Showing times

/// The characters that stand for a number behind a percent sign.
pub open spec fn is_number_specifier(c: char) -> bool {
    ||| c == 'Y' || c == 'C' || c == 'y' || c == 'q' || c == 'm' || c == 'd' || c == 'e'
    ||| c == 'w' || c == 'u' || c == 'U' || c == 'W' || c == 'G' || c == 'g' || c == 'V'
    ||| c == 'j' || c == 'H' || c == 'k' || c == 'I' || c == 'l' || c == 'M' || c == 'S'
    ||| c == 'f' || c == 's'
}

/// The characters that stand for a part of a date or time behind a percent sign.
pub open spec fn is_specifier(c: char) -> bool {
    ||| is_number_specifier(c)
    ||| c == 'b' || c == 'B' || c == 'h' || c == 'a' || c == 'A' || c == 'D' || c == 'x'
    ||| c == 'F' || c == 'v' || c == 'P' || c == 'p' || c == 'T' || c == 'R' || c == 'X'
    ||| c == 'r' || c == 'Z' || c == 'z' || c == 't' || c == 'n' || c == '%' || c == 'c'
    ||| c == '+'
}

/// The characters before a number that say how to fill it up.
pub open spec fn is_padding(c: char) -> bool {
    c == '-' || c == '_' || c == '0'
}

/// How many digits a fraction of a second may have.
pub open spec fn is_precision(c: char) -> bool {
    c == '3' || c == '6' || c == '9'
}

/// The length of the item that a percent sign starts, or 0 if there is no such item.
pub open spec fn item_len(s: Seq<char>) -> int {
    if s.len() >= 2 && is_specifier(s[1]) {
        2
    } else if s.len() >= 3 && is_padding(s[1]) && is_number_specifier(s[2]) {
        3
    } else if s.len() >= 3 && is_precision(s[1]) && s[2] == 'f' {
        3
    } else if s.len() >= 3 && s[1] == '.' && s[2] == 'f' {
        3
    } else if s.len() >= 4 && s[1] == '.' && is_precision(s[2]) && s[3] == 'f' {
        4
    } else if s.len() >= 3 && s[1] == ':' && s[2] == 'z' {
        3
    } else if s.len() >= 4 && s[1] == ':' && s[2] == ':' && s[3] == 'z' {
        4
    } else if s.len() >= 5 && s[1] == ':' && s[2] == ':' && s[3] == ':' && s[4] == 'z' {
        5
    } else {
        0
    }
}

/// A format in which each percent sign starts an item.
pub open spec fn is_format(s: Seq<char>) -> bool
    decreases s.len(),
{
    if s.len() == 0 {
        true
    } else if s[0] == '%' {
        item_len(s) > 0 && is_format(s.skip(item_len(s)))
    } else {
        is_format(s.skip(1))
    }
}

/// What `DateTime::format` makes of a second at the given distance from UTC, if the calendar has it.
pub uninterp spec fn datetime_form(secs: i64, offset: i32, format: Seq<char>) -> Option<Seq<char>>;

/// What `Timestamp::to_human_datetime` makes of a timestamp.
pub uninterp spec fn human_form(stamp: u64) -> Seq<char>;

/// `chrono::FixedOffset.timestamp_opt` and `DateTime::format`: the text depends on the second, the
/// distance from UTC and the format alone. There is one for every second of the calendar.
#[verifier::external_body]
fn format_at(secs: i64, offset: i32, format: &str) -> (r: Option<String>)
    requires
        is_format(format@),
    ensures
        match r {
            Some(t) => datetime_form(secs, offset, format@) == Some(t@),
            None => datetime_form(secs, offset, format@) is None,
        },
        DAWN <= secs <= HORIZON && -DAY < offset < DAY ==> r is Some,
{
    let zone = chrono::FixedOffset::east_opt(offset)?;
    Some(zone.timestamp_opt(secs, 0).single()?.format(format).to_string())
}

/// `nostr_sdk::Timestamp::to_human_datetime`: the text depends on the timestamp alone.
#[verifier::external_body]
fn to_human_datetime(stamp: u64) -> (r: String)
    ensures
        r@ == human_form(stamp),
{
    nostr_sdk::Timestamp::from(stamp).to_human_datetime()
}

/// The second that a timestamp is shown by: the one after it.
pub open spec fn shown_second(stamp: u64) -> Option<i64> {
    let t = stamp as i64;
    if t == i64::MAX {
        None
    } else {
        Some((t + 1) as i64)
    }
}

fn second_to_show(stamp: u64) -> (r: Option<i64>)
    ensures
        r == shown_second(stamp),
{
    let t: i64 = stamp as i64;
    if t == i64::MAX {
        None
    } else {
        Some(t + 1)
    }
}

/// The time that a timestamp is shown by, where the local clock is `offset` seconds from UTC, if the
/// calendar has it.
pub open spec fn shown_time(stamp: u64, offset: Option<i32>) -> Option<LocalTime> {
    match shown_second(stamp) {
        Some(secs) => match zone_at(secs, offset) {
            Some(o) => Some(LocalTime { secs, nanos: 0, offset: o }),
            None => None,
        },
        None => None,
    }
}

fn time_to_show(stamp: u64, offset: Option<i32>) -> (r: Option<LocalTime>)
    ensures
        r == shown_time(stamp, offset),
{
    match second_to_show(stamp) {
        Some(secs) => match choose_zone(secs, offset) {
            Some(o) => Some(LocalTime { secs, nanos: 0, offset: o }),
            None => None,
        },
        None => None,
    }
}

/// How far the local clock is from UTC when it shows a timestamp.
fn offset_to_show(stamp: u64) -> (r: Option<i32>) {
    match second_to_show(stamp) {
        Some(secs) => local_offset(secs),
        None => None,
    }
}

/// A timestamp in the given format, where the local clock is `offset` seconds from UTC at the
/// time; where the calendar does not have it, its general form.
pub open spec fn stamp_text(stamp: u64, format: Seq<char>, offset: Option<i32>) -> Seq<char> {
    match shown_time(stamp, offset) {
        Some(time) => match datetime_form(time.secs, time.offset, format) {
            Some(t) => t,
            None => human_form(stamp),
        },
        None => human_form(stamp),
    }
}

/// Whether a text can be what the formatting function makes of a timestamp, where the local clock
/// is `offset` seconds from UTC at the time; where the calendar does not have it, it is the general
/// form.
pub open spec fn is_formatted<F: Fn(LocalTime) -> String>(
    stamp: u64,
    formatter: F,
    offset: Option<i32>,
    r: String,
) -> bool {
    match shown_time(stamp, offset) {
        Some(time) => call_ensures(formatter, (time,), r),
        None => r@ == human_form(stamp),
    }
}

/// Format a nostr timestamp with the given formatting function, where the local clock is `offset`
/// seconds from UTC.
pub fn format_as_datetime_at<F: Fn(LocalTime) -> String>(
    stamp: u64,
    formatter: F,
    offset: Option<i32>,
) -> (r: String)
    requires
        forall|t: LocalTime| call_requires(formatter, (t,)),
    ensures
        is_formatted(stamp, formatter, offset, r),
{
    match time_to_show(stamp, offset) {
        Some(time) => formatter(time),
        None => to_human_datetime(stamp),
    }
}

/// Format a nostr timestamp with the given formatting function.
pub fn format_as_datetime<F: Fn(LocalTime) -> String>(stamp: u64, formatter: F) -> (r: String)
    requires
        forall|t: LocalTime| call_requires(formatter, (t,)),
    ensures
        exists|offset: Option<i32>| #[trigger] is_formatted(stamp, formatter, offset, r),
{
    format_as_datetime_at(stamp, formatter, offset_to_show(stamp))
}

/// Format nostr timestamp with the given format, where the local clock is `offset` seconds from UTC.
pub fn format_timestamp_at(stamp: u64, format: &str, offset: Option<i32>) -> (r: String)
    requires
        is_format(format@),
    ensures
        r@ == stamp_text(stamp, format@, offset),
{
    match time_to_show(stamp, offset) {
        Some(time) => match format_at(time.secs, time.offset, format) {
            Some(t) => t,
            None => to_human_datetime(stamp),
        },
        None => to_human_datetime(stamp),
    }
}

/// Format nostr timestamp with the given format.
pub fn format_timestamp(stamp: u64, format: &str) -> (r: String)
    requires
        is_format(format@),
    ensures
        exists|offset: Option<i32>| r@ == #[trigger] stamp_text(stamp, format@, offset),
{
    let offset: Option<i32> = offset_to_show(stamp);
    let r: String = format_timestamp_at(stamp, format, offset);
    assert(r@ == stamp_text(stamp, format@, offset));
    r
}

pub const LOCAL_FORMAT: &'static str = "%y-%m-%d %a %H:%M";

pub const FULL_FORMAT: &'static str = "%y-%m-%d %a %H:%M:%S";

pub const TIME_FORMAT: &'static str = "%H:%M";

pub const WEEKDAY_FORMAT: &'static str = "%a %H:%M";

pub const NEAR_DAY_FORMAT: &'static str = "%d. %a ";

pub const DAY_FORMAT: &'static str = "%a %b %d ";

pub const DATE_FORMAT: &'static str = "%y-%m-%d %a ";

proof fn lemma_formats()
    ensures
        is_format(LOCAL_FORMAT@),
        is_format(FULL_FORMAT@),
        is_format(TIME_FORMAT@),
        is_format(WEEKDAY_FORMAT@),
        is_format(NEAR_DAY_FORMAT@),
        is_format(DAY_FORMAT@),
        is_format(DATE_FORMAT@),
{
    reveal_strlit("%y-%m-%d %a %H:%M");
    reveal_strlit("%y-%m-%d %a %H:%M:%S");
    reveal_strlit("%H:%M");
    reveal_strlit("%a %H:%M");
    reveal_strlit("%d. %a ");
    reveal_strlit("%a %b %d ");
    reveal_strlit("%y-%m-%d %a ");
    reveal_with_fuel(is_format, 20);
}

/// Format nostr timestamp in a sensible comprehensive format with consistent length and consistent sorting.
///
/// Currently: 18 characters
pub fn format_timestamp_local(stamp: u64) -> (r: String)
    ensures
        exists|offset: Option<i32>| r@ == #[trigger] stamp_text(stamp, LOCAL_FORMAT@, offset),
{
    proof {
        lemma_formats();
    }
    format_timestamp(stamp, LOCAL_FORMAT)
}

/// Format nostr timestamp with seconds precision.
pub fn format_timestamp_full(stamp: u64) -> (r: String)
    ensures
        exists|offset: Option<i32>| r@ == #[trigger] stamp_text(stamp, FULL_FORMAT@, offset),
{
    proof {
        lemma_formats();
    }
    format_timestamp(stamp, FULL_FORMAT)
}

/// The format for a time by its rough distance in days from another.
pub open spec fn relative_format(stamp: u64, reference: u64) -> Seq<char> {
    let distance: int = (stamp as i64) - (reference as i64);
    if -80_000 < distance < 80_000 {
        TIME_FORMAT@
    } else if -320_000 < distance < 320_000 {
        WEEKDAY_FORMAT@
    } else {
        LOCAL_FORMAT@
    }
}

pub fn format_timestamp_relative_to(stamp: u64, reference: u64) -> (r: String)
    ensures
        exists|offset: Option<i32>|
            r@ == #[trigger] stamp_text(stamp, relative_format(stamp, reference), offset),
{
    proof {
        lemma_formats();
    }
    // Rough difference in days
    let distance: i128 = (stamp as i64) as i128 - (reference as i64) as i128;
    let format: &str = if -80_000 < distance && distance < 80_000 {
        TIME_FORMAT
    } else if -320_000 < distance && distance < 320_000 {
        WEEKDAY_FORMAT
    } else {
        LOCAL_FORMAT
    };
    assert(format@ == relative_format(stamp, reference));
    format_timestamp(stamp, format)
}

/// A time as seen from the given day: that day and those next to it by name, others by date.
pub open spec fn relative_text(time: LocalTime, today: int) -> Seq<char> {
    let ago: int = today - time.day();
    let prefix = if ago == -1 {
        "tomorrow "@
    } else if ago == 0 {
        ""@
    } else if ago == 1 {
        "yesterday "@
    } else if -10 <= ago <= 10 {
        form_of(time, NEAR_DAY_FORMAT@)
    } else if -100 <= ago <= 100 {
        form_of(time, DAY_FORMAT@)
    } else {
        form_of(time, DATE_FORMAT@)
    };
    prefix + form_of(time, TIME_FORMAT@)
}

pub open spec fn form_of(time: LocalTime, format: Seq<char>) -> Seq<char> {
    match datetime_form(time.secs, time.offset, format) {
        Some(t) => t,
        None => Seq::empty(),
    }
}

fn format_in_range(time: LocalTime, format: &str) -> (r: String)
    requires
        time.in_range(),
        is_format(format@),
    ensures
        r@ == form_of(time, format@),
{
    match format_at(time.secs, time.offset, format) {
        Some(t) => t,
        None => String::new(),
    }
}

/// Format a time easily comprehensible for human but unambiguous, as seen from the day that the
/// local calendar counts as `today`. Length may vary.
pub fn format_datetime_relative_at(time: LocalTime, today: i64) -> (r: String)
    requires
        time.in_range(),
    ensures
        r@ == relative_text(time, today as int),
{
    proof {
        lemma_formats();
    }
    let day: i64 = time.local_day();
    let ago: i128 = today as i128 - day as i128;
    let mut r: String = if ago == -1 {
        "tomorrow ".to_string()
    } else if ago == 0 {
        "".to_string()
    } else if ago == 1 {
        "yesterday ".to_string()
    } else if -10 <= ago && ago <= 10 {
        format_in_range(time, NEAR_DAY_FORMAT)
    } else if -100 <= ago && ago <= 100 {
        format_in_range(time, DAY_FORMAT)
    } else {
        format_in_range(time, DATE_FORMAT)
    };
    let hour: String = format_in_range(time, TIME_FORMAT);
    r.append(hour.as_str());
    r
}

/// Format DateTime easily comprehensible for human but unambiguous.
/// Length may vary.
pub fn format_datetime_relative(time: LocalTime) -> (r: String)
    requires
        time.in_range(),
    ensures
        exists|now: LocalTime| #[trigger]
            is_clock_time(now) && r@ == relative_text(time, now.day()),
{
    let now: LocalTime = local_now();
    assert(is_clock_time(now));
    format_datetime_relative_at(time, now.local_day())
}

/// A timestamp relative to the day of `now`, where the local clock is `offset` seconds from UTC at
/// the time; where that is beyond the horizon, its general form.
pub open spec fn stamp_relative_text(
    stamp: u64,
    offset: Option<i32>,
    now: LocalTime,
) -> Seq<char> {
    match shown_time(stamp, offset) {
        Some(time) => if time.in_range() {
            relative_text(time, now.day())
        } else {
            human_form(stamp)
        },
        None => human_form(stamp),
    }
}

/// Format nostr Timestamp relative to the day of `now`, where the local clock is `offset` seconds
/// from UTC at the time.
pub fn format_timestamp_relative_at(stamp: u64, offset: Option<i32>, now: LocalTime) -> (r: String)
    requires
        now.in_range(),
    ensures
        r@ == stamp_relative_text(stamp, offset, now),
{
    match time_to_show(stamp, offset) {
        Some(time) => if time.is_in_range() {
            format_datetime_relative_at(time, now.local_day())
        } else {
            to_human_datetime(stamp)
        },
        None => to_human_datetime(stamp),
    }
}

/// Format nostr Timestamp relative to local time
/// with optional day specifier or full date depending on distance to today.
pub fn format_timestamp_relative(stamp: u64) -> (r: String)
    ensures
        exists|offset: Option<i32>, now: LocalTime|
            is_clock_time(now) && r@ == #[trigger] stamp_relative_text(stamp, offset, now),
{
    let offset: Option<i32> = offset_to_show(stamp);
    let now: LocalTime = local_now();
    let r: String = format_timestamp_relative_at(stamp, offset, now);
    assert(is_clock_time(now) && r@ == stamp_relative_text(stamp, offset, now));
    r
}

} // verus!
