//! What holds of the times that texts stand for.

use crate::tasks::making_laws::decimal_round_trip;
use crate::text::{
    all_digits, byte_len, decimal, is_digit, lemma_unsigned_value, signed_value, trimmed,
    unsigned_value, without_leading,
};
use crate::time::{
    date_read, has_numeric, hour_after, hour_of, is_before, minutes_after, minutes_of, moved_back,
    relative_text, time_read, tracking_stamp, without_prefixes, LocalTime, DAWN, DAY, HORIZON,
};
use vstd::prelude::*;

verus! {

// ---------------------------------------------------------------------------
// Hours

proof fn lemma_decimal_digits(n: nat)
    ensures
        n < 10 ==> decimal(n).len() == 1,
        10 <= n < 100 ==> decimal(n).len() == 2,
        n >= 100 ==> decimal(n).len() >= 3,
{
    if n >= 10 {
        assert(decimal(n) == decimal(n / 10).push((('0' as u32) + n % 10) as char));
        if n >= 100 {
            assert(decimal(n / 10) == decimal(n / 10 / 10).push(
                (('0' as u32) + n / 10 % 10) as char,
            ));
            decimal_round_trip(n / 10 / 10);
        }
    }
}

proof fn lemma_ascii(s: Seq<char>)
    requires
        all_digits(s),
    ensures
        byte_len(s) == s.len(),
    decreases s.len(),
{
    if s.len() > 0 {
        let rest = s.drop_last();
        assert forall|i: int| 0 <= i < rest.len() implies is_digit(#[trigger] rest[i]) by {
            assert(rest[i] == s[i]);
        }
        lemma_ascii(rest);
        assert(is_digit(s[s.len() - 1]));
    }
}

/// A number of one or two digits is an hour, and one of more digits an hour with two digits of
/// minutes behind it, if there is such a time of day.
pub proof fn a_number_is_an_hour_with_minutes(n: nat)
    requires
        n <= 0xffff_ffff,
    ensures
        n < 24 ==> hour_of(decimal(n)) == Some((n as int, 0int)),
        24 <= n < 100 ==> hour_of(decimal(n)) is None,
        n >= 100 && n / 100 < 24 && n % 100 < 60 ==> hour_of(decimal(n)) == Some(
            ((n / 100) as int, (n % 100) as int),
        ),
        n >= 100 && (n / 100 >= 24 || n % 100 >= 60) ==> hour_of(decimal(n)) is None,
{
    decimal_round_trip(n);
    lemma_decimal_digits(n);
    let d = decimal(n);
    lemma_ascii(d);
    assert(is_digit(d[0]));
    assert(unsigned_value(d, 0xffff_ffff) == Some(n as int));
}

/// The hour in a text is the next time, from the given one on and less than a day later, at which
/// a clock that keeps its distance from UTC shows that hour and minute.
pub proof fn the_next_hour_is_taken(s: Seq<char>, after: LocalTime)
    requires
        after.in_range(),
        hour_of(s) is Some,
    ensures
        ({
            let (hour, minute) = hour_of(s).unwrap();
            let r = hour_after(s, after);
            &&& r is Some
            &&& !is_before(r.unwrap().secs as int, after)
            &&& is_before(r.unwrap().secs - DAY, after)
            &&& (r.unwrap().secs + after.offset) % (DAY as int) == 3600 * hour + 60 * minute
            &&& r.unwrap().offset == after.offset
            &&& r.unwrap().nanos == 0
        }),
{
    lemma_unsigned_value(s, 0xffff_ffff);
    let (hour, minute) = hour_of(s).unwrap();
    assert(0 <= hour < 24 && 0 <= minute < 60);
    let wall: int = after.secs + after.offset;
    let day = after.day();
    assert(day * DAY <= wall < day * DAY + DAY);
    let second = 3600 * hour + 60 * minute;
    assert(0 <= second < DAY);
    assert((day * DAY + second) % (DAY as int) == second) by (nonlinear_arith)
        requires
            0 <= second < DAY,
            DAY == 86400,
    ;
    assert((day * DAY + second + DAY) % (DAY as int) == second) by (nonlinear_arith)
        requires
            0 <= second < DAY,
            DAY == 86400,
    ;
}

/// Going back by some hours takes so many hours off, as far as the calendar goes.
pub proof fn hours_are_taken_off(time: LocalTime, hours: int, offset: i32)
    requires
        -DAY < offset < DAY,
    ensures
        match moved_back(time, hours, Some(offset)) {
            Some(t) => t.secs == time.secs - 3600 * hours && t.nanos == time.nanos && t.offset
                == offset,
            None => !(DAWN <= time.secs - 3600 * hours <= HORIZON),
        },
{
}

// ---------------------------------------------------------------------------
// Minutes

/// Minutes move the time by sixty seconds each, forwards or backwards, as far as timestamps reach.
pub proof fn minutes_move_the_time(clock: u64, minutes: int)
    ensures
        0 <= clock + 60 * minutes <= u64::MAX ==> minutes_after(clock, minutes) == clock + 60
            * minutes,
        clock + 60 * minutes < 0 ==> minutes_after(clock, minutes) == 0,
        clock + 60 * minutes > u64::MAX ==> minutes_after(clock, minutes) == u64::MAX,
{
}

proof fn lemma_digits_kept(n: nat)
    ensures
        trimmed(decimal(n)) == decimal(n),
        without_leading(decimal(n), '+') == decimal(n),
        without_prefixes(decimal(n), "in "@) == decimal(n),
{
    decimal_round_trip(n);
    let d = decimal(n);
    assert forall|i: int| 0 <= i < d.len() implies !crate::text::is_space(#[trigger] d[i]) by {
        assert(is_digit(d[i]));
    }
    crate::command_laws::lemma_no_space(d);
    assert(is_digit(d[0]));
    reveal_strlit("in ");
    assert(!crate::text::begins_with(d, "in "@)) by {
        if crate::text::begins_with(d, "in "@) {
            assert(d.subrange(0, 3)[0] == "in "@[0]);
            assert(d[0] == 'i');
        }
    }
}

/// A plain number is that many minutes, with a minus sign before it so many minutes ago, and a
/// plus sign changes nothing.
pub proof fn a_number_is_minutes(n: nat)
    requires
        n <= i64::MAX,
    ensures
        minutes_of(decimal(n)) == Some(n as int),
        minutes_of(seq!['-'] + decimal(n)) == Some(-(n as int)),
        minutes_of(seq!['+'] + decimal(n)) == Some(n as int),
{
    decimal_round_trip(n);
    lemma_digits_kept(n);
    let d = decimal(n);
    assert(is_digit(d[0]));
    let minus = seq!['-'] + d;
    let plus = seq!['+'] + d;
    assert forall|i: int| 0 <= i < minus.len() implies !crate::text::is_space(
        #[trigger] minus[i],
    ) by {
        if i > 0 {
            assert(minus[i] == d[i - 1]);
            assert(is_digit(d[i - 1]));
        }
    }
    crate::command_laws::lemma_no_space(minus);
    assert forall|i: int| 0 <= i < plus.len() implies !crate::text::is_space(
        #[trigger] plus[i],
    ) by {
        if i > 0 {
            assert(plus[i] == d[i - 1]);
            assert(is_digit(d[i - 1]));
        }
    }
    crate::command_laws::lemma_no_space(plus);
    assert(plus.drop_first() =~= d);
    assert(without_leading(plus, '+') == without_leading(d, '+'));
    assert(minus.skip(1) =~= d);
    reveal_strlit("in ");
    assert(!crate::text::begins_with(minus, "in "@)) by {
        if crate::text::begins_with(minus, "in "@) {
            assert(minus.subrange(0, 3)[0] == "in "@[0]);
        }
    }
    assert(signed_value(minus) == Some(-(n as int)));
}

/// A text stands for the hour in it, else for minutes from now, and else for a date after 1970.
pub proof fn an_hour_goes_before_minutes_and_dates(
    s: Seq<char>,
    hour: Option<LocalTime>,
    clock: u64,
    date: Option<i64>,
)
    ensures
        ({
            let r = tracking_stamp(s, hour, clock, date);
            match (hour, minutes_of(s), date) {
                (Some(time), _, _) => r is Some && (time.secs >= 0 ==> r == Some(
                    time.secs as u64,
                )),
                (None, Some(minutes), _) => r == Some(minutes_after(clock, minutes)),
                (None, None, Some(t)) => if t > 0 {
                    r == Some(t as u64)
                } else {
                    r is None
                },
                (None, None, None) => r is None,
            }
        }),
        ({
            let r = time_read(hour, date);
            match (hour, date) {
                (Some(time), _) => r is Some && (time.secs >= 0 ==> r == Some(time.secs as u64)),
                (None, Some(t)) => r is Some && (t >= 0 ==> r == Some(t as u64)),
                (None, None) => r is None,
            }
        }),
{
}

// ---------------------------------------------------------------------------
// Dates

/// The first reading of a date counts, and the second only without it. With a number in the text
/// it is taken as it is; without any it names a day, of which the start in UTC is taken.
pub proof fn a_date_without_a_number_is_a_day(
    s: Seq<char>,
    first: Option<i64>,
    second: Option<i64>,
)
    ensures
        first is Some ==> date_read(s, first, second) == date_read(s, first, None),
        first is None && second is None ==> date_read(s, first, second) is None,
        first is None ==> date_read(s, first, second) == date_read(s, second, None),
        first matches Some(t) ==> {
            let r = date_read(s, first, second);
            &&& r is Some
            &&& has_numeric(s) ==> r == Some(t as int)
            &&& !has_numeric(s) ==> r.unwrap() % (DAY as int) == 0 && r.unwrap() <= t < r.unwrap()
                + DAY
        },
{
    match first {
        Some(t) => {
            let t: int = t as int;
            assert((t - t % (DAY as int)) % (DAY as int) == 0) by (nonlinear_arith)
                requires
                    DAY == 86400,
            ;
        },
        None => {},
    }
}

/// Times are shown with the day they lie on as seen from today: by name from yesterday to
/// tomorrow, where that of today goes without saying.
pub proof fn near_days_are_shown_by_name(time: LocalTime, today: int)
    ensures
        ({
            let hour = crate::time::form_of(time, "%H:%M"@);
            &&& time.day() == today ==> relative_text(time, today) == hour
            &&& time.day() == today + 1 ==> relative_text(time, today) == "tomorrow "@ + hour
            &&& time.day() == today - 1 ==> relative_text(time, today) == "yesterday "@ + hour
        }),
{
    reveal_strlit("");
    let hour = crate::time::form_of(time, "%H:%M"@);
    assert(""@ + hour =~= hour);
}

} // verus!
