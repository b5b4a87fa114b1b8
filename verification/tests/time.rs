use chrono::{FixedOffset, Local, NaiveDate, NaiveTime, Offset, TimeDelta, TimeZone, Timelike, Utc};
use mostr::helpers::{
    format_as_datetime, format_datetime_relative, format_timestamp, format_timestamp_full,
    format_timestamp_local, format_timestamp_relative, format_timestamp_relative_to, parse_date,
    parse_date_with_ref, parse_hour, parse_hour_after, parse_tracking_stamp, ToTimestamp,
};
use mostr::time::{
    check_duration, choose_date, choose_hour, choose_hour_start, choose_stamp, choose_start,
    choose_time, choose_zone, format_as_datetime_at, format_datetime_relative_at,
    format_timestamp_at, format_timestamp_relative_at, hours_before, hours_before_at, local_now,
    parse_hour_at, parse_tracking_stamp_at, read_hour, read_time, read_time_at, shift_minutes,
    LocalTime, DAWN, DAY, EDGE, HORIZON, REACH,
};
use nostr_sdk::Timestamp;

fn clock() -> u64 {
    Timestamp::now().as_u64()
}

/// The given second, at the distance from UTC that the local clock has then.
fn local(secs: i64) -> LocalTime {
    let time = Local.timestamp_opt(secs, 0).unwrap();
    LocalTime { secs, nanos: 0, offset: time.offset().fix().local_minus_utc() }
}

fn utc(secs: i64) -> LocalTime {
    LocalTime { secs, nanos: 0, offset: 0 }
}

#[test]
fn parse_hours() {
    let now = Local::now();
    #[allow(deprecated)]
    let date = now.date();
    if now.hour() > 2 {
        assert_eq!(
            parse_hour("23", 22).unwrap().secs,
            date.and_hms_opt(23, 0, 0).unwrap().timestamp()
        );
    }
    if now.hour() < 22 {
        assert_eq!(
            parse_hour("02", 2).unwrap().secs,
            date.and_hms_opt(2, 0, 0).unwrap().timestamp()
        );
        assert_eq!(
            parse_hour("2301", 1).unwrap().secs,
            (date - TimeDelta::days(1)).and_hms_opt(23, 01, 0).unwrap().timestamp()
        );
    }

    let date = NaiveDate::from_ymd_opt(2020, 10, 10).unwrap();
    let time = utc(Utc.from_utc_datetime(&date.and_hms_opt(10, 1, 0).unwrap()).timestamp());
    assert_eq!(
        parse_hour_after("2201", time).unwrap(),
        utc(Utc.from_utc_datetime(&date.and_hms_opt(22, 1, 0).unwrap()).timestamp())
    );
    assert_eq!(
        parse_hour_after("10", time).unwrap(),
        utc(
            Utc.from_utc_datetime(&(date + TimeDelta::days(1)).and_hms_opt(10, 0, 0).unwrap())
                .timestamp()
        )
    );
}

#[test]
fn test_timezone() {
    assert_eq!(
        FixedOffset::east_opt(7200).unwrap().timestamp_millis_opt(1000).unwrap().time(),
        NaiveTime::from_hms_opt(2, 0, 1).unwrap()
    );
    // The same second on the clock of this crate: two hours and a second past midnight
    let time = LocalTime { secs: 1, nanos: 0, offset: 7200 };
    assert_eq!(time.local_day(), 0);
    assert_eq!(format_datetime_relative_at(time, 0), "02:00");
}

#[test]
fn hours_are_read_from_plain_numbers() {
    assert_eq!(read_hour("7"), Some((7, 0)));
    assert_eq!(read_hour("23"), Some((23, 0)));
    assert_eq!(read_hour("24"), None);
    assert_eq!(read_hour("123"), Some((1, 23)));
    assert_eq!(read_hour("0160"), None);
    assert_eq!(read_hour("2359"), Some((23, 59)));
    assert_eq!(read_hour("+5"), Some((5, 0)));
    assert_eq!(read_hour("5h"), None);
    assert_eq!(read_hour(""), None);
    assert_eq!(read_hour("99999999999"), None);
}

#[test]
fn hours_follow_the_given_time() {
    // Ten past nine in the evening, an hour east: already the next day there after eleven
    let after = LocalTime { secs: 21 * 3600 + 600, nanos: 0, offset: 3600 };
    assert_eq!(
        parse_hour_after("23", after),
        Some(LocalTime { secs: 22 * 3600, nanos: 0, offset: 3600 })
    );
    assert_eq!(
        parse_hour_after("22", after),
        Some(LocalTime { secs: DAY + 21 * 3600, nanos: 0, offset: 3600 })
    );
    // A fraction of a second past the hour is past it
    let exact = LocalTime { secs: 3600, nanos: 0, offset: 0 };
    let past = LocalTime { secs: 3600, nanos: 1, offset: 0 };
    assert_eq!(parse_hour_after("1", exact).unwrap().secs, 3600);
    assert_eq!(parse_hour_after("1", past).unwrap().secs, 3600 + DAY);
    // Before 1970
    let early = LocalTime { secs: -1, nanos: 0, offset: 0 };
    assert_eq!(early.local_day(), -1);
    assert_eq!(parse_hour_after("0", early).unwrap().secs, 0);
    assert_eq!(parse_hour_after("x", exact), None);
}

#[test]
fn an_hour_that_has_passed_is_that_of_the_next_day() {
    let after = LocalTime { secs: 5000, nanos: 1, offset: 3600 };
    assert_eq!(
        choose_hour(after, Some((5001, 3600)), Some(7200)),
        Some(LocalTime { secs: 5001, nanos: 0, offset: 3600 })
    );
    assert_eq!(
        choose_hour(after, Some((5000, 3600)), Some(7200)),
        Some(LocalTime { secs: 5000 + DAY, nanos: 0, offset: 7200 })
    );
    assert_eq!(choose_hour(after, Some((5000, 3600)), None), None);
    assert_eq!(choose_hour(after, None, Some(7200)), None);
}

#[test]
fn hours_are_looked_for_within_a_day() {
    let now = utc(1_000_000);
    assert_eq!(choose_hour_start(now, 6, Some(3600)).unwrap().secs, 1_000_000 - 18 * 3600);
    assert_eq!(choose_hour_start(now, 24, Some(3600)).unwrap().offset, 3600);
    assert_eq!(choose_hour_start(now, 24, Some(86_400)).unwrap().offset, 0);
    assert_eq!(choose_hour_start(now, i64::MAX, None), None);
    for max_future in [0, 1, 6, 20, 24] {
        for hour in 0..24 {
            let found = parse_hour_at(&format!("{}", hour), max_future, local(1_700_000_000));
            let found = found.unwrap().secs;
            assert!(found >= 1_700_000_000 - (24 - max_future) * 3600);
            assert!(found < 1_700_000_000 + max_future * 3600);
            assert_eq!(Local.timestamp_opt(found, 0).unwrap().hour(), hour);
        }
    }
}

#[test]
fn hours_before_stay_within_the_horizon() {
    let time = local(1_700_000_000);
    let before = hours_before(time, 18).unwrap();
    assert_eq!(before.secs, 1_700_000_000 - 18 * 3600);
    assert_eq!(before, local(before.secs));
    assert_eq!(
        hours_before_at(utc(7200), 1, Some(60)),
        Some(LocalTime { secs: 3600, nanos: 0, offset: 60 })
    );
    assert_eq!(hours_before(time, i64::MAX), None);
    assert_eq!(hours_before(time, i64::MIN), None);
}

#[test]
fn timestamps_start_at_1970() {
    assert_eq!(utc(5).to_timestamp(), 5);
    assert_eq!(utc(0).to_timestamp(), 0);
    assert_eq!(utc(-5).to_timestamp(), 0);
    let now = local_now();
    assert!(now.is_in_range());
    assert!(clock().abs_diff(now.to_timestamp()) < 5);
    assert!(utc(HORIZON).is_in_range() && !utc(HORIZON + 1).is_in_range());
    assert!(utc(DAWN).is_in_range() && !utc(DAWN - 1).is_in_range());
    assert!(!LocalTime { secs: 0, nanos: 0, offset: 86400 }.is_in_range());
}

#[test]
fn dates_are_read_with_a_reference() {
    let reference = local(1_700_000_000);
    let time = Local.timestamp_opt(1_700_000_000, 0).unwrap();
    assert_eq!(
        parse_date_with_ref("2 hours ago", reference),
        Some((time - TimeDelta::hours(2)).timestamp())
    );
    assert_eq!(
        parse_date_with_ref("3 days", reference),
        Some((time + TimeDelta::days(3)).timestamp())
    );
    // A date without any number is that of its day in UTC
    let tomorrow = parse_date_with_ref("tomorrow", reference).unwrap();
    assert_eq!(tomorrow % DAY, 0);
    assert!(tomorrow > 1_700_000_000 && tomorrow <= 1_700_000_000 + 2 * DAY);
    // A date in full, at the local midnight
    assert_eq!(
        parse_date_with_ref("2020-10-10", reference).map(|t| t.div_euclid(DAY)),
        Some(
            Local
                .from_local_datetime(
                    &NaiveDate::from_ymd_opt(2020, 10, 10).unwrap().and_time(NaiveTime::MIN)
                )
                .unwrap()
                .timestamp()
                .div_euclid(DAY)
        )
    );
    assert_eq!(parse_date_with_ref("gibberish", reference), None);
    assert_eq!(parse_date_with_ref("", reference), None);
    assert_eq!(parse_date("no date at all"), None);
    assert!(parse_date("1 hour ago").unwrap() < clock() as i64);
}

#[test]
fn the_first_reading_of_a_date_counts() {
    assert_eq!(choose_date("in 2 days", Some(100_001), Some(7)), Some(100_001));
    assert_eq!(choose_date("in 2 days", None, Some(100_001)), Some(100_001));
    assert_eq!(choose_date("in 2 days", None, None), None);
    assert_eq!(choose_date("tomorrow", Some(100_001), None), Some(86_400));
    assert_eq!(choose_date("yesterday", Some(-1), None), Some(-86_400));
    assert_eq!(choose_date("yesterday", Some(-86_400), None), Some(-86_400));
    // Any character that counts as numeric
    assert_eq!(choose_date("day \u{00bd}", Some(100_001), None), Some(100_001));
}

#[test]
fn only_times_that_can_be_added_up_are_dates() {
    assert!(check_duration("in 2 days"));
    assert!(check_duration("t\u{00e4}glich"));
    assert!(check_duration("99999999999999999999"));
    assert!(check_duration("100000000 seconds ago"));
    assert!(check_duration("9000000000000000 seconds"));
    assert!(!check_duration("10000000000000000 seconds"));
    assert!(check_duration("292000000 years"));
    assert!(!check_duration("293000000 years"));
    assert!(!check_duration("293000000\tnext  years"));
    assert!(check_duration("293000000 times"));
    assert!(check_duration("400000000 yesterday"));
    assert_eq!(parse_date("293000000 years"), None);
    // All together they may be more than a duration holds, but not just as much
    assert!(check_duration("292471000 years"));
    assert!(!check_duration("292471208 years"));
    assert!(!check_duration("-292471208 years"));
    assert!(!check_duration("146235604 years 146235604 years"));
    assert!(check_duration("150000000 years 150000000 years"));
    for text in [
        "292471000 years",
        "-292471000 years",
        "292471000 years ago",
        "150000000 years 150000000 years",
        "292400000 years 292400000 years ago",
        "99999999999999999999 yesterday",
    ] {
        assert_eq!(parse_date_with_ref(text, utc(1_700_000_000)), None, "{}", text);
    }
    // Other texts are read, whatever their length
    for text in [
        "100000000 seconds ago",
        "2\tdays",
        "400000000 yesterday",
        "292400000 years -292400000 years",
        "292400000 years 292400000 last years",
    ] {
        assert!(parse_date_with_ref(text, utc(1_700_000_000)).is_some(), "{}", text);
    }
    assert!(parse_date("in\t2\tdays").is_none());
    let long: String = vec!["1 day"; 100].join(" ");
    let seconds = parse_date_with_ref(&long, utc(1_700_000_000)).unwrap() - 1_700_000_000;
    assert!((seconds - 100 * DAY).abs() <= DAY);
}

#[test]
fn dates_are_seen_from_the_local_clock() {
    let at = |secs: i64, offset: i32| LocalTime { secs, nanos: 0, offset };
    // 2023-11-14 22:13:20 in UTC
    let now = 1_700_000_000;
    assert_eq!(parse_date_with_ref("yesterday 17:20", at(now, 0)), Some(1_699_896_000));
    assert_eq!(parse_date_with_ref("yesterday 17:20", at(now, 3600)), Some(1_699_892_400));
    assert_eq!(parse_date_with_ref("yesterday 17:20", at(now, -3600)), Some(1_699_899_600));
    // It is the next day already
    assert_eq!(parse_date_with_ref("yesterday 17:20", at(now, 7200)), Some(1_699_975_200));
    assert_eq!(parse_date_with_ref("15 minutes ago", at(now, 3600)), Some(now - 900));
    assert_eq!(parse_date_with_ref("2020-10-10", at(now, 3600)), Some(1_602_284_400));
    assert_eq!(parse_date_with_ref("tomorrow", at(now, 7200)), Some(1_700_006_400));
    assert_eq!(parse_date_with_ref("tomorrow", at(now, 86_400)), None);
    // Nanoseconds that no clock shows
    assert_eq!(
        parse_date_with_ref("tomorrow", LocalTime { nanos: u32::MAX, ..at(now, 0) }),
        None
    );
}

#[test]
fn dates_are_seen_from_all_of_the_calendar() {
    let at = |secs: i64, offset: i32| LocalTime { secs, nanos: 0, offset };
    for secs in [DAWN + EDGE, HORIZON - EDGE] {
        assert_eq!(parse_date_with_ref("3 days", at(secs, 0)), Some(secs + 3 * DAY));
        assert_eq!(parse_date_with_ref("3 days ago", at(secs, 0)), Some(secs - 3 * DAY));
    }
    assert_eq!(parse_date_with_ref("9999 years", at(HORIZON - EDGE, 0)), None);
    assert_eq!(parse_date_with_ref("3 days", at(HORIZON - EDGE + 1, 0)), None);
    assert_eq!(parse_date_with_ref("3 days", at(DAWN + EDGE - 1, 0)), None);
    let (first, last) = (DAWN + REACH, HORIZON - REACH);
    assert!(parse_date_with_ref("9999 years ago", at(first, 86_399)).is_some());
    assert!(parse_date_with_ref("9999 years", at(last, -86_399)).is_some());
    assert_eq!(parse_date_with_ref("3 days", at(first - 1, 1)), None);
    assert_eq!(parse_date_with_ref("3 days", at(last + 1, -1)), None);
    assert_eq!(parse_date_with_ref("3 days", at(first - 1, -1)), Some(first - 1 + 3 * DAY));
}

#[test]
fn weekdays_are_read_beside_any_space() {
    let now = local_now();
    for text in ["\u{00a0}monday", "FRI\r", "\u{2003}Sunday"] {
        let day = parse_date_with_ref(text, now).unwrap();
        assert_eq!(day % DAY, 0);
        assert!(day >= now.secs - 3 * DAY && day <= now.secs + 9 * DAY);
    }
    assert_eq!(parse_date_with_ref("\u{00a0}someday", now), None);
}

#[test]
fn tracking_stamps_are_hours_minutes_or_dates() {
    // Hours after the given time
    let after = local(1_700_000_000);
    let start = Local.timestamp_opt(1_700_000_000, 0).unwrap();
    let hour = format!("{}", start.hour());
    let found = parse_tracking_stamp(&hour, Some(after)).unwrap();
    assert!(found >= 1_700_000_000 && found <= 1_700_000_000 + 86_400);
    assert_eq!(Local.timestamp_opt(found as i64, 0).unwrap().hour(), start.hour());
    assert_eq!(Local.timestamp_opt(found as i64, 0).unwrap().minute(), 0);
    // Without a time, at most 18 hours back and 6 hours ahead
    let now = clock();
    let around = parse_tracking_stamp("12", None).unwrap();
    assert!(around + 18 * 3600 + 5 >= now && around <= now + 6 * 3600 + 5);
    // Minutes
    let before = clock();
    let found = parse_tracking_stamp("+60", None).unwrap();
    assert!(found >= before + 3600 && found <= clock() + 3600);
    let found = parse_tracking_stamp("-30", None).unwrap();
    assert!(found >= before - 1800 && found <= clock() - 1800);
    let found = parse_tracking_stamp("in in 100", None).unwrap();
    assert!(found >= before + 6000 && found <= clock() + 6000);
    // Dates
    let found = parse_tracking_stamp("2 hours ago", None).unwrap();
    assert!(found >= before - 7200 && found <= clock() - 7200);
    assert_eq!(parse_tracking_stamp("1960-01-01", None), None);
    assert_eq!(parse_tracking_stamp("nothing", None), None);
}

#[test]
fn times_to_track_from_are_told_in_words() {
    let day = 86_400;
    let about = |text: &str, offset: i64| {
        let found = parse_tracking_stamp(text, None).unwrap() as i64;
        // A change of the clock in between may shift days by an hour
        assert!((found - clock() as i64 - offset).abs() <= 3600 + 5, "{}", text);
    };
    about("-1d", -day);
    about("-15 minutes", -900);
    about("in 2 fortnights", 28 * day);
    about("+ 2 days", 2 * day);
    let yesterday = parse_tracking_stamp("yesterday 17:20", None).unwrap() as i64;
    let shown = Local.timestamp_opt(yesterday, 0).unwrap();
    assert_eq!((shown.hour(), shown.minute()), (17, 20));
    assert!(yesterday < clock() as i64 && yesterday > clock() as i64 - 2 * day);
}

#[test]
fn a_plus_sign_makes_minutes() {
    let now = utc(1_000_000);
    assert_eq!(parse_tracking_stamp_at("+15", None, now, 1_000_000), Some(1_000_900));
    assert_eq!(parse_tracking_stamp_at(" +15", None, now, 1_000_000), Some(1_000_900));
    assert_eq!(parse_tracking_stamp_at("+0", Some(utc(5000)), now, 1_000_000), Some(1_000_000));
    assert_eq!(parse_tracking_stamp_at("-15", None, now, 1_000_000), Some(999_100));
    let before = clock();
    let found = parse_tracking_stamp("+15", None).unwrap();
    assert!(found >= before + 900 && found <= clock() + 900);
    // Without it, the number is an hour
    let found = parse_tracking_stamp_at("15", None, local(1_700_000_000), 0).unwrap();
    assert_eq!(Local.timestamp_opt(found as i64, 0).unwrap().hour(), 15);
    assert!(found >= 1_700_000_000 - 18 * 3600 && found < 1_700_000_000 + 6 * 3600);
}

#[test]
fn the_hour_goes_before_minutes_and_dates() {
    assert_eq!(choose_stamp("+15", Some(utc(7)), 100, Some(9)), Some(7));
    assert_eq!(choose_stamp("+15", Some(utc(-7)), 100, Some(9)), Some(0));
    assert_eq!(choose_stamp("in 1", None, 100, Some(9)), Some(160));
    assert_eq!(choose_stamp("soon", None, 100, Some(9)), Some(9));
    assert_eq!(choose_stamp("soon", None, 100, Some(0)), None);
    assert_eq!(choose_stamp("soon", None, 100, None), None);
    assert_eq!(choose_start(Some(utc(5)), utc(100_000), None), utc(5));
    assert_eq!(
        choose_start(None, utc(100_000), Some(60)),
        LocalTime { secs: 100_000 - 18 * 3600, nanos: 0, offset: 60 }
    );
    assert_eq!(choose_time(Some(utc(7)), Some(9)), Some(7));
    assert_eq!(choose_time(None, Some(9)), Some(9));
    assert_eq!(choose_time(None, Some(-9)), Some(0));
    assert_eq!(choose_time(None, None), None);
    assert_eq!(
        read_time_at("2 hours ago", 20, local(1_700_000_000)),
        Some(1_700_000_000 - 7200)
    );
}

#[test]
fn minutes_shift_within_the_timestamps() {
    assert_eq!(shift_minutes(1000, 2), 1120);
    assert_eq!(shift_minutes(1000, -2), 880);
    assert_eq!(shift_minutes(100, -2), 0);
    assert_eq!(shift_minutes(u64::MAX - 60, 2), u64::MAX);
    assert_eq!(shift_minutes(0, i64::MIN), 0);
}

#[test]
fn times_are_read_from_hours_or_dates() {
    let now = clock();
    let hour = read_time("12", 20).unwrap();
    assert_eq!(Local.timestamp_opt(hour as i64, 0).unwrap().hour(), 12);
    assert!(hour + 4 * 3600 + 5 >= now && hour <= now + 20 * 3600 + 5);
    let ago = read_time("3 days ago", 20).unwrap();
    assert!(now - ago >= 3 * 86_400 - 7200 && now - ago <= 3 * 86_400 + 7200);
    assert_eq!(read_time("nothing", 20), None);
}

#[test]
fn timestamps_are_shown_like_chrono_shows_them() {
    let stamp = 1_700_000_000;
    // The second after the timestamp is shown
    let time = Local.timestamp_opt(1_700_000_001, 0).unwrap();
    assert_eq!(format_timestamp(stamp, "%Y %j %S"), time.format("%Y %j %S").to_string());
    assert_eq!(format_timestamp_local(stamp), time.format("%y-%m-%d %a %H:%M").to_string());
    assert_eq!(format_timestamp_local(stamp).len(), 18);
    assert_eq!(format_timestamp_full(stamp), time.format("%y-%m-%d %a %H:%M:%S").to_string());
    assert_eq!(format_timestamp_relative_to(stamp, stamp + 79_999), time.format("%H:%M").to_string());
    assert_eq!(
        format_timestamp_relative_to(stamp, stamp + 80_000),
        time.format("%a %H:%M").to_string()
    );
    assert_eq!(
        format_timestamp_relative_to(stamp, stamp - 319_999),
        time.format("%a %H:%M").to_string()
    );
    assert_eq!(
        format_timestamp_relative_to(stamp, stamp - 320_000),
        time.format("%y-%m-%d %a %H:%M").to_string()
    );
    // Beyond the calendar, the general form of timestamps
    assert_eq!(
        format_timestamp_local(i64::MAX as u64),
        Timestamp::from(i64::MAX as u64).to_human_datetime()
    );
    assert_eq!(
        format_timestamp_relative(9_000_000_000_000),
        Timestamp::from(9_000_000_000_000).to_human_datetime()
    );
}

#[test]
fn timestamps_are_shown_at_a_distance_from_utc() {
    assert_eq!(format_timestamp_at(3599, "%H:%M", Some(3600)), "02:00");
    assert_eq!(format_timestamp_at(3599, "%H:%M", None), "01:00");
    assert_eq!(
        format_timestamp_at(3599, "%-H %:z %.3f%3f %q", Some(3600)),
        "2 +01:00 .000000 1"
    );
    assert_eq!(
        format_timestamp_relative_at(3599, Some(3600), LocalTime { secs: DAY, nanos: 0, offset: 0 }),
        "yesterday 02:00"
    );
    assert_eq!(format_as_datetime_at(4, |t| format!("{} {}", t.secs, t.offset), Some(60)), "5 60");
    assert_eq!(choose_zone(0, Some(86_399)), Some(86_399));
    assert_eq!(choose_zone(0, Some(86_400)), Some(0));
    assert_eq!(choose_zone(HORIZON + 1, None), None);
    // A timestamp beyond all times wraps round
    assert_eq!(format_timestamp_at((DAWN - 1) as u64, "%Y", Some(0)), "-262143");
}

#[test]
fn a_formatter_gets_the_local_time() {
    let expected = local(1_700_000_001);
    assert_eq!(
        format_as_datetime(1_700_000_000, |t| format!("{} {} {}", t.secs, t.nanos, t.offset)),
        format!("{} 0 {}", expected.secs, expected.offset)
    );
    assert_eq!(
        format_as_datetime(i64::MAX as u64, |_| "unused".to_string()),
        Timestamp::from(i64::MAX as u64).to_human_datetime()
    );
}

#[test]
fn days_nearby_are_named() {
    let day = 20_000;
    let time = LocalTime { secs: day * DAY + 3 * 3600 + 240, nanos: 0, offset: -3600 };
    assert_eq!(format_datetime_relative_at(time, day), "02:04");
    assert_eq!(format_datetime_relative_at(time, day + 1), "yesterday 02:04");
    assert_eq!(format_datetime_relative_at(time, day - 1), "tomorrow 02:04");
    let shown = FixedOffset::west_opt(3600).unwrap().timestamp_opt(time.secs, 0).unwrap();
    assert_eq!(
        format_datetime_relative_at(time, day + 10),
        shown.format("%d. %a 02:04").to_string()
    );
    assert_eq!(
        format_datetime_relative_at(time, day - 11),
        shown.format("%a %b %d 02:04").to_string()
    );
    assert_eq!(
        format_datetime_relative_at(time, day + 101),
        shown.format("%y-%m-%d %a 02:04").to_string()
    );
    let now = local_now();
    assert_eq!(
        format_datetime_relative(now),
        Local.timestamp_opt(now.secs, 0).unwrap().format("%H:%M").to_string()
    );
    let yesterday = local(now.secs - 2 * DAY);
    assert_eq!(
        format_timestamp_relative((yesterday.secs - 1) as u64),
        Local.timestamp_opt(yesterday.secs, 0).unwrap().format("%d. %a %H:%M").to_string()
    );
}
