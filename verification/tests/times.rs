use chrono::{Datelike, Timelike};
use college_cal::local::{day_at, now, second_at, start_days, today, OffsetClock};
use college_cal::number::{push_decimal, push_two_digits, read_count, read_signed};
use college_cal::time::{
    weekday_of, CivilTime, LocalTimes, Span, UtcTime, Weekday, MAX_DAY, MAX_SECONDS, MIN_DAY,
    MIN_SECONDS, UNIX_EPOCH_DAY,
};

#[test]
fn the_range_of_dates_is_that_of_chrono() {
    assert_eq!(chrono::NaiveDate::MIN.num_days_from_ce(), MIN_DAY);
    assert_eq!(chrono::NaiveDate::MAX.num_days_from_ce(), MAX_DAY);
    assert_eq!(chrono::DateTime::<chrono::Utc>::MIN_UTC.timestamp(), MIN_SECONDS);
    assert_eq!(chrono::DateTime::<chrono::Utc>::MAX_UTC.timestamp(), MAX_SECONDS);
    let epoch = chrono::NaiveDate::from_ymd_opt(1970, 1, 1).unwrap();
    assert_eq!(epoch.num_days_from_ce(), UNIX_EPOCH_DAY);
}

#[test]
fn weekdays_are_those_of_chrono() {
    let days = [MIN_DAY, MIN_DAY + 1, -1, 0, 1, 6, 7, 8, 719_163, 739_852, MAX_DAY - 1, MAX_DAY];
    for day in days {
        let date = chrono::NaiveDate::from_num_days_from_ce_opt(day).unwrap();
        assert_eq!(
            weekday_of(day).days_from_monday() as u32,
            date.weekday().num_days_from_monday()
        );
    }
    assert_eq!(weekday_of(1), Weekday::Mon);
}

#[test]
fn a_clock_set_to_utc_reads_as_chrono_does() {
    let naive = chrono::NaiveDate::from_ymd_opt(2026, 8, 24).unwrap().and_hms_opt(12, 34, 56);
    let naive = naive.unwrap();
    let civil = CivilTime {
        day: naive.num_days_from_ce(),
        second: naive.num_seconds_from_midnight(),
        nano: 5,
    };
    assert_eq!(civil.as_utc(), UtcTime { seconds: naive.and_utc().timestamp(), nanos: 5 });
}

#[test]
fn clocks_ahead_and_behind_show_other_dates() {
    for seconds in [0, -1, 1, 86_399, 86_400, -86_400, 1_787_574_896, MIN_SECONDS, MAX_SECONDS] {
        for offset in [0, 3_600, -3_600, 20_700, 86_399, -86_399] {
            let t = UtcTime { seconds, nanos: 0 };
            let shifted = seconds + offset as i64;
            assert_eq!(day_at(t, offset) as i64, shifted.div_euclid(86_400) + 719_163);
            assert_eq!(second_at(t, offset) as i64, shifted.rem_euclid(86_400));
        }
    }
    let t = UtcTime { seconds: 0, nanos: 0 };
    assert_eq!((day_at(t, 0), second_at(t, 0)), (719_163, 0));
    assert_eq!((day_at(t, -1), second_at(t, -1)), (719_162, 86_399));
}

#[test]
fn the_machine_knows_what_day_it_is() {
    let before = chrono::Local::now().date_naive().num_days_from_ce();
    let mut clock = OffsetClock::new();
    let day = today(&mut clock);
    let after = chrono::Local::now().date_naive().num_days_from_ce();
    assert!(before <= day && day <= after);
    let earlier = chrono::Utc::now().timestamp();
    let t = now();
    assert!(earlier <= t.seconds && t.seconds <= chrono::Utc::now().timestamp());
    assert!(start_days(&Vec::new(), &mut clock).is_empty());
}

#[test]
fn events_start_on_the_machine_s_dates() {
    let mut events = Vec::new();
    let mut wanted = Vec::new();
    for day in 0..400 {
        let seconds = 1_767_225_600 + day * 90_000;
        let t = chrono::DateTime::from_timestamp(seconds, 0).unwrap();
        wanted.push(t.with_timezone(&chrono::Local).date_naive().num_days_from_ce());
        events.push(college_cal::event::CalendarEvent {
            calendar_index: 0,
            calendar_name: String::new(),
            summary: String::new(),
            location: String::new(),
            start: UtcTime { seconds, nanos: 0 },
            end: UtcTime { seconds: seconds + 60, nanos: 0 },
        });
    }
    let mut clock = OffsetClock::new();
    assert_eq!(start_days(&events, &mut clock), wanted);
    // Asked again, the clocks answer the same.
    assert_eq!(start_days(&events, &mut clock), wanted);
    for event in &events {
        let t = chrono::DateTime::from_timestamp(event.start.seconds, 0).unwrap();
        let offset = t.with_timezone(&chrono::Local).offset().local_minus_utc();
        assert_eq!(clock.offset(event.start), offset);
        assert_eq!(clock.day(event.start), day_at(event.start, offset));
    }
}

#[test]
fn points_in_time_are_ordered() {
    let early = UtcTime { seconds: 5, nanos: 7 };
    assert!(early.before(&UtcTime { seconds: 5, nanos: 8 }));
    assert!(early.before(&UtcTime { seconds: 6, nanos: 0 }));
    assert!(!early.before(&early));
    assert!(!UtcTime { seconds: 6, nanos: 0 }.before(&early));
}

#[test]
fn spans_are_counted_in_whole_units() {
    let span = Span { seconds: 125, nanos: 999_999_999 };
    assert_eq!((span.milliseconds(), span.minutes()), (125_999, 2));
    let span = Span { seconds: -125, nanos: -999_999_999 };
    assert_eq!((span.milliseconds(), span.minutes()), (-125_999, -2));
    let span = Span { seconds: 0, nanos: -1 };
    assert_eq!((span.milliseconds(), span.minutes()), (0, 0));
    let span = Span { seconds: 9_223_372_036_854_775, nanos: 807_000_000 };
    assert_eq!(span.milliseconds(), i64::MAX);
}

#[test]
fn the_first_of_two_times_counts() {
    let (a, b) = (UtcTime { seconds: 1, nanos: 0 }, UtcTime { seconds: 2, nanos: 0 });
    assert_eq!(LocalTimes::Skipped.first(), None);
    assert_eq!(LocalTimes::Single(b).first(), Some(b));
    assert_eq!(LocalTimes::Twice(a, b).first(), Some(a));
}

#[test]
fn writes_and_reads_numbers() {
    for n in [0, 7, 10, 99, 100, 1_234_567_890, u64::MAX] {
        let mut out = "n".to_owned();
        push_decimal(&mut out, n);
        assert_eq!(out, format!("n{}", n));
        let mut out = String::new();
        push_two_digits(&mut out, n);
        assert_eq!(out, format!("{:02}", n));
    }
    for text in [
        "0", "-0", "+7", "-7", "007", "", "+", "-", "+-1", "1 ", "a", "9223372036854775807",
        "9223372036854775808", "-9223372036854775808", "-9223372036854775809",
        "18446744073709551615", "18446744073709551616", "99999999999999999999999",
    ] {
        let chars: Vec<char> = text.chars().collect();
        assert_eq!(read_signed(&chars), text.parse::<i64>().ok(), "{}", text);
        assert_eq!(read_count(&chars), text.parse::<usize>().ok(), "{}", text);
    }
}
