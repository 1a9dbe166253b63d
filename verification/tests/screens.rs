use chrono::Datelike;
use college_cal::display::{
    card_time, compact_until, day_number, ends_at, ends_at_offset, event_time, event_time_at, format_duration, free_time, free_time_at, free_time_now,
    local_range, local_range_at, local_time, local_time_at, place, long_clock_text, long_date, next_heading, progress, range_time, short_clock_text,
    short_local_time, short_local_time_at, starts_in, time_left, week_range, weekday_heading,
};
use college_cal::event::{current_and_next, events_of_calendar, sort_by_start, CalendarEvent};
use college_cal::local::OffsetClock;
use college_cal::time::{Span, UtcTime, MAX_DAY, MIN_DAY};
use college_cal::timeline::{
    busy_text, compare_calendars, compare_week, comparison_timeline, empty_timeline_message,
    events_on_day, free_text, monday_of, range_days, weekly_calendar, Comparison, RangeDays,
};

fn at(seconds: i64) -> UtcTime {
    UtcTime { seconds, nanos: 0 }
}

fn class(calendar_index: usize, name: &str, summary: &str, start: i64, end: i64) -> CalendarEvent {
    CalendarEvent {
        calendar_index,
        calendar_name: name.to_owned(),
        summary: summary.to_owned(),
        location: String::new(),
        start: at(start),
        end: at(end),
    }
}

fn texts(list: &[&str]) -> Vec<String> {
    list.iter().map(|s| s.to_string()).collect()
}

fn day(year: i32, month: u32, day: u32) -> i32 {
    chrono::NaiveDate::from_ymd_opt(year, month, day).unwrap().num_days_from_ce()
}

#[test]
fn formats_countdown() {
    assert_eq!(format_duration(65_000), "1:05");
    assert_eq!(format_duration(3_665_000), "1:01:05");
}

#[test]
fn countdowns_of_all_lengths() {
    assert_eq!(format_duration(0), "0:00");
    assert_eq!(format_duration(-65_000), "0:00");
    assert_eq!(format_duration(i64::MIN), "0:00");
    assert_eq!(format_duration(999), "0:00");
    assert_eq!(format_duration(59_999), "0:59");
    assert_eq!(format_duration(3_599_999), "59:59");
    assert_eq!(format_duration(3_600_000), "1:00:00");
    assert_eq!(format_duration(360_000_000), "100:00:00");
    assert_eq!(format_duration(i64::MAX), "2562047788015:12:55");
}

#[test]
fn short_lengths_of_time() {
    let minutes = |minutes: i64| compact_until(Span { seconds: minutes * 60, nanos: 0 });
    assert_eq!(minutes(-5), "0m");
    assert_eq!(minutes(0), "0m");
    assert_eq!(minutes(59), "59m");
    assert_eq!(minutes(60), "1h 0m");
    assert_eq!(minutes(1_501), "25h 1m");
    assert_eq!(compact_until(Span { seconds: 119, nanos: 999_999_999 }), "1m");
}

#[test]
fn clocks_with_twelve_hours() {
    for second in [0, 59, 60, 32_700, 43_199, 43_200, 46_800, 86_399] {
        let time = chrono::NaiveTime::from_num_seconds_from_midnight_opt(second, 0).unwrap();
        assert_eq!(long_clock_text(second), time.format("%-I:%M %p").to_string());
        assert_eq!(short_clock_text(second), time.format("%-I:%M%P").to_string());
    }
    assert_eq!(long_clock_text(0), "12:00 AM");
    assert_eq!(long_clock_text(32_700), "9:05 AM");
    assert_eq!(long_clock_text(43_200), "12:00 PM");
    assert_eq!(short_clock_text(32_700), "9:05am");
    assert_eq!(short_clock_text(86_399), "11:59pm");
    assert_eq!(card_time(32_700, 46_800), "9:05–1:00");
    assert_eq!(range_time(32_700, 46_800), "9:05am – 1:00pm");
}

#[test]
fn the_machine_s_clocks_are_read_as_chrono_reads_them() {
    let mut clock = OffsetClock::new();
    for month in 0..24 {
        let seconds = 1_767_225_600 + month * 2_629_000;
        let t = chrono::DateTime::from_timestamp(seconds, 0).unwrap();
        let local = t.with_timezone(&chrono::Local);
        let later = chrono::DateTime::from_timestamp(seconds + 4_500, 0).unwrap();
        let later = later.with_timezone(&chrono::Local);
        let offset = local.offset().local_minus_utc();
        let later_offset = later.offset().local_minus_utc();
        assert_eq!(local_time(at(seconds), &mut clock), local.format("%-I:%M %p").to_string());
        assert_eq!(short_local_time(at(seconds), &mut clock), local.format("%-I:%M%P").to_string());
        assert_eq!(
            event_time(&class(0, "", "", seconds, seconds + 4_500), &mut clock),
            format!("{}–{}", local.format("%-I:%M"), later.format("%-I:%M"))
        );
        assert_eq!(
            local_range(at(seconds), at(seconds + 4_500), &mut clock),
            format!("{} – {}", local.format("%-I:%M%P"), later.format("%-I:%M%P"))
        );
        assert_eq!(
            local_range_at(at(seconds), at(seconds + 4_500), offset, later_offset),
            local_range(at(seconds), at(seconds + 4_500), &mut clock)
        );
    }
}

#[test]
fn times_of_day_depend_on_the_offset() {
    // 00:00 and 01:15 in UTC.
    let event = class(0, "", "Math", 0, 4_500);
    assert_eq!(local_time_at(at(0), 0), "12:00 AM");
    assert_eq!(local_time_at(at(0), 33_900), "9:25 AM");
    assert_eq!(local_time_at(at(0), -14_400), "8:00 PM");
    assert_eq!(short_local_time_at(at(0), -14_400), "8:00pm");
    assert_eq!(ends_at_offset(&event, 33_900), "ends 10:40 AM");
    assert_eq!(event_time_at(&event, 33_900, 37_500), "9:25–11:40");
    assert_eq!(local_range_at(event.start, event.end, -14_400, -18_000), "8:00pm – 8:15pm");
    assert_eq!(free_time_at(Some((&event, 33_900))).subtitle, "Next up: Math at 9:25 AM");
    assert_eq!(free_time_at(None).title, "You’re all clear");
}

#[test]
fn weeks_at_the_ends_of_the_calendar() {
    let none = Vec::new();
    // The first representable date is a Thursday, the last a Monday.
    assert_eq!(monday_of(MIN_DAY + 4), MIN_DAY + 4);
    assert_eq!(weekly_calendar(&none, &Vec::new(), MIN_DAY + 4)[0].day, MIN_DAY + 4);
    assert_eq!(weekly_calendar(&none, &Vec::new(), MAX_DAY - 1)[4].day, MAX_DAY - 3);
    let names = texts(&["Ann", "Bob"]);
    for today in [MIN_DAY + 4, MIN_DAY + 5, MAX_DAY - 3, MAX_DAY - 1] {
        let week = comparison_timeline(&Vec::new(), &Vec::new(), &names, today);
        assert!(listed(&week).is_empty());
    }
}

#[test]
fn dates_are_written_out() {
    assert_eq!(long_date(day(2026, 8, 5)), "Wednesday, August 5");
    assert_eq!(week_range(day(2026, 8, 31)), "Aug 31 – Sep 4");
    assert_eq!(day_number(day(2026, 8, 5)), "5");
    assert_eq!(day_number(day(2024, 2, 29)), "29");
    let headings: Vec<String> =
        (0..7).map(|n| weekday_heading(day(2026, 8, 24) + n)).collect();
    assert_eq!(headings, ["MON", "TUE", "WED", "THU", "FRI", "SAT", "SUN"]);
}

#[test]
fn an_event_counts_down() {
    let event = class(0, "", "", 1_000, 4_600);
    let now = UtcTime { seconds: 1_900, nanos: 500_000_000 };
    let p = progress(&event, now);
    assert_eq!((p.total, p.remaining), (3_600_000, 2_699_500));
    // What is left never grows.
    let mut left = p.remaining;
    for seconds in 1_901..4_700 {
        let p = progress(&event, at(seconds));
        assert!(p.remaining <= left && p.total == 3_600_000);
        if seconds < 4_600 {
            assert_eq!(p.total - p.remaining, (seconds - 1_000) * 1_000);
        }
        assert_eq!(time_left(&event, at(seconds)), format_duration(p.remaining));
        left = p.remaining;
    }
    assert_eq!(time_left(&event, now), "44:59");
    let p = progress(&event, at(9_999));
    assert_eq!(p.remaining, 0);
    let p = progress(&class(0, "", "", 5, 5), at(5));
    assert_eq!((p.total, p.remaining), (1, 0));
    assert_eq!(starts_in(&class(0, "", "", 4_600, 5_000), at(1_000)), "in 1h 0m");
    assert_eq!(starts_in(&class(0, "", "", 4_600, 5_000), at(9_000)), "in 0m");
    let mut event = class(0, "", "", 4_600, 1_787_574_896);
    let mut clock = OffsetClock::new();
    let end = local_time(at(1_787_574_896), &mut clock);
    assert_eq!(ends_at(&event, &mut clock), format!("ends {}", end));
    assert_eq!(place(&event), None);
    event.location = "Hall 2".to_owned();
    assert_eq!(place(&event).as_deref(), Some("⌖  Hall 2"));
}

#[test]
fn free_time_names_the_next_class() {
    let event = class(0, "", "Math", 0, 1);
    let said = free_time(Some((&event, "9:05 AM")));
    assert_eq!(said.title, "You’re between classes");
    assert_eq!(said.subtitle, "Next up: Math at 9:05 AM");
    let said = free_time(None);
    assert_eq!(said.title, "You’re all clear");
    assert_eq!(said.subtitle, "No more upcoming classes were found.");
    let event = class(0, "", "Math", 1_787_574_896, 1_787_574_996);
    let mut clock = OffsetClock::new();
    let said = free_time_now(Some(&event), &mut clock);
    assert_eq!(said.title, "You’re between classes");
    assert_eq!(said.subtitle, format!("Next up: Math at {}", local_time(event.start, &mut clock)));
    assert_eq!(free_time_now(None, &mut clock).title, "You’re all clear");
    assert_eq!(next_heading(true), "UP NEXT");
    assert_eq!(next_heading(false), "NEXT CLASS");
}

#[test]
fn finds_the_class_in_progress_and_the_next_one() {
    let events = vec![
        class(1, "B", "Other", 0, 100),
        class(0, "A", "First", 0, 50),
        class(0, "A", "Second", 40, 90),
        class(1, "B", "Next other", 60, 70),
        class(0, "A", "Third", 80, 90),
    ];
    let names = |now: i64, calendar: usize| {
        let (current, next) = current_and_next(&events, at(now), calendar);
        (current.map(|e| e.summary.clone()), next.map(|e| e.summary.clone()))
    };
    assert_eq!(names(45, 0), (Some("First".to_owned()), Some("Third".to_owned())));
    assert_eq!(names(50, 0), (Some("Second".to_owned()), Some("Third".to_owned())));
    assert_eq!(names(0, 1), (Some("Other".to_owned()), Some("Next other".to_owned())));
    assert_eq!(names(100, 1), (None, None));
    assert_eq!(names(40, 2), (None, None));
    assert!(events[1].is_current(at(0)) && !events[1].is_current(at(50)));
    let mine: Vec<String> =
        events_of_calendar(&events, 0).into_iter().map(|e| e.summary).collect();
    assert_eq!(mine, ["First", "Second", "Third"]);
}

#[test]
fn ordering_is_by_start_and_stable() {
    let events = vec![
        class(0, "", "c", 30, 31),
        class(0, "", "a", 10, 90),
        class(0, "", "d", 30, 20),
        class(0, "", "b", 20, 21),
    ];
    let sorted: Vec<String> = sort_by_start(events).into_iter().map(|e| e.summary).collect();
    assert_eq!(sorted, ["a", "b", "c", "d"]);
}

#[test]
fn the_school_week_starts_on_monday() {
    for n in 0..7 {
        assert_eq!(monday_of(day(2026, 8, 24) + n), day(2026, 8, 24));
    }
    let tuesday = day(2026, 8, 25);
    let events = vec![class(0, "", "a", 0, 1), class(0, "", "b", 2, 3), class(0, "", "c", 4, 5)];
    let days = vec![tuesday, tuesday + 4, tuesday];
    let week = weekly_calendar(&events, &days, tuesday + 1);
    let shape: Vec<(i32, bool, usize)> =
        week.iter().map(|d| (d.day - tuesday, d.is_today, d.events.len())).collect();
    assert_eq!(
        shape,
        [(-1, false, 0), (0, false, 2), (1, true, 0), (2, false, 0), (3, false, 0)]
    );
    assert_eq!(week[1].events[1].summary, "c");
    assert_eq!(events_on_day(&events, &days, tuesday + 4)[0].summary, "b");
}

#[test]
fn compares_calendars() {
    let events = vec![
        class(0, "Ann", "Math", 100, 200),
        class(1, "Bob", "Art", 150, 250),
        class(0, "Ann", "Gym", 300, 400),
        class(1, "Bob", "Gym", 300, 400),
    ];
    let found = compare_calendars(&events, &texts(&["Ann", "Bob"]));
    let shape: Vec<(i64, i64, String, String)> = found
        .iter()
        .map(|d| (d.from.seconds, d.to.seconds, free_text(d), busy_text(d)))
        .collect();
    assert_eq!(
        shape,
        [
            (100, 150, "Bob".to_owned(), "Busy: Math".to_owned()),
            (200, 250, "Ann".to_owned(), "Busy: Art".to_owned()),
        ]
    );
    assert_eq!(found[0].busy, ["Ann"]);
    let three = compare_calendars(&events, &texts(&["Ann", "Bob", "Cy"]));
    let shape: Vec<(i64, String, String)> =
        three.iter().map(|d| (d.from.seconds, free_text(d), busy_text(d))).collect();
    assert_eq!(
        shape,
        [
            (100, "Bob, Cy".to_owned(), "Busy: Math".to_owned()),
            (150, "Cy".to_owned(), "Busy: Art, Math".to_owned()),
            (200, "Ann, Cy".to_owned(), "Busy: Art".to_owned()),
            (300, "Cy".to_owned(), "Busy: Gym".to_owned()),
        ]
    );
    assert!(compare_calendars(&Vec::new(), &texts(&["Ann", "Bob"])).is_empty());
}

#[test]
fn only_calendars_of_the_list_are_compared() {
    // Events bear the names under which they were loaded.
    let events = vec![class(0, "Ann", "Math", 100, 200), class(1, "Old", "Art", 100, 200)];
    let found = compare_calendars(&events, &texts(&["Ann", "Bob"]));
    assert_eq!((found.len(), free_text(&found[0])), (1, "Bob".to_owned()));
    assert_eq!(found[0].busy, ["Ann", "Old"]);
    assert!(compare_calendars(&events, &texts(&["Ann"])).is_empty());
    assert!(compare_calendars(&events, &texts(&["Bob", "Cy"])).is_empty());
}

fn on(first: i32, last: i32) -> RangeDays {
    RangeDays { first, last }
}

fn listed(comparison: &Comparison) -> Vec<(usize, i64, i64, String)> {
    match comparison {
        Comparison::Week(week) => {
            assert_eq!(week.len(), 7);
            let mut ranges = Vec::new();
            for (k, day) in week.iter().enumerate() {
                for d in &day.differences {
                    ranges.push((k, d.from.seconds, d.to.seconds, free_text(d)));
                }
            }
            ranges
        }
        Comparison::TooFew => panic!("there are two calendars"),
    }
}

#[test]
fn compares_the_calendars_of_a_week() {
    let tuesday = day(2026, 8, 25);
    let names = texts(&["Ann", "Bob"]);
    let found = compare_calendars(&vec![class(0, "Ann", "Math", 100, 200)], &names);
    let few = comparison_timeline(&found, &vec![on(tuesday, tuesday)], &texts(&["Ann"]), tuesday);
    assert!(matches!(few, Comparison::TooFew));
    assert_eq!(
        empty_timeline_message(&few).as_deref(),
        Some("Add at least two named calendars to compare.")
    );
    let some = comparison_timeline(&found, &vec![on(tuesday, tuesday)], &names, tuesday);
    assert_eq!(empty_timeline_message(&some), None);
    match &some {
        Comparison::Week(week) => {
            let shape: Vec<(i32, bool, usize)> =
                week.iter().map(|d| (d.day - tuesday, d.is_today, d.differences.len())).collect();
            assert_eq!(
                shape,
                [
                    (-1, false, 0),
                    (0, true, 1),
                    (1, false, 0),
                    (2, false, 0),
                    (3, false, 0),
                    (4, false, 0),
                    (5, false, 0),
                ]
            );
        }
        Comparison::TooFew => panic!("there are two calendars"),
    }
    let next_week = vec![on(tuesday + 7, tuesday + 7)];
    let none = comparison_timeline(&found, &next_week, &names, tuesday);
    assert_eq!(
        empty_timeline_message(&none).as_deref(),
        Some("No schedule differences were found this week.")
    );
}

#[test]
fn a_class_over_night_is_compared_with_the_next_day() {
    let monday = day(2026, 8, 24);
    let midnight = (monday as i64 - 719_163 + 1) * 86_400;
    let events = vec![
        class(0, "A", "Lab", midnight - 3_600, midnight + 3_600),
        class(1, "B", "Run", midnight + 1_800, midnight + 5_400),
    ];
    let names = texts(&["A", "B"]);
    let found = compare_calendars(&events, &names);
    let days = vec![on(monday, monday + 1), on(monday + 1, monday + 1)];
    let week = comparison_timeline(&found, &days, &names, monday + 2);
    assert_eq!(
        listed(&week),
        [
            (0, midnight - 3_600, midnight + 1_800, "B".to_owned()),
            (1, midnight + 3_600, midnight + 5_400, "A".to_owned()),
        ]
    );
}

#[test]
fn weekends_are_compared_too() {
    let monday = day(2026, 8, 24);
    let names = texts(&["A", "B"]);
    let found = compare_calendars(&vec![class(0, "A", "Lab", 100, 200)], &names);
    for k in 0..7 {
        let days = vec![on(monday + k, monday + k)];
        let week = comparison_timeline(&found, &days, &names, monday + 3);
        assert_eq!(listed(&week), [(k as usize, 100, 200, "B".to_owned())]);
    }
    // A range that reaches into the week stands on Monday, one that ends before it nowhere.
    for (first, last, shown) in [(-1, 0, true), (-8, 9, true), (-1, -1, false), (7, 7, false)] {
        let days = vec![on(monday + first, monday + last)];
        let week = comparison_timeline(&found, &days, &names, monday + 3);
        assert_eq!(listed(&week).len(), shown as usize);
        assert!(listed(&week).iter().all(|range| range.0 == 0));
    }
}

#[test]
fn the_machine_dates_the_ranges_of_a_week() {
    let today = day(2026, 8, 26);
    let monday = (today as i64 - 719_163 - 2) * 86_400;
    let mut events = Vec::new();
    for k in 0..7 {
        events.push(class(0, "A", "Lab", monday + k * 86_400 + 1, monday + k * 86_400 + 500));
    }
    let names = texts(&["A", "B"]);
    let found = compare_calendars(&events, &names);
    let mut clock = OffsetClock::new();
    let days: Vec<(i32, i32)> = range_days(&found, &mut clock).iter().map(|d| (d.first, d.last)).collect();
    let local = |seconds: i64| {
        let t = chrono::DateTime::from_timestamp(seconds, 0).unwrap();
        t.with_timezone(&chrono::Local).date_naive().num_days_from_ce()
    };
    let wanted: Vec<(i32, i32)> =
        found.iter().map(|d| (local(d.from.seconds), local(d.to.seconds - 1))).collect();
    assert_eq!(days, wanted);
    let in_week = wanted.iter().filter(|d| today - 2 <= d.1 && d.0 <= today + 4).count();
    assert_eq!(listed(&compare_week(&events, &names, today, &mut clock)).len(), in_week);
}
