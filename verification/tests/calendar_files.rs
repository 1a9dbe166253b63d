use chrono::Datelike;
use college_cal::event::CalendarEvent;
use college_cal::ics::{
    events_of_records, parse_ics, parse_ics_at, read_records, show_events, unescape_ics,
};
use college_cal::recurrence::{
    expand_weekly_event, parse_weekday, read_weekly_rule, weekly_occurrences,
};
use college_cal::time::{
    weekday_of, CivilTime, LocalTimes, UtcTime, Weekday, MAX_DAY, MIN_DAY,
};
use college_cal::zone::{
    localize_ics_datetime, local_to_utc, parse_ics_datetime, parse_naive_ics_datetime,
    requested_zone, LocalClock,
};

fn at(seconds: i64) -> UtcTime {
    UtcTime { seconds, nanos: 0 }
}

fn utc(text: &str) -> UtcTime {
    let naive = chrono::NaiveDateTime::parse_from_str(text, "%Y-%m-%d %H:%M:%S").unwrap();
    at(naive.and_utc().timestamp())
}

fn shown(t: UtcTime) -> String {
    let t = chrono::DateTime::from_timestamp(t.seconds, t.nanos).unwrap();
    t.format("%Y-%m-%d %H:%M:%S").to_string()
}

fn class(start: UtcTime, end: UtcTime) -> CalendarEvent {
    CalendarEvent {
        calendar_index: 0,
        calendar_name: "Student".to_owned(),
        summary: "NEWM-N 115".to_owned(),
        location: "ICTC 270".to_owned(),
        start,
        end,
    }
}

fn calendar(body: &str) -> String {
    format!("BEGIN:VCALENDAR\nBEGIN:VEVENT\n{}\nEND:VEVENT\nEND:VCALENDAR\n", body)
}

fn expanded(start_value: &str, minutes: i64, rule: &str) -> Vec<String> {
    let mut clock = LocalClock::new();
    let property = "DTSTART;TZID=America/New_York";
    let start = parse_ics_datetime(property, start_value, &mut clock).unwrap();
    let event = class(start, at(start.seconds + minutes * 60));
    let events = expand_weekly_event(event, property, start_value, rule, &mut clock).unwrap();
    events
        .iter()
        .map(|event| {
            assert_eq!(event.end.seconds - event.start.seconds, minutes * 60);
            assert_eq!(event.summary, "NEWM-N 115");
            shown(event.start)
        })
        .collect()
}

#[test]
fn parses_folded_text_and_timezone_dates() {
    let ics = "BEGIN:VCALENDAR\r\nBEGIN:VEVENT\r\nSUMMARY:Operating Sys\r\n tems\r\nLOCATION:Jordan Hall\\, 101\r\nDTSTART;TZID=America/Indiana/Indianapolis:20900825T100000\r\nDTEND;TZID=America/Indiana/Indianapolis:20900825T111500\r\nEND:VEVENT\r\nEND:VCALENDAR\r\n";
    let events = parse_ics(ics).expect("calendar should parse");

    assert_eq!(events.len(), 1);
    assert_eq!(events[0].summary, "Operating Systems");
    assert_eq!(events[0].location, "Jordan Hall, 101");
    assert_eq!(events[0].end.seconds - events[0].start.seconds, 75 * 60);
    assert_eq!(events[0].end.nanos, events[0].start.nanos);
}

#[test]
fn parses_utc_dates() {
    let mut clock = LocalClock::new();
    let parsed = parse_ics_datetime("DTSTART", "20900102T030405Z", &mut clock).unwrap();
    assert_eq!(shown(parsed), "2090-01-02 03:04:05");
}

#[test]
fn expands_weekly_rule_using_byday() {
    let mut clock = LocalClock::new();
    let start_property = "DTSTART;TZID=EDT;VALUE=DATE-TIME";
    let start_value = "20260824T120000";
    let start = parse_ics_datetime(start_property, start_value, &mut clock).unwrap();
    let event = class(start, at(start.seconds + 75 * 60));

    let events = expand_weekly_event(
        event,
        start_property,
        start_value,
        "FREQ=WEEKLY;INTERVAL=1;BYDAY=TU;UNTIL=20260902T235959",
        &mut clock,
    )
    .unwrap();

    assert_eq!(events.len(), 2);
    assert!(events.iter().all(|event| {
        chrono::DateTime::from_timestamp(event.start.seconds, event.start.nanos)
            .unwrap()
            .with_timezone(&chrono_tz::America::New_York)
            .weekday()
            == chrono::Weekday::Tue
    }));
    assert_eq!(shown(events[0].start), "2026-08-25 16:00:00");
    assert_eq!(shown(events[1].start), "2026-09-01 16:00:00");
}

#[test]
fn every_second_week_and_a_count() {
    assert_eq!(
        expanded("20260824T120000", 75, "FREQ=WEEKLY;INTERVAL=2;BYDAY=MO,WE;COUNT=4"),
        ["2026-08-24 16:00:00", "2026-08-26 16:00:00", "2026-09-07 16:00:00", "2026-09-09 16:00:00"]
    );
}

#[test]
fn weeks_of_a_rule_start_on_monday() {
    // The first event is on a Wednesday: the Monday two weeks on belongs to the rule's next week.
    assert_eq!(
        expanded("20260826T120000", 50, "FREQ=WEEKLY;INTERVAL=2;BYDAY=MO,WE;COUNT=3"),
        ["2026-08-26 16:00:00", "2026-09-07 16:00:00", "2026-09-09 16:00:00"]
    );
}

#[test]
fn a_rule_without_days_keeps_the_first_weekday() {
    assert_eq!(
        expanded("20260827T083000", 50, "FREQ=WEEKLY;COUNT=2"),
        ["2026-08-27 12:30:00", "2026-09-03 12:30:00"]
    );
}

#[test]
fn a_rule_follows_the_clocks_of_its_zone() {
    // The clocks are set back on the first of November 2026.
    assert_eq!(
        expanded("20261026T090000", 50, "FREQ=WEEKLY;COUNT=2"),
        ["2026-10-26 13:00:00", "2026-11-02 14:00:00"]
    );
}

#[test]
fn a_rule_has_no_event_at_a_time_that_the_clocks_skip() {
    assert_eq!(
        expanded("20260301T023000", 50, "FREQ=WEEKLY;COUNT=2"),
        ["2026-03-01 07:30:00", "2026-03-15 06:30:00"]
    );
}

#[test]
fn a_rule_without_events_leaves_the_first_one() {
    assert_eq!(expanded("20260824T120000", 75, "FREQ=WEEKLY;COUNT=0"), ["2026-08-24 16:00:00"]);
    assert_eq!(expanded("20260824T120000", 75, "FREQ=WEEKLY;BYDAY=XX"), ["2026-08-24 16:00:00"]);
    assert_eq!(
        expanded("20260824T120000", 75, "FREQ=WEEKLY;UNTIL=20260101T000000Z"),
        ["2026-08-24 16:00:00"]
    );
}

#[test]
fn rules_that_are_not_weekly_are_not_followed() {
    assert_eq!(expanded("20260824T120000", 75, "FREQ=DAILY;COUNT=9"), ["2026-08-24 16:00:00"]);
    assert_eq!(expanded("20260824T120000", 75, "COUNT=9"), ["2026-08-24 16:00:00"]);
    // The last of two values counts.
    assert_eq!(
        expanded("20260824T120000", 75, "FREQ=WEEKLY;FREQ=DAILY;COUNT=9"),
        ["2026-08-24 16:00:00"]
    );
}

#[test]
fn a_rule_is_followed_for_five_years() {
    let starts = expanded("20260824T120000", 75, "FREQ=WEEKLY");
    assert_eq!(starts.len(), 262);
    assert_eq!(starts[261], "2031-08-25 16:00:00");
    let daily = expanded("20260824T120000", 75, "FREQ=WEEKLY;BYDAY=MO,TU,WE,TH,FR,SA,SU");
    assert_eq!(daily.len(), 1831);
}

#[test]
fn odd_numbers_in_a_rule_are_passed_over() {
    assert_eq!(
        expanded("20260824T120000", 75, "FREQ=WEEKLY;INTERVAL=0;COUNT=2"),
        ["2026-08-24 16:00:00", "2026-08-31 16:00:00"]
    );
    assert_eq!(
        expanded("20260824T120000", 75, "FREQ=WEEKLY;INTERVAL=x;COUNT=+2"),
        ["2026-08-24 16:00:00", "2026-08-31 16:00:00"]
    );
    assert_eq!(
        expanded("20260824T120000", 75, "FREQ=WEEKLY;COUNT=-2;UNTIL=20260831"),
        ["2026-08-24 16:00:00"]
    );
}

#[test]
fn names_weekdays() {
    assert_eq!(parse_weekday("MO"), Some(Weekday::Mon));
    assert_eq!(parse_weekday("TU"), Some(Weekday::Tue));
    assert_eq!(parse_weekday("WE"), Some(Weekday::Wed));
    assert_eq!(parse_weekday("TH"), Some(Weekday::Thu));
    assert_eq!(parse_weekday("FR"), Some(Weekday::Fri));
    assert_eq!(parse_weekday("SA"), Some(Weekday::Sat));
    assert_eq!(parse_weekday("-1SU"), Some(Weekday::Sun));
    assert_eq!(parse_weekday("+2MO"), Some(Weekday::Mon));
    assert_eq!(parse_weekday("mo"), None);
    assert_eq!(parse_weekday(""), None);
}

#[test]
fn a_rule_beyond_the_representable_dates_is_not_followed() {
    let event = class(at(0), at(60));
    let rule = read_weekly_rule("FREQ=WEEKLY;COUNT=1").unwrap();
    let mut follow = |day: i32| {
        let base = CivilTime { day, second: 43_200, nano: 0 };
        let mut clock = LocalClock::new();
        let property = "DTSTART;TZID=America/New_York";
        weekly_occurrences(&event, property, base, &rule, None, &mut clock)
    };
    assert!(follow(MAX_DAY).is_none());
    assert!(follow(MAX_DAY - 1_829).is_none());
    assert_eq!(follow(MAX_DAY - 1_830).unwrap().len(), 1);
    // The first representable day is not a Monday, and the rule's week would start before it.
    assert!(weekday_of(MIN_DAY) != Weekday::Mon);
    assert!(follow(MIN_DAY).is_none());
    assert_eq!(follow(MIN_DAY + 7).unwrap().len(), 1);
}

#[test]
fn zones_go_by_several_names() {
    for (name, zone) in [
        ("EDT", "America/New_York"),
        ("EST", "America/New_York"),
        ("US/Eastern", "America/New_York"),
        ("CDT", "America/Chicago"),
        ("CST", "America/Chicago"),
        ("US/Central", "America/Chicago"),
        ("MDT", "America/Denver"),
        ("MST", "America/Denver"),
        ("US/Mountain", "America/Denver"),
        ("PDT", "America/Los_Angeles"),
        ("PST", "America/Los_Angeles"),
        ("US/Pacific", "America/Los_Angeles"),
        ("Europe/Paris", "Europe/Paris"),
        ("\"Europe/Paris\"", "Europe/Paris"),
    ] {
        let property = format!("DTSTART;VALUE=DATE-TIME;TZID={}", name);
        assert_eq!(requested_zone(&property).as_deref(), Some(zone));
    }
    assert_eq!(requested_zone("DTSTART;VALUE=DATE-TIME"), None);
    assert_eq!(requested_zone("TZID=Europe/Paris"), None);
}

#[test]
fn a_zone_decides_what_its_clocks_show() {
    let mut clock = LocalClock::new();
    let property = "DTSTART;TZID=America/New_York";
    let mut read = |value: &str| parse_ics_datetime(property, value, &mut clock).map(shown);
    assert_eq!(read("20260115T120000").as_deref(), Some("2026-01-15 17:00:00"));
    assert_eq!(read("20260715T1200").as_deref(), Some("2026-07-15 16:00:00"));
    // Shown twice, and skipped.
    assert_eq!(read("20261101T013000").as_deref(), Some("2026-11-01 05:30:00"));
    assert_eq!(read("20260308T023000"), None);
    assert_eq!(read("noon"), None);
    assert_eq!(read("20261301T013000"), None);
}

#[test]
fn the_machine_is_asked_for_times_without_a_zone() {
    let civil = parse_naive_ics_datetime("20260824T120000").unwrap();
    let answer = at(civil.as_utc().seconds + 3_600);
    let mut clock = LocalClock::new().knowing(civil, LocalTimes::Single(answer));
    assert_eq!(parse_ics_datetime("DTSTART", "20260824T120000", &mut clock), Some(answer));
    assert_eq!(
        parse_ics_datetime("DTSTART;TZID=Nowhere", "20260824T120000", &mut clock),
        Some(answer)
    );
    assert_eq!(localize_ics_datetime("DTSTART;TZID=", civil, &mut clock), Some(answer));
    assert_eq!(local_to_utc(civil, &mut clock), Some(answer));

    let midnight = CivilTime { day: civil.day, second: 0, nano: 0 };
    let mut clock = LocalClock::new().knowing(midnight, LocalTimes::Skipped);
    assert_eq!(parse_ics_datetime("DTSTART;VALUE=DATE", "20260824", &mut clock), None);
}

#[test]
fn the_machine_answers_as_chrono_does() {
    let mut clock = LocalClock::new();
    for month in 1..=12 {
        let text = format!("2026{:02}15T093000", month);
        let naive = chrono::NaiveDateTime::parse_from_str(&text, "%Y%m%dT%H%M%S").unwrap();
        let wanted = match chrono::TimeZone::from_local_datetime(&chrono::Local, &naive) {
            chrono::LocalResult::Single(t) => Some(at(t.timestamp())),
            chrono::LocalResult::Ambiguous(t, _) => Some(at(t.timestamp())),
            chrono::LocalResult::None => None,
        };
        assert_eq!(parse_ics_datetime("DTSTART", &text, &mut clock), wanted);
        // Asked again, it gives the same answer.
        assert_eq!(parse_ics_datetime("DTSTART", &text, &mut clock), wanted);
    }
}

#[test]
fn undoes_escapes() {
    assert_eq!(unescape_ics("a\\, b\\; c"), "a, b; c");
    assert_eq!(unescape_ics("one\\ntwo\\Nthree"), "one · two · three");
    assert_eq!(unescape_ics("back\\\\slash"), "back\\slash");
    assert_eq!(unescape_ics("plain · text"), "plain · text");
    assert_eq!(unescape_ics(""), "");
    // Backslashes, semicolons and commas read back from their escapes.
    for text in ["a,b;c", "back\\slash, and; more\\", "\\\\,;\\", ";\\x,"] {
        let escaped: String = text
            .chars()
            .map(|c| if ",;\\".contains(c) { format!("\\{}", c) } else { c.to_string() })
            .collect();
        assert_eq!(unescape_ics(&escaped), text);
    }
    assert_eq!(unescape_ics("a\\\\nb"), "a\\ · b");
}

#[test]
fn reads_the_records_of_a_file() {
    let records = read_records(
        "SUMMARY:Outside\nBEGIN:VEVENT\nSUMMARY:Long\n er\n\t name\nDTSTART;TZID=EST:20260824T120000\nno colon\nRRULE:FREQ=WEEKLY\nX-OTHER:1\nEND:VEVENT\nEND:VEVENT\nBEGIN:VEVENT\nLOCATION;LANGUAGE=en:Hall\nDTEND:20260824\n",
    );
    assert_eq!(records.len(), 1);
    assert_eq!(records[0].summary, "Longer name");
    assert_eq!(records[0].location, "");
    assert_eq!(
        records[0].start,
        Some(("DTSTART;TZID=EST".to_owned(), "20260824T120000".to_owned()))
    );
    assert_eq!(records[0].end, None);
    assert_eq!(records[0].recurrence, "FREQ=WEEKLY");
}

#[test]
fn a_new_event_starts_afresh() {
    let records = read_records(
        "BEGIN:VEVENT\r\nSUMMARY:First\r\nBEGIN:VEVENT\r\nLOCATION:Second\r\nEND:VEVENT\r\n",
    );
    assert_eq!(records.len(), 1);
    assert_eq!(records[0].summary, "");
    assert_eq!(records[0].location, "Second");
}

#[test]
fn folded_lines_read_like_whole_ones() {
    let whole = "BEGIN:VEVENT\nSUMMARY:Linear Algebra\nEND:VEVENT";
    let folded = "BEGIN:VE\n VENT\nSUMMARY:Lin\n ear \n\tAlgebra\nEND:VEVENT";
    assert_eq!(read_records(whole)[0].summary, read_records(folded)[0].summary);
}

#[test]
fn an_event_without_summary_gets_one() {
    let body = "DTSTART:20900102T090000Z\nDTEND:20900102T100000Z";
    let events = parse_ics(&calendar(body)).unwrap();
    assert_eq!(events[0].summary, "Untitled class");
    assert_eq!(events[0].location, "");
    assert_eq!(events[0].calendar_index, 0);
    assert_eq!(events[0].calendar_name, "");
}

#[test]
fn events_that_do_not_end_after_their_start_are_left_out() {
    let message = "No current or upcoming timed events found in this calendar";
    for body in [
        "DTSTART:20900102T090000Z\nDTEND:20900102T090000Z",
        "DTSTART:20900102T090000Z\nDTEND:20900102T080000Z",
        "DTSTART:20900102T090000Z",
        "DTEND:20900102T090000Z",
        "DTSTART:nonsense\nDTEND:20900102T090000Z",
    ] {
        assert_eq!(parse_ics(&calendar(body)).unwrap_err(), message);
    }
    assert_eq!(parse_ics("").unwrap_err(), message);
}

#[test]
fn shows_a_week_of_history_in_order() {
    let now = utc("2026-08-24 12:00:00");
    let mut clock = LocalClock::new();
    let input = "BEGIN:VEVENT\nSUMMARY:Later\nDTSTART:20260825T090000Z\nDTEND:20260825T100000Z\nEND:VEVENT\nBEGIN:VEVENT\nSUMMARY:Old\nDTSTART:20260817T100000Z\nDTEND:20260817T115959Z\nEND:VEVENT\nBEGIN:VEVENT\nSUMMARY:Edge\nDTSTART:20260817T110000Z\nDTEND:20260817T120000Z\nEND:VEVENT\nBEGIN:VEVENT\nSUMMARY:Same\nDTSTART:20260825T090000Z\nDTEND:20260825T093000Z\nEND:VEVENT\n";
    let events = parse_ics_at(input, now, &mut clock).unwrap();
    let summaries: Vec<&str> = events.iter().map(|event| event.summary.as_str()).collect();
    assert_eq!(summaries, ["Edge", "Later", "Same"]);

    let all = events_of_records(&read_records(input), &mut clock).unwrap();
    assert_eq!(all.len(), 4);
    let later = utc("2026-09-02 12:00:00");
    assert!(show_events(all, later).is_err());
}

#[test]
fn recurring_events_are_shown_too() {
    let now = utc("2026-08-24 12:00:00");
    let mut clock = LocalClock::new();
    let input = calendar(
        "SUMMARY:Weekly\nDTSTART:20260803T090000Z\nDTEND:20260803T100000Z\nRRULE:FREQ=WEEKLY;COUNT=5",
    );
    // A time in UTC recurs at the wall-clock time of the machine.
    for week in 0..5 {
        let day = parse_naive_ics_datetime("20260803T090000").unwrap().day + 7 * week;
        let civil = CivilTime { day, second: 32_400, nano: 0 };
        clock = clock.knowing(civil, LocalTimes::Single(civil.as_utc()));
    }
    let events = parse_ics_at(&input, now, &mut clock).unwrap();
    let starts: Vec<String> = events.iter().map(|event| shown(event.start)).collect();
    assert_eq!(starts, ["2026-08-24 09:00:00", "2026-08-31 09:00:00"]);
}

#[test]
fn times_in_a_named_zone_do_not_ask_the_machine() {
    let civil = parse_naive_ics_datetime("20260824T120000").unwrap();
    let (one, other) = (civil.as_utc(), at(civil.as_utc().seconds + 7_200));
    for times in [LocalTimes::Skipped, LocalTimes::Single(one), LocalTimes::Twice(other, one)] {
        let mut clock = LocalClock::new().knowing(civil, times);
        let mut read = |property: &str, value: &str| {
            parse_ics_datetime(property, value, &mut clock).map(shown)
        };
        assert_eq!(read("DTSTART", "20260824T120000Z").as_deref(), Some("2026-08-24 12:00:00"));
        assert_eq!(
            read("DTSTART;TZID=Asia/Tokyo", "20260824T120000").as_deref(),
            Some("2026-08-24 03:00:00")
        );
        assert_eq!(read("DTSTART", "20260824T120000"), times.first().map(shown));
    }
}

#[test]
fn joined_files_show_the_events_of_both() {
    let now = utc("2026-08-24 12:00:00");
    let record = |summary: &str, start: &str, end: &str| {
        format!(
            "BEGIN:VEVENT\r\nSUMMARY:{}\r\nDTSTART:{}\r\nDTEND:{}\r\nEND:VEVENT\n",
            summary, start, end
        )
    };
    let late = record("Late", "20260826T090000Z", "20260826T100000Z");
    let early = record("Early", "20260825T090000Z", "20260825T100000Z");
    let same = record("Same", "20260826T090000Z", "20260826T093000Z");
    let broken = record("Broken", "nonsense", "20260826T100000Z");
    let old = record("Old", "20200826T090000Z", "20200826T100000Z");
    let files = [
        late.clone(),
        format!("{}{}", early, same),
        broken,
        old,
        format!("{}{}", same, late),
    ];
    let mut clock = LocalClock::new();
    let mut show = |input: &str| {
        let events = parse_ics_at(input, now, &mut clock).unwrap_or_default();
        events.into_iter().map(|e| (e.start.seconds, e.summary)).collect::<Vec<_>>()
    };
    for a in &files {
        for b in &files {
            let mut both = show(a);
            both.extend(show(b));
            both.sort_by_key(|event| event.0);
            assert_eq!(show(&format!("{}{}", a, b)), both);
        }
    }
}

#[test]
fn every_event_ends_after_its_start() {
    let now = utc("2026-08-24 12:00:00");
    let mut clock = LocalClock::new();
    let input = calendar(
        "DTSTART;TZID=EST:20260824T233000\nDTEND;TZID=EST:20260825T003000\nRRULE:FREQ=WEEKLY",
    );
    let events = parse_ics_at(&input, now, &mut clock).unwrap();
    assert_eq!(events.len(), 262);
    assert!(events.iter().all(|e| e.end.seconds == e.start.seconds + 3_600));
}

#[test]
fn a_smaller_count_yields_the_first_events() {
    for rule in [
        "FREQ=WEEKLY",
        "FREQ=WEEKLY;BYDAY=MO,WE,FR;INTERVAL=2",
        "FREQ=WEEKLY;COUNT=7;UNTIL=20260930T000000Z",
        "FREQ=WEEKLY;BYDAY=XX",
        "FREQ=DAILY",
        "",
    ] {
        let counted =
            |n: usize| expanded("20260824T120000", 75, &format!("{};COUNT={}", rule, n));
        for many in [1, 2, 3, 10, 300] {
            let more = counted(many);
            assert!(more.len() <= many);
            for few in 1..=many.min(12) {
                let less = counted(few);
                assert_eq!(less.len(), few.min(more.len()));
                assert_eq!(less[..], more[..less.len()]);
            }
        }
    }
}
