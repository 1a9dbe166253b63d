//! How times, dates and lengths of time are written for the user.
use vstd::prelude::*;

use crate::event::{CalendarEvent, EventView};
use crate::local::{self, OffsetClock};
use crate::number;
use crate::text;
use crate::time::{
    self, Span, UtcTime, Weekday, MAX_DAY, MIN_DAY, NANOS_PER_MILLISECOND, NANOS_PER_MINUTE,
    SECONDS_PER_DAY,
};

verus! {

/// A number of milliseconds as a countdown: minutes and seconds, behind the hours if there are any.
pub open spec fn countdown(milliseconds: int) -> Seq<char> {
    let total: int = if milliseconds < 0 {
        0
    } else {
        milliseconds / 1_000
    };
    let hours = (total / 3_600) as nat;
    let minutes = ((total % 3_600) / 60) as nat;
    let seconds = (total % 60) as nat;
    if hours > 0 {
        number::decimal(hours) + seq![':'] + number::two_digits(minutes) + seq![':']
            + number::two_digits(seconds)
    } else {
        number::decimal(minutes) + seq![':'] + number::two_digits(seconds)
    }
}

/// Writes a number of milliseconds as a countdown.
pub fn format_duration(milliseconds: i64) -> (r: String)
    ensures
        r@ == countdown(milliseconds as int),
{
    let total: u64 = if milliseconds < 0 {
        0
    } else {
        milliseconds as u64 / 1_000
    };
    let hours: u64 = total / 3_600;
    let minutes: u64 = (total % 3_600) / 60;
    let seconds: u64 = total % 60;
    let mut out = String::new();
    proof {
        assert(Seq::<char>::empty() + number::decimal(hours as nat) == number::decimal(
            hours as nat,
        ));
        assert(Seq::<char>::empty() + number::decimal(minutes as nat) == number::decimal(
            minutes as nat,
        ));
    }
    if hours > 0 {
        number::push_decimal(&mut out, hours);
        out.push(':');
        number::push_two_digits(&mut out, minutes);
    } else {
        number::push_decimal(&mut out, minutes);
    }
    out.push(':');
    number::push_two_digits(&mut out, seconds);
    proof {
        if hours > 0 {
            assert(out@ == number::decimal(hours as nat) + seq![':'] + number::two_digits(
                minutes as nat,
            ) + seq![':'] + number::two_digits(seconds as nat));
        } else {
            assert(out@ == number::decimal(minutes as nat) + seq![':'] + number::two_digits(
                seconds as nat,
            ));
        }
    }
    out
}

/// A number of minutes in short: hours and minutes from an hour on.
pub open spec fn compact(minutes: int) -> Seq<char> {
    let total: nat = if minutes < 0 {
        0
    } else {
        minutes as nat
    };
    if total >= 60 {
        number::decimal(total / 60) + "h "@ + number::decimal(total % 60) + "m"@
    } else {
        number::decimal(total) + "m"@
    }
}

/// Writes a length of time in short: hours and minutes from an hour on.
pub fn compact_until(duration: Span) -> (r: String)
    requires
        duration.valid(),
    ensures
        r@ == compact(duration.whole(NANOS_PER_MINUTE as int)),
{
    let minutes: i64 = duration.minutes();
    let total: u64 = if minutes < 0 {
        0
    } else {
        minutes as u64
    };
    let mut out = String::new();
    proof {
        assert(forall|s: Seq<char>| #[trigger] (Seq::<char>::empty() + s) == s);
    }
    if total >= 60 {
        number::push_decimal(&mut out, total / 60);
        text::push_text(&mut out, "h ");
        number::push_decimal(&mut out, total % 60);
    } else {
        number::push_decimal(&mut out, total);
    }
    text::push_text(&mut out, "m");
    out
}

/// How long an event lasts and how much of it is left, in milliseconds.
#[derive(Clone, Copy, Debug, PartialEq, Eq, Structural)]
pub struct Progress {
    pub total: i64,
    pub remaining: i64,
}

pub open spec fn at_least(n: int, least: int) -> int {
    if n < least {
        least
    } else {
        n
    }
}

/// How long an event lasts, at least a millisecond.
pub open spec fn total_milliseconds(event: EventView) -> int {
    at_least(time::elapsed(event.end, event.start).whole(NANOS_PER_MILLISECOND as int), 1)
}

/// How much of an event is left.
pub open spec fn remaining_milliseconds(event: EventView, now: UtcTime) -> int {
    at_least(time::elapsed(event.end, now).whole(NANOS_PER_MILLISECOND as int), 0)
}

/// The milliseconds from one point in time to another outside of leap seconds, at least as many
/// as given.
pub open spec fn milliseconds_between(later: UtcTime, earlier: UtcTime, least: int) -> int {
    at_least((later.total() - earlier.total()) / NANOS_PER_MILLISECOND as int, least)
}

/// What is left of an event never grows as time passes; in an event that is in progress no more
/// is left than its length.
pub proof fn what_is_left_never_grows(event: EventView, now: UtcTime, later: UtcTime)
    requires
        event.end.ordinary(),
        now.ordinary(),
        later.ordinary(),
        !later.precedes(now),
    ensures
        0 <= milliseconds_between(event.end, later, 0) <= milliseconds_between(event.end, now, 0),
        event.start.ordinary() && event.current(now) ==> milliseconds_between(event.end, now, 0) <= milliseconds_between(
            event.end,
            event.start,
            1,
        ),
{
    let (end, start) = (event.end.total(), event.start.total());
    assert(now.total() <= later.total());
    assert((end - later.total()) / 1_000_000 <= (end - now.total()) / 1_000_000);
    if event.start.ordinary() && event.current(now) {
        assert(start <= now.total());
        assert((end - now.total()) / 1_000_000 <= (end - start) / 1_000_000);
    }
}

/// How much of an event is over, in milliseconds: what is not left of its length.
pub open spec fn milliseconds_done(event: EventView, now: UtcTime) -> int {
    milliseconds_between(event.end, event.start, 1) - milliseconds_between(event.end, now, 0)
}

/// While an event is in progress, the part of it that is over lies between nothing and its whole
/// length, is what has passed since its start but for a millisecond, and never shrinks as time
/// passes.
pub proof fn what_is_over_follows_the_time(event: EventView, now: UtcTime, later: UtcTime)
    requires
        event.start.ordinary(),
        event.end.ordinary(),
        now.ordinary(),
        later.ordinary(),
        event.current(now),
        !later.precedes(now),
    ensures
        0 <= milliseconds_done(event, now) <= milliseconds_between(event.end, event.start, 1),
        milliseconds_done(event, now) <= milliseconds_done(event, later),
        ({
            let passed = milliseconds_between(now, event.start, 0);
            passed <= milliseconds_done(event, now) <= passed + 1
        }),
{
    what_is_left_never_grows(event, now, later);
    let (end, start, t) = (event.end.total(), event.start.total(), now.total());
    assert(start <= t < end);
    let (whole, left, passed) = (
        (end - start) / 1_000_000,
        (end - t) / 1_000_000,
        (t - start) / 1_000_000,
    );
    assert(left + passed <= whole <= left + passed + 1);
}

/// How long an event lasts and how much of it is left.
pub fn progress(event: &CalendarEvent, now: UtcTime) -> (r: Progress)
    requires
        event@.valid(),
        now.valid(),
    ensures
        r.total == total_milliseconds(event@),
        r.remaining == remaining_milliseconds(event@, now),
        event.start.ordinary() && event.end.ordinary() ==> r.total == milliseconds_between(
            event.end,
            event.start,
            1,
        ),
        event.end.ordinary() && now.ordinary() ==> r.remaining == milliseconds_between(
            event.end,
            now,
            0,
        ),
        event.start.ordinary() && event.end.ordinary() && now.ordinary() && event@.current(now)
            ==> r.remaining <= r.total,
{
    let total: i64 = time::time_between(event.end, event.start).milliseconds();
    let remaining: i64 = time::time_between(event.end, now).milliseconds();
    proof {
        if event.start.ordinary() && event.end.ordinary() && now.ordinary() && event@.current(now) {
            what_is_left_never_grows(event@, now, now);
        }
    }
    Progress {
        total: if total < 1 {
            1
        } else {
            total
        },
        remaining: if remaining < 0 {
            0
        } else {
            remaining
        },
    }
}

/// Writes how much of an event is left, as a countdown.
pub fn time_left(event: &CalendarEvent, now: UtcTime) -> (r: String)
    requires
        event@.valid(),
        now.valid(),
    ensures
        r@ == countdown(remaining_milliseconds(event@, now)),
        event.end.ordinary() && now.ordinary() ==> r@ == countdown(
            milliseconds_between(event.end, now, 0),
        ),
{
    format_duration(progress(event, now).remaining)
}

/// Says how long it is until an event starts.
pub fn starts_in(event: &CalendarEvent, now: UtcTime) -> (r: String)
    requires
        event@.valid(),
        now.valid(),
    ensures
        r@ == "in "@ + compact(
            time::elapsed(event.start, now).whole(NANOS_PER_MINUTE as int),
        ),
        event.start.ordinary() && now.ordinary() && event.start.total() >= now.total() ==> r@
            == "in "@ + compact(
            (event.start.total() - now.total()) / NANOS_PER_MINUTE as int,
        ),
        event.start.ordinary() && now.ordinary() && event.start.total() < now.total() ==> r@
            == "in "@ + compact(0),
{
    let mut out = "in ".to_owned();
    let span = time::time_between(event.start, now);
    proof {
        if event.start.ordinary() && now.ordinary() && event.start.total() < now.total() {
            assert(span.whole(NANOS_PER_MINUTE as int) <= 0);
        }
    }
    text::push_text(&mut out, compact_until(span).as_str());
    out
}

/// Writes where an event takes place, if it says so.
pub fn place(event: &CalendarEvent) -> (r: Option<String>)
    ensures
        match r {
            Some(line) => event@.location.len() > 0 && line@ == "⌖  "@ + event@.location,
            None => event@.location.len() == 0,
        },
{
    if event.location.as_str().is_empty() {
        None
    } else {
        let mut out = "⌖  ".to_owned();
        text::push_text(&mut out, event.location.as_str());
        Some(out)
    }
}

/// The hour and the minute of a second of the day, on a clock with twelve hours.
pub open spec fn twelve_hour(second: int) -> Seq<char> {
    let hour = (second / 3_600 + 11) % 12 + 1;
    number::decimal(hour as nat) + seq![':'] + number::two_digits(((second % 3_600) / 60) as nat)
}

/// Whether a second of the day lies before noon.
pub open spec fn before_noon(second: int) -> bool {
    second < 43_200
}

/// A second of the day as hour, minute and half of the day, such as `9:05 AM`.
pub open spec fn long_clock(second: int) -> Seq<char> {
    twelve_hour(second) + if before_noon(second) {
        " AM"@
    } else {
        " PM"@
    }
}

/// A second of the day as hour, minute and half of the day, such as `9:05am`.
pub open spec fn short_clock(second: int) -> Seq<char> {
    twelve_hour(second) + if before_noon(second) {
        "am"@
    } else {
        "pm"@
    }
}

/// `NaiveTime::format` of `chrono`, written out: a time of day in a format. In the formats that
/// occur here, `%-I` is the hour on a clock with twelve hours, without a leading zero, `%M` the
/// minute in two digits, and `%p` and `%P` the half of the day in capitals and in small print.
#[verifier::external_body]
fn format_clock(second: u32, format: &str) -> (r: String)
    requires
        second < SECONDS_PER_DAY,
        format@ == "%-I:%M %p"@ || format@ == "%-I:%M%P"@ || format@ == "%-I:%M"@,
    ensures
        format@ == "%-I:%M %p"@ ==> r@ == long_clock(second as int),
        format@ == "%-I:%M%P"@ ==> r@ == short_clock(second as int),
        format@ == "%-I:%M"@ ==> r@ == twelve_hour(second as int),
{
    let time = chrono::NaiveTime::from_num_seconds_from_midnight_opt(second, 0).unwrap();
    time.format(format).to_string()
}

/// Writes a second of the day as hour, minute and half of the day, such as `9:05 AM`.
pub fn long_clock_text(second: u32) -> (r: String)
    requires
        second < SECONDS_PER_DAY,
    ensures
        r@ == long_clock(second as int),
{
    format_clock(second, "%-I:%M %p")
}

/// Writes a second of the day as hour, minute and half of the day, such as `9:05am`.
pub fn short_clock_text(second: u32) -> (r: String)
    requires
        second < SECONDS_PER_DAY,
    ensures
        r@ == short_clock(second as int),
{
    format_clock(second, "%-I:%M%P")
}

/// Writes the time that clocks show which are ahead of UTC by a number of seconds, such as
/// `9:05 AM`.
pub fn local_time_at(t: UtcTime, offset: i32) -> (r: String)
    requires
        t.valid(),
        local::is_offset(offset as int),
    ensures
        r@ == long_clock(local::local_second(t, offset as int)),
{
    long_clock_text(local::second_at(t, offset))
}

/// Writes the time that the clocks of the machine show, such as `9:05 AM`.
pub fn local_time(t: UtcTime, clock: &mut OffsetClock) -> (r: String)
    requires
        t.valid(),
        old(clock).valid(),
    ensures
        final(clock).valid(),
        old(clock)@.submap_of(final(clock)@),
        final(clock)@.dom() == old(clock)@.dom().insert(t.seconds),
        r@ == long_clock(local::shown_second(final(clock)@, t)),
{
    let offset: i32 = clock.offset(t);
    local_time_at(t, offset)
}

/// Says when an event ends, as clocks show it which are ahead of UTC by a number of seconds.
pub fn ends_at_offset(event: &CalendarEvent, offset: i32) -> (r: String)
    requires
        event@.valid(),
        local::is_offset(offset as int),
    ensures
        r@ == "ends "@ + long_clock(local::local_second(event.end, offset as int)),
{
    let mut out = "ends ".to_owned();
    text::push_text(&mut out, local_time_at(event.end, offset).as_str());
    out
}

/// Says when an event ends, as the clocks of the machine show it.
pub fn ends_at(event: &CalendarEvent, clock: &mut OffsetClock) -> (r: String)
    requires
        event@.valid(),
        old(clock).valid(),
    ensures
        final(clock).valid(),
        old(clock)@.submap_of(final(clock)@),
        final(clock)@.dom() == old(clock)@.dom().insert(event.end.seconds),
        r@ == "ends "@ + long_clock(local::shown_second(final(clock)@, event.end)),
{
    let offset: i32 = clock.offset(event.end);
    ends_at_offset(event, offset)
}

/// Writes the time that clocks show which are ahead of UTC by a number of seconds, such as
/// `9:05am`.
pub fn short_local_time_at(t: UtcTime, offset: i32) -> (r: String)
    requires
        t.valid(),
        local::is_offset(offset as int),
    ensures
        r@ == short_clock(local::local_second(t, offset as int)),
{
    short_clock_text(local::second_at(t, offset))
}

/// Writes the time that the clocks of the machine show, such as `9:05am`.
pub fn short_local_time(t: UtcTime, clock: &mut OffsetClock) -> (r: String)
    requires
        t.valid(),
        old(clock).valid(),
    ensures
        final(clock).valid(),
        old(clock)@.submap_of(final(clock)@),
        final(clock)@.dom() == old(clock)@.dom().insert(t.seconds),
        r@ == short_clock(local::shown_second(final(clock)@, t)),
{
    let offset: i32 = clock.offset(t);
    short_local_time_at(t, offset)
}

/// Writes when an event takes place, from two seconds of the day, such as `9:05–10:20`.
pub fn card_time(start: u32, end: u32) -> (r: String)
    requires
        start < SECONDS_PER_DAY,
        end < SECONDS_PER_DAY,
    ensures
        r@ == twelve_hour(start as int) + "–"@ + twelve_hour(end as int),
{
    let mut out = format_clock(start, "%-I:%M");
    text::push_text(&mut out, "–");
    text::push_text(&mut out, format_clock(end, "%-I:%M").as_str());
    out
}

/// Writes when an event takes place, as clocks show it which are ahead of UTC by a number of
/// seconds at its start and by another at its end.
pub fn event_time_at(event: &CalendarEvent, start_offset: i32, end_offset: i32) -> (r: String)
    requires
        event@.valid(),
        local::is_offset(start_offset as int),
        local::is_offset(end_offset as int),
    ensures
        r@ == twelve_hour(local::local_second(event.start, start_offset as int)) + "–"@
            + twelve_hour(local::local_second(event.end, end_offset as int)),
{
    card_time(
        local::second_at(event.start, start_offset),
        local::second_at(event.end, end_offset),
    )
}

/// Writes when an event takes place, as the clocks of the machine show it.
pub fn event_time(event: &CalendarEvent, clock: &mut OffsetClock) -> (r: String)
    requires
        event@.valid(),
        old(clock).valid(),
    ensures
        final(clock).valid(),
        old(clock)@.submap_of(final(clock)@),
        final(clock)@.dom() == old(clock)@.dom().insert(event.start.seconds).insert(
            event.end.seconds,
        ),
        r@ == twelve_hour(local::shown_second(final(clock)@, event.start)) + "–"@ + twelve_hour(
            local::shown_second(final(clock)@, event.end),
        ),
{
    let start_offset: i32 = clock.offset(event.start);
    let ghost before = clock@;
    let end_offset: i32 = clock.offset(event.end);
    proof {
        local::lemma_more_offsets(old(clock)@, before, clock@);
        local::lemma_answers_stay(before, clock@, event.start);
    }
    event_time_at(event, start_offset, end_offset)
}

/// Writes a range of time, from two seconds of the day, such as `9:05am – 10:20am`.
pub fn range_time(from: u32, to: u32) -> (r: String)
    requires
        from < SECONDS_PER_DAY,
        to < SECONDS_PER_DAY,
    ensures
        r@ == short_clock(from as int) + " – "@ + short_clock(to as int),
{
    let mut out = short_clock_text(from);
    text::push_text(&mut out, " – ");
    text::push_text(&mut out, short_clock_text(to).as_str());
    out
}

/// Writes a range of time as clocks show it which are ahead of UTC by a number of seconds at its
/// start and by another at its end.
pub fn local_range_at(from: UtcTime, to: UtcTime, from_offset: i32, to_offset: i32) -> (r: String)
    requires
        from.valid(),
        to.valid(),
        local::is_offset(from_offset as int),
        local::is_offset(to_offset as int),
    ensures
        r@ == short_clock(local::local_second(from, from_offset as int)) + " – "@ + short_clock(
            local::local_second(to, to_offset as int),
        ),
{
    range_time(local::second_at(from, from_offset), local::second_at(to, to_offset))
}

/// Writes a range of time as the clocks of the machine show it.
pub fn local_range(from: UtcTime, to: UtcTime, clock: &mut OffsetClock) -> (r: String)
    requires
        from.valid(),
        to.valid(),
        old(clock).valid(),
    ensures
        final(clock).valid(),
        old(clock)@.submap_of(final(clock)@),
        final(clock)@.dom() == old(clock)@.dom().insert(from.seconds).insert(to.seconds),
        r@ == short_clock(local::shown_second(final(clock)@, from)) + " – "@ + short_clock(
            local::shown_second(final(clock)@, to),
        ),
{
    let from_offset: i32 = clock.offset(from);
    let ghost before = clock@;
    let to_offset: i32 = clock.offset(to);
    proof {
        local::lemma_more_offsets(old(clock)@, before, clock@);
        local::lemma_answers_stay(before, clock@, from);
    }
    local_range_at(from, to, from_offset, to_offset)
}

/// The short name of a weekday.
pub open spec fn weekday_name(weekday: Weekday) -> Seq<char> {
    match weekday {
        Weekday::Mon => "Mon"@,
        Weekday::Tue => "Tue"@,
        Weekday::Wed => "Wed"@,
        Weekday::Thu => "Thu"@,
        Weekday::Fri => "Fri"@,
        Weekday::Sat => "Sat"@,
        Weekday::Sun => "Sun"@,
    }
}

/// What `NaiveDate::format` of `chrono` writes.
pub uninterp spec fn date_text(day: i32, format: Seq<char>) -> Seq<char>;

/// `NaiveDate::format` of `chrono`, written out: a date in a format. Which month and which day of
/// the month a date falls on is left to `chrono`; `%a` alone is the short name of the weekday.
#[verifier::external_body]
fn format_date(day: i32, format: &str) -> (r: String)
    requires
        MIN_DAY <= day <= MAX_DAY,
        format@ == "%A, %B %-d"@ || format@ == "%b %-d"@ || format@ == "%a"@,
    ensures
        r@ == date_text(day, format@),
        format@ == "%a"@ ==> r@ == weekday_name(time::weekday(day as int)),
{
    let date = chrono::NaiveDate::from_num_days_from_ce_opt(day).unwrap();
    date.format(format).to_string()
}

/// What `Datelike::day` of `chrono` yields.
pub uninterp spec fn day_of_month(day: i32) -> u32;

/// `Datelike::day` of `chrono`: the day of the month that a date falls on, counted from one.
#[verifier::external_body]
fn month_day(day: i32) -> (r: u32)
    requires
        MIN_DAY <= day <= MAX_DAY,
    ensures
        r == day_of_month(day),
        1 <= r <= 31,
{
    chrono::Datelike::day(&chrono::NaiveDate::from_num_days_from_ce_opt(day).unwrap())
}

/// Writes a date with its weekday, month and day of the month.
pub fn long_date(day: i32) -> (r: String)
    requires
        MIN_DAY <= day <= MAX_DAY,
    ensures
        r@ == date_text(day, "%A, %B %-d"@),
{
    format_date(day, "%A, %B %-d")
}

/// Writes the first and the last day of a school week.
pub fn week_range(monday: i32) -> (r: String)
    requires
        MIN_DAY <= monday,
        monday + 4 <= MAX_DAY,
    ensures
        r@ == date_text(monday, "%b %-d"@) + " – "@ + date_text(
            (monday + 4) as i32,
            "%b %-d"@,
        ),
{
    let mut out = format_date(monday, "%b %-d");
    text::push_text(&mut out, " – ");
    text::push_text(&mut out, format_date(monday + 4, "%b %-d").as_str());
    out
}

pub open spec fn ascii_capital(c: char) -> char {
    if 'a' <= c <= 'z' {
        ((c as u32 - 32) as u32) as char
    } else {
        c
    }
}

/// The short name of a weekday in capitals.
pub open spec fn weekday_capitals(weekday: Weekday) -> Seq<char> {
    Seq::new(weekday_name(weekday).len(), |i: int| ascii_capital(weekday_name(weekday)[i]))
}

/// Writes the short name of a date's weekday in capitals.
pub fn weekday_heading(day: i32) -> (r: String)
    requires
        MIN_DAY <= day <= MAX_DAY,
    ensures
        r@ == weekday_capitals(time::weekday(day as int)),
{
    let name = text::to_chars(format_date(day, "%a").as_str());
    let ghost wanted = weekday_capitals(time::weekday(day as int));
    let mut out = String::new();
    let mut i: usize = 0;
    while i < name.len()
        invariant
            i <= name@.len(),
            name@ == weekday_name(time::weekday(day as int)),
            wanted == weekday_capitals(time::weekday(day as int)),
            out@ == wanted.take(i as int),
        decreases name@.len() - i,
    {
        let c = name[i];
        if 'a' <= c && c <= 'z' {
            out.push((c as u8 - 32) as char);
        } else {
            out.push(c);
        }
        proof {
            assert(wanted.take(i + 1) == wanted.take(i as int).push(ascii_capital(c)));
        }
        i += 1;
    }
    proof {
        assert(wanted.take(i as int) == wanted);
    }
    out
}

/// Writes the day of the month that a date falls on.
pub fn day_number(day: i32) -> (r: String)
    requires
        MIN_DAY <= day <= MAX_DAY,
    ensures
        r@ == number::decimal(day_of_month(day) as nat),
{
    let mut out = String::new();
    let number: u32 = month_day(day);
    number::push_decimal(&mut out, number as u64);
    proof {
        assert(Seq::<char>::empty() + number::decimal(number as nat) == number::decimal(
            number as nat,
        ));
    }
    out
}

/// What the dashboard says while no class is in progress.
#[derive(Debug)]
pub struct FreeTime {
    pub title: String,
    pub subtitle: String,
}

/// What the dashboard says while no class is in progress: the next class and when it starts, if
/// there is one.
pub fn free_time(next: Option<(&CalendarEvent, &str)>) -> (r: FreeTime)
    ensures
        match next {
            Some((event, start)) => {
                &&& r.title@ == "You’re between classes"@
                &&& r.subtitle@ == "Next up: "@ + event@.summary + " at "@ + start@
            },
            None => {
                &&& r.title@ == "You’re all clear"@
                &&& r.subtitle@ == "No more upcoming classes were found."@
            },
        },
{
    match next {
        Some((event, start)) => {
            let mut subtitle = "Next up: ".to_owned();
            text::push_text(&mut subtitle, event.summary.as_str());
            text::push_text(&mut subtitle, " at ");
            text::push_text(&mut subtitle, start);
            FreeTime { title: "You’re between classes".to_owned(), subtitle }
        },
        None => FreeTime {
            title: "You’re all clear".to_owned(),
            subtitle: "No more upcoming classes were found.".to_owned(),
        },
    }
}

/// What the dashboard says while no class is in progress, with the time at which the next class
/// starts on clocks that are then ahead of UTC by a number of seconds.
pub fn free_time_at(next: Option<(&CalendarEvent, i32)>) -> (r: FreeTime)
    requires
        next matches Some((event, offset)) ==> event@.valid() && local::is_offset(offset as int),
    ensures
        match next {
            Some((event, offset)) => {
                &&& r.title@ == "You’re between classes"@
                &&& r.subtitle@ == "Next up: "@ + event@.summary + " at "@ + long_clock(
                    local::local_second(event.start, offset as int),
                )
            },
            None => {
                &&& r.title@ == "You’re all clear"@
                &&& r.subtitle@ == "No more upcoming classes were found."@
            },
        },
{
    match next {
        Some((event, offset)) => {
            let start = local_time_at(event.start, offset);
            free_time(Some((event, start.as_str())))
        },
        None => free_time(None),
    }
}

/// What the dashboard says while no class is in progress, with the time at which the clocks of the
/// machine show the next class to start.
pub fn free_time_now(next: Option<&CalendarEvent>, clock: &mut OffsetClock) -> (r: FreeTime)
    requires
        next matches Some(event) ==> event@.valid(),
        old(clock).valid(),
    ensures
        final(clock).valid(),
        old(clock)@.submap_of(final(clock)@),
        match next {
            Some(event) => {
                &&& final(clock)@.dom() == old(clock)@.dom().insert(event.start.seconds)
                &&& r.title@ == "You’re between classes"@
                &&& r.subtitle@ == "Next up: "@ + event@.summary + " at "@ + long_clock(
                    local::shown_second(final(clock)@, event.start),
                )
            },
            None => {
                &&& final(clock)@ == old(clock)@
                &&& r.title@ == "You’re all clear"@
                &&& r.subtitle@ == "No more upcoming classes were found."@
            },
        },
{
    match next {
        Some(event) => {
            let offset: i32 = clock.offset(event.start);
            free_time_at(Some((event, offset)))
        },
        None => free_time_at(None),
    }
}

/// What stands above the next class.
pub fn next_heading(in_class: bool) -> (r: String)
    ensures
        r@ == (if in_class {
            "UP NEXT"@
        } else {
            "NEXT CLASS"@
        }),
{
    if in_class {
        "UP NEXT".to_owned()
    } else {
        "NEXT CLASS".to_owned()
    }
}

/// Two digits that stand for a number below sixty.
pub open spec fn digit_pair(n: int) -> Seq<char> {
    seq![(48 + n / 10) as char, (48 + n % 10) as char]
}

proof fn lemma_two_digits(n: nat)
    requires
        n < 60,
    ensures
        number::two_digits(n) == digit_pair(n as int),
{
    if n >= 10 {
        assert(number::decimal(n) == number::decimal(n / 10).push(number::digit(n % 10)));
        assert(number::decimal(n / 10) == seq![number::digit(n / 10)]);
        assert(number::two_digits(n) == digit_pair(n as int));
    }
}

/// The countdown of some hours, minutes and seconds, and of less than a second more, writes these:
/// the minutes and seconds in two digits each behind the hours, or the seconds alone in two digits
/// if there are no hours.
pub open spec fn counted_down(hours: nat, minutes: nat, seconds: nat) -> Seq<char> {
    if hours > 0 {
        number::decimal(hours) + seq![':'] + digit_pair(minutes as int) + seq![':'] + digit_pair(
            seconds as int,
        )
    } else {
        number::decimal(minutes) + seq![':'] + digit_pair(seconds as int)
    }
}

proof fn lemma_countdown(milliseconds: int, hours: nat, minutes: nat, seconds: nat)
    requires
        minutes < 60,
        seconds < 60,
        (hours * 3_600 + minutes * 60 + seconds) * 1_000 <= milliseconds < (hours * 3_600 + minutes
            * 60 + seconds + 1) * 1_000,
    ensures
        countdown(milliseconds) == counted_down(hours, minutes, seconds),
{
    let total = milliseconds / 1_000;
    assert(total == hours * 3_600 + minutes * 60 + seconds);
    assert(total / 3_600 == hours);
    assert(total % 3_600 == minutes * 60 + seconds);
    assert(total % 60 == seconds);
    lemma_two_digits(minutes);
    lemma_two_digits(seconds);
}

/// A countdown shows the hours, minutes and whole seconds that are left, and no time at all once
/// they are over.
pub proof fn countdowns_show_hours_minutes_and_seconds(
    milliseconds: i64,
    r: String,
    hours: nat,
    minutes: nat,
    seconds: nat,
)
    requires
        call_ensures(format_duration, (milliseconds,), r),
        minutes < 60,
        seconds < 60,
    ensures
        (hours * 3_600 + minutes * 60 + seconds) * 1_000 <= milliseconds < (hours * 3_600 + minutes
            * 60 + seconds + 1) * 1_000 ==> r@ == counted_down(hours, minutes, seconds),
        milliseconds < 0 ==> r@ == seq!['0', ':', '0', '0'],
{
    if (hours * 3_600 + minutes * 60 + seconds) * 1_000 <= milliseconds < (hours * 3_600 + minutes
        * 60 + seconds + 1) * 1_000 {
        lemma_countdown(milliseconds as int, hours, minutes, seconds);
    }
    if milliseconds < 0 {
        lemma_countdown(0, 0, 0, 0);
        assert(number::decimal(0) == seq!['0']);
        assert(counted_down(0, 0, 0) == seq!['0', ':', '0', '0']);
    }
}

proof fn lemma_compact(total: int, hours: nat, minutes: nat)
    requires
        minutes < 60,
        total == hours * 60 + minutes,
    ensures
        hours > 0 ==> compact(total) == number::decimal(hours) + "h "@ + number::decimal(minutes)
            + "m"@,
        hours == 0 ==> compact(total) == number::decimal(minutes) + "m"@,
{
    assert(total / 60 == hours);
    assert(total % 60 == minutes);
}

/// A length of time in short shows its whole hours and minutes, the hours only if there are any,
/// and no minutes if it goes back.
pub proof fn short_lengths_show_hours_and_minutes(
    duration: Span,
    r: String,
    hours: nat,
    minutes: nat,
)
    requires
        duration.valid(),
        call_ensures(compact_until, (duration,), r),
        minutes < 60,
    ensures
        duration.nanos >= 0 && (hours * 60 + minutes) * 60 <= duration.seconds < (hours * 60
            + minutes + 1) * 60 ==> {
            &&& hours > 0 ==> r@ == number::decimal(hours) + "h "@ + number::decimal(minutes) + "m"@
            &&& hours == 0 ==> r@ == number::decimal(minutes) + "m"@
        },
        duration.seconds < 0 ==> r@ == number::decimal(0) + "m"@,
{
    if duration.nanos >= 0 && (hours * 60 + minutes) * 60 <= duration.seconds < (hours * 60
        + minutes + 1) * 60 {
        assert(duration.total() / 60_000_000_000 == hours * 60 + minutes);
        lemma_compact((hours * 60 + minutes) as int, hours, minutes);
    }
    if duration.seconds < 0 {
        assert(duration.total() < 0);
        assert(duration.whole(NANOS_PER_MINUTE as int) <= 0);
        lemma_compact(0, 0, 0);
    }
}

/// The length of an event and what is left of it are counted in whole milliseconds from one point
/// in time to the other: as many as fit. An event lasts at least one, and nothing is left of one
/// that is over.
pub proof fn progress_counts_milliseconds(event: &CalendarEvent, now: UtcTime, r: Progress)
    requires
        event@.valid(),
        now.valid(),
        call_ensures(progress, (event, now), r),
        event.start.nanos < 1_000_000_000,
        event.end.nanos < 1_000_000_000,
        now.nanos < 1_000_000_000,
    ensures
        ({
            let length = (event.end.seconds - event.start.seconds) * 1_000_000_000 + (
            event.end.nanos - event.start.nanos);
            let left = (event.end.seconds - now.seconds) * 1_000_000_000 + (event.end.nanos
                - now.nanos);
            &&& length >= 1_000_000 ==> r.total * 1_000_000 <= length < (r.total + 1) * 1_000_000
            &&& length < 1_000_000 ==> r.total == 1
            &&& left >= 0 ==> r.remaining * 1_000_000 <= left < (r.remaining + 1) * 1_000_000
            &&& left < 0 ==> r.remaining == 0
        }),
{
}

/// What is left of an event is shown as a countdown of the hours, minutes and whole seconds up to
/// its end.
pub proof fn time_left_counts_down_to_the_end(
    event: &CalendarEvent,
    now: UtcTime,
    r: String,
    hours: nat,
    minutes: nat,
    seconds: nat,
)
    requires
        event@.valid(),
        now.valid(),
        call_ensures(time_left, (event, now), r),
        event.end.nanos < 1_000_000_000,
        now.nanos < 1_000_000_000,
        minutes < 60,
        seconds < 60,
        ({
            let left = (event.end.seconds - now.seconds) * 1_000_000_000 + (event.end.nanos
                - now.nanos);
            let shown = hours * 3_600 + minutes * 60 + seconds;
            shown * 1_000_000_000 <= left < (shown + 1) * 1_000_000_000
        }),
    ensures
        r@ == counted_down(hours, minutes, seconds),
{
    let left = (event.end.seconds - now.seconds) * 1_000_000_000 + (event.end.nanos - now.nanos);
    assert(event.end.total() - now.total() == left);
    lemma_countdown(left / 1_000_000, hours, minutes, seconds);
}

/// How long it is until an event starts is told in the hours and whole minutes up to its start.
pub proof fn starts_are_told_in_hours_and_minutes(
    event: &CalendarEvent,
    now: UtcTime,
    r: String,
    hours: nat,
    minutes: nat,
)
    requires
        event@.valid(),
        now.valid(),
        call_ensures(starts_in, (event, now), r),
        event.start.nanos < 1_000_000_000,
        now.nanos < 1_000_000_000,
        minutes < 60,
        ({
            let wait = (event.start.seconds - now.seconds) * 1_000_000_000 + (event.start.nanos
                - now.nanos);
            let shown = hours * 60 + minutes;
            shown * 60_000_000_000 <= wait < (shown + 1) * 60_000_000_000
        }),
    ensures
        hours > 0 ==> r@ == "in "@ + (number::decimal(hours) + "h "@ + number::decimal(minutes)
            + "m"@),
        hours == 0 ==> r@ == "in "@ + (number::decimal(minutes) + "m"@),
{
    let wait = (event.start.seconds - now.seconds) * 1_000_000_000 + (event.start.nanos
        - now.nanos);
    assert(event.start.total() - now.total() == wait);
    assert(wait / 60_000_000_000 == hours * 60 + minutes);
    lemma_compact((hours * 60 + minutes) as int, hours, minutes);
}

/// A time of day on a clock with twelve hours: the hours of each half of the day are counted from
/// twelve, over one, to eleven.
pub open spec fn clock_face(hour: nat, minute: nat) -> Seq<char> {
    number::decimal(if hour % 12 == 0 {
        12
    } else {
        hour % 12
    }) + seq![':'] + digit_pair(minute as int)
}

proof fn lemma_clock_face(second: int, hour: nat, minute: nat)
    requires
        hour < 24,
        minute < 60,
        hour * 3_600 + minute * 60 <= second < hour * 3_600 + minute * 60 + 60,
    ensures
        twelve_hour(second) == clock_face(hour, minute),
        before_noon(second) <==> hour < 12,
{
    assert(second / 3_600 == hour);
    assert((second % 3_600) / 60 == minute);
    lemma_two_digits(minute);
}

/// A second of the day is shown by the hour and the minute it falls in, in the first half of the
/// day before noon and in the second from noon on.
pub proof fn clocks_show_hours_and_minutes(
    second: u32,
    long: String,
    short: String,
    hour: nat,
    minute: nat,
)
    requires
        call_ensures(long_clock_text, (second,), long),
        call_ensures(short_clock_text, (second,), short),
        hour < 24,
        minute < 60,
        hour * 3_600 + minute * 60 <= second < hour * 3_600 + minute * 60 + 60,
    ensures
        hour < 12 ==> long@ == clock_face(hour, minute) + " AM"@,
        hour >= 12 ==> long@ == clock_face(hour, minute) + " PM"@,
        hour < 12 ==> short@ == clock_face(hour, minute) + "am"@,
        hour >= 12 ==> short@ == clock_face(hour, minute) + "pm"@,
{
    lemma_clock_face(second as int, hour, minute);
}

/// The time that clocks show which are ahead of UTC is that of the seconds since the epoch with
/// their distance added, whatever the day.
pub proof fn local_clocks_are_ahead_by_their_offset(
    t: UtcTime,
    offset: i32,
    long: String,
    short: String,
    day: int,
    hour: nat,
    minute: nat,
)
    requires
        t.valid(),
        local::is_offset(offset as int),
        call_ensures(local_time_at, (t, offset), long),
        call_ensures(short_local_time_at, (t, offset), short),
        hour < 24,
        minute < 60,
        day * 86_400 + hour * 3_600 + minute * 60 <= t.seconds + offset < day * 86_400 + hour
            * 3_600 + minute * 60 + 60,
    ensures
        hour < 12 ==> long@ == clock_face(hour, minute) + " AM"@,
        hour >= 12 ==> long@ == clock_face(hour, minute) + " PM"@,
        hour < 12 ==> short@ == clock_face(hour, minute) + "am"@,
        hour >= 12 ==> short@ == clock_face(hour, minute) + "pm"@,
{
    let second = t.seconds + offset - day * 86_400;
    lemma_second_of_day(t.seconds + offset, day, second);
    lemma_clock_face(second, hour, minute);
}

proof fn lemma_second_of_day(seconds: int, day: int, second: int)
    requires
        seconds == day * 86_400 + second,
        0 <= second < 86_400,
    ensures
        seconds % 86_400 == second,
{
}

/// A card shows the time of day of an event's start and that of its end, each by the distance of
/// the clocks from UTC at that time, and a note says when it ends.
pub proof fn cards_show_start_and_end(
    event: &CalendarEvent,
    start_offset: i32,
    end_offset: i32,
    card: String,
    note: String,
    range: String,
    start: u32,
    end: u32,
)
    requires
        event@.valid(),
        local::is_offset(start_offset as int),
        local::is_offset(end_offset as int),
        call_ensures(event_time_at, (event, start_offset, end_offset), card),
        call_ensures(ends_at_offset, (event, end_offset), note),
        call_ensures(
            local_range_at,
            (event.start, event.end, start_offset, end_offset),
            range,
        ),
        start < 86_400,
        end < 86_400,
        (event.start.seconds + start_offset - start) % 86_400 == 0,
        (event.end.seconds + end_offset - end) % 86_400 == 0,
    ensures
        card@ == twelve_hour(start as int) + "–"@ + twelve_hour(end as int),
        note@ == "ends "@ + long_clock(end as int),
        range@ == short_clock(start as int) + " – "@ + short_clock(end as int),
{
    assert((event.start.seconds + start_offset) % 86_400 == start);
    assert((event.end.seconds + end_offset) % 86_400 == end);
}

/// The heading of a date is its weekday: that of the first of January of the year one, day one, is
/// a Monday.
pub proof fn headings_name_the_weekday(day: i32, r: String)
    requires
        MIN_DAY <= day <= MAX_DAY,
        call_ensures(weekday_heading, (day,), r),
    ensures
        day as int % 7 == 1 ==> r@ == seq!['M', 'O', 'N'],
        day as int % 7 == 2 ==> r@ == seq!['T', 'U', 'E'],
        day as int % 7 == 3 ==> r@ == seq!['W', 'E', 'D'],
        day as int % 7 == 4 ==> r@ == seq!['T', 'H', 'U'],
        day as int % 7 == 5 ==> r@ == seq!['F', 'R', 'I'],
        day as int % 7 == 6 ==> r@ == seq!['S', 'A', 'T'],
        day as int % 7 == 0 ==> r@ == seq!['S', 'U', 'N'],
{
    reveal_strlit("Mon");
    reveal_strlit("Tue");
    reveal_strlit("Wed");
    reveal_strlit("Thu");
    reveal_strlit("Fri");
    reveal_strlit("Sat");
    reveal_strlit("Sun");
    assert(weekday_capitals(Weekday::Mon) == seq!['M', 'O', 'N']);
    assert(weekday_capitals(Weekday::Tue) == seq!['T', 'U', 'E']);
    assert(weekday_capitals(Weekday::Wed) == seq!['W', 'E', 'D']);
    assert(weekday_capitals(Weekday::Thu) == seq!['T', 'H', 'U']);
    assert(weekday_capitals(Weekday::Fri) == seq!['F', 'R', 'I']);
    assert(weekday_capitals(Weekday::Sat) == seq!['S', 'A', 'T']);
    assert(weekday_capitals(Weekday::Sun) == seq!['S', 'U', 'N']);
}

/// A card and a range show their two times of day in the order in which they are given, the card
/// without the half of the day and the range with it.
pub proof fn times_of_day_are_shown_in_their_order(
    first: u32,
    second: u32,
    card: String,
    range: String,
    hour: nat,
    minute: nat,
    other_hour: nat,
    other_minute: nat,
)
    requires
        call_ensures(card_time, (first, second), card),
        call_ensures(range_time, (first, second), range),
        hour < 12,
        12 <= other_hour < 24,
        minute < 60,
        other_minute < 60,
        hour * 3_600 + minute * 60 <= first < hour * 3_600 + minute * 60 + 60,
        other_hour * 3_600 + other_minute * 60 <= second < other_hour * 3_600 + other_minute * 60
            + 60,
    ensures
        card@ == clock_face(hour, minute) + "–"@ + clock_face(other_hour, other_minute),
        range@ == clock_face(hour, minute) + "am"@ + " – "@ + (clock_face(other_hour, other_minute)
            + "pm"@),
{
    lemma_clock_face(first as int, hour, minute);
    lemma_clock_face(second as int, other_hour, other_minute);
}

/// A place is written only for an event that has one, and all of it stands at the end of what is
/// written.
pub proof fn places_are_written_out(event: &CalendarEvent, r: Option<String>)
    requires
        call_ensures(place, (event,), r),
    ensures
        r is Some <==> event.location@.len() > 0,
        r matches Some(line) ==> line@.len() > event.location@.len() && line@.skip(
            line@.len() - event.location@.len(),
        ) == event.location@,
{
    reveal_strlit("⌖  ");
    if let Some(line) = r {
        assert(event@.location == event.location@);
        assert(line@.skip(line@.len() - event.location@.len()) == event.location@);
    }
}

/// The range of a school week ends four days after it starts, and its days are written alike.
pub proof fn school_weeks_reach_from_monday_to_friday(monday: i32, friday: i32, r: String)
    requires
        call_ensures(week_range, (monday,), r),
        friday == monday + 4,
    ensures
        r@ == date_text(monday, "%b %-d"@) + " – "@ + date_text(friday, "%b %-d"@),
{
}

/// While no class is in progress, the next one is named with the time at which it starts on the
/// clocks of the place. Without a next one that is said instead.
pub proof fn free_time_tells_of_the_next_class(
    event: &CalendarEvent,
    offset: i32,
    next: FreeTime,
    nothing: FreeTime,
    start: u32,
)
    requires
        event@.valid(),
        local::is_offset(offset as int),
        call_ensures(free_time_at, (Some((event, offset)),), next),
        call_ensures(free_time_at, (None,), nothing),
        start < 86_400,
        (event.start.seconds + offset - start) % 86_400 == 0,
    ensures
        next.title@ == "You’re between classes"@,
        next.subtitle@ == "Next up: "@ + event.summary@ + " at "@ + long_clock(start as int),
        nothing.title@ == "You’re all clear"@,
        nothing.subtitle@ == "No more upcoming classes were found."@,
{
    assert((event.start.seconds + offset) % 86_400 == start);
    assert(event@.summary == event.summary@);
}

/// The heading above the next class tells whether another one is in progress.
pub proof fn headings_tell_whether_a_class_is_in_progress(during: String, between: String)
    requires
        call_ensures(next_heading, (true,), during),
        call_ensures(next_heading, (false,), between),
    ensures
        during@ == "UP NEXT"@,
        between@ == "NEXT CLASS"@,
{
}

} // verus!
