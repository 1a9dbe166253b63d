//! Points in time, wall-clock times and the spans between them.
//!
//! The calendar reckons with a date's number of days since the first of January of the year one
//! and with a time's number of seconds since the Unix epoch. What only `chrono` can say about
//! them stands behind the trusted functions at the end of this file.
use vstd::prelude::*;

verus! {

/// The number of the first day that `chrono` can represent.
pub const MIN_DAY: i32 = -95_746_129;

/// The number of the last day that `chrono` can represent.
pub const MAX_DAY: i32 = 95_745_399;

/// The number of the first of January 1970, counted from the first of January of the year one,
/// which is day one.
pub const UNIX_EPOCH_DAY: i32 = 719_163;

/// The first second of the first day.
pub const MIN_SECONDS: i64 = -8_334_601_228_800;

/// The last second of the last day.
pub const MAX_SECONDS: i64 = 8_210_266_876_799;

pub const SECONDS_PER_DAY: i64 = 86_400;

/// The nanoseconds of a second; a leap second counts on from here.
pub const NANOS_PER_SECOND: u32 = 1_000_000_000;

pub const NANOS_PER_MILLISECOND: i128 = 1_000_000;

pub const NANOS_PER_MINUTE: i128 = 60_000_000_000;

/// A point in time: seconds since the Unix epoch and nanoseconds within that second. During a
/// leap second the nanoseconds go on from one thousand million.
#[derive(Clone, Copy, Debug, PartialEq, Eq, Structural)]
pub struct UtcTime {
    pub seconds: i64,
    pub nanos: u32,
}

/// A date and a time of day as a clock on a wall shows them.
#[derive(Clone, Copy, Debug, PartialEq, Eq, Structural)]
pub struct CivilTime {
    pub day: i32,
    pub second: u32,
    pub nano: u32,
}

/// A length of time: whole seconds and the nanoseconds left over, both of the same sign.
#[derive(Clone, Copy, Debug, PartialEq, Eq, Structural)]
pub struct Span {
    pub seconds: i64,
    pub nanos: i32,
}

#[derive(Clone, Copy, Debug, PartialEq, Eq, Structural)]
pub enum Weekday {
    Mon,
    Tue,
    Wed,
    Thu,
    Fri,
    Sat,
    Sun,
}

/// The points in time at which the clocks of a place show a given wall-clock time.
#[derive(Clone, Copy, Debug, PartialEq, Eq, Structural)]
pub enum LocalTimes {
    /// The clocks skip that time.
    Skipped,
    Single(UtcTime),
    /// The clocks show that time twice.
    Twice(UtcTime, UtcTime),
}

impl UtcTime {
    pub open spec fn valid(self) -> bool {
        MIN_SECONDS <= self.seconds <= MAX_SECONDS && self.nanos < 2 * NANOS_PER_SECOND
    }

    /// Whether this point lies outside every leap second.
    pub open spec fn ordinary(self) -> bool {
        self.nanos < NANOS_PER_SECOND
    }

    pub open spec fn total(self) -> int {
        self.seconds * NANOS_PER_SECOND + self.nanos
    }

    pub open spec fn precedes(self, other: UtcTime) -> bool {
        self.seconds < other.seconds || (self.seconds == other.seconds && self.nanos < other.nanos)
    }

    /// Whether this point lies before the other.
    pub fn before(&self, other: &UtcTime) -> (r: bool)
        ensures
            r == self.precedes(*other),
    {
        self.seconds < other.seconds || (self.seconds == other.seconds && self.nanos < other.nanos)
    }
}

impl Span {
    /// A span reaches as far as a signed 64-bit number of milliseconds does, the least excepted.
    pub open spec fn valid(self) -> bool {
        &&& -NANOS_PER_SECOND < self.nanos < NANOS_PER_SECOND
        &&& self.seconds > 0 ==> self.nanos >= 0
        &&& self.seconds < 0 ==> self.nanos <= 0
        &&& -(i64::MAX * NANOS_PER_MILLISECOND) <= self.total() <= i64::MAX * NANOS_PER_MILLISECOND
    }

    pub open spec fn total(self) -> int {
        self.seconds * NANOS_PER_SECOND + self.nanos
    }

    /// The whole number of times that `unit` nanoseconds fit, a part left over being dropped.
    pub open spec fn whole(self, unit: int) -> int {
        if self.total() >= 0 {
            self.total() / unit
        } else {
            -((-self.total()) / unit)
        }
    }

    fn whole_units(&self, unit: i128) -> (r: i64)
        requires
            self.valid(),
            NANOS_PER_MILLISECOND <= unit <= NANOS_PER_MINUTE,
        ensures
            r == self.whole(unit as int),
    {
        let total: i128 = self.seconds as i128 * 1_000_000_000 + self.nanos as i128;
        proof {
            lemma_quotient_bound(total as int, unit as int);
        }
        if total >= 0 {
            (total / unit) as i64
        } else {
            (-((-total) / unit)) as i64
        }
    }

    /// The whole milliseconds of this span.
    pub fn milliseconds(&self) -> (r: i64)
        requires
            self.valid(),
        ensures
            r == self.whole(NANOS_PER_MILLISECOND as int),
    {
        self.whole_units(NANOS_PER_MILLISECOND)
    }

    /// The whole minutes of this span.
    pub fn minutes(&self) -> (r: i64)
        requires
            self.valid(),
        ensures
            r == self.whole(NANOS_PER_MINUTE as int),
    {
        self.whole_units(NANOS_PER_MINUTE)
    }
}

proof fn lemma_quotient_bound(total: int, unit: int)
    requires
        NANOS_PER_MILLISECOND <= unit,
        -(i64::MAX * NANOS_PER_MILLISECOND) <= total <= i64::MAX * NANOS_PER_MILLISECOND,
    ensures
        total >= 0 ==> 0 <= total / unit <= i64::MAX,
        total < 0 ==> 0 <= (-total) / unit <= i64::MAX,
{
    let size = if total >= 0 {
        total
    } else {
        -total
    };
    assert(0 <= size / unit <= i64::MAX) by (nonlinear_arith)
        requires
            0 <= size <= i64::MAX * 1_000_000,
            1_000_000 <= unit,
    ;
}

impl CivilTime {
    pub open spec fn valid(self) -> bool {
        MIN_DAY <= self.day <= MAX_DAY && self.second < SECONDS_PER_DAY && self.nano < 2
            * NANOS_PER_SECOND
    }

    /// The seconds since the Unix epoch at which a clock set to UTC shows this time.
    pub open spec fn utc_seconds(self) -> int {
        (self.day - UNIX_EPOCH_DAY) * SECONDS_PER_DAY + self.second
    }

    /// The point in time at which a clock set to UTC shows this time.
    pub open spec fn utc(self) -> UtcTime {
        UtcTime { seconds: self.utc_seconds() as i64, nanos: self.nano }
    }

    /// Reads this time off a clock set to UTC.
    pub fn as_utc(&self) -> (r: UtcTime)
        requires
            self.valid(),
        ensures
            r == self.utc(),
            r.seconds == self.utc_seconds(),
            r.valid(),
    {
        UtcTime {
            seconds: (self.day as i64 - 719_163) * 86_400 + self.second as i64,
            nanos: self.nano,
        }
    }
}

/// The weekday of a date, counted from Monday: the first of January of the year one, day one,
/// is a Monday.
pub open spec fn weekday_number(day: int) -> int {
    (day + 6) % 7
}

impl Weekday {
    pub open spec fn number(self) -> int {
        match self {
            Weekday::Mon => 0,
            Weekday::Tue => 1,
            Weekday::Wed => 2,
            Weekday::Thu => 3,
            Weekday::Fri => 4,
            Weekday::Sat => 5,
            Weekday::Sun => 6,
        }
    }

    pub fn days_from_monday(&self) -> (r: i32)
        ensures
            r == self.number(),
            0 <= r < 7,
    {
        match self {
            Weekday::Mon => 0,
            Weekday::Tue => 1,
            Weekday::Wed => 2,
            Weekday::Thu => 3,
            Weekday::Fri => 4,
            Weekday::Sat => 5,
            Weekday::Sun => 6,
        }
    }
}

/// The weekday of a date.
pub open spec fn weekday(day: int) -> Weekday {
    if weekday_number(day) == 0 {
        Weekday::Mon
    } else if weekday_number(day) == 1 {
        Weekday::Tue
    } else if weekday_number(day) == 2 {
        Weekday::Wed
    } else if weekday_number(day) == 3 {
        Weekday::Thu
    } else if weekday_number(day) == 4 {
        Weekday::Fri
    } else if weekday_number(day) == 5 {
        Weekday::Sat
    } else {
        Weekday::Sun
    }
}

/// The weekday of a date.
pub fn weekday_of(day: i32) -> (r: Weekday)
    ensures
        r == weekday(day as int),
        r.number() == weekday_number(day as int),
{
    let n: i64 = (day as i64 + 3_000_000_002) % 7;
    proof {
        assert((day + 3_000_000_002) % 7 == (day + 6) % 7);
    }
    if n == 0 {
        Weekday::Mon
    } else if n == 1 {
        Weekday::Tue
    } else if n == 2 {
        Weekday::Wed
    } else if n == 3 {
        Weekday::Thu
    } else if n == 4 {
        Weekday::Fri
    } else if n == 5 {
        Weekday::Sat
    } else {
        Weekday::Sun
    }
}

/// Of two points in time outside leap seconds, the one with fewer nanoseconds since the epoch is
/// the earlier one. Of two points within the same second, leap second or not, it is the one with
/// fewer nanoseconds in it.
pub proof fn earlier_times_have_fewer_nanoseconds(one: &UtcTime, other: &UtcTime, r: bool)
    requires
        call_ensures(UtcTime::before, (one, other), r),
    ensures
        one.nanos < 1_000_000_000 && other.nanos < 1_000_000_000 ==> (r <==> one.seconds
            * 1_000_000_000 + one.nanos < other.seconds * 1_000_000_000 + other.nanos),
        one.seconds == other.seconds ==> (r <==> one.nanos < other.nanos),
        one.seconds < other.seconds ==> r,
        other.seconds < one.seconds ==> !r,
{
}

/// The weekdays follow each other: a day with a number that leaves one over when divided by seven
/// is a Monday, the next is a Tuesday, and so on.
pub proof fn weekdays_follow_each_other(day: i32, r: Weekday)
    requires
        call_ensures(weekday_of, (day,), r),
    ensures
        r == Weekday::Mon <==> day as int % 7 == 1,
        r == Weekday::Tue <==> day as int % 7 == 2,
        r == Weekday::Wed <==> day as int % 7 == 3,
        r == Weekday::Thu <==> day as int % 7 == 4,
        r == Weekday::Fri <==> day as int % 7 == 5,
        r == Weekday::Sat <==> day as int % 7 == 6,
        r == Weekday::Sun <==> day as int % 7 == 0,
{
}

/// A weekday lies as many days behind Monday as the days of one week that come before it.
pub proof fn weekdays_count_from_monday(day: i32, weekday: Weekday, r: i32)
    requires
        call_ensures(weekday_of, (day,), weekday),
        call_ensures(Weekday::days_from_monday, (&weekday,), r),
    ensures
        0 <= r <= 6,
        (day - r) % 7 == 1,
{
}

/// On clocks set to UTC a day has 86,400 seconds, each second of it follows the one before, and
/// fractions of a second stay. The first second of 1970 is second zero.
pub proof fn utc_counts_the_seconds_between(
    one: &CivilTime,
    other: &CivilTime,
    first: UtcTime,
    second: UtcTime,
)
    requires
        one.valid(),
        other.valid(),
        call_ensures(CivilTime::as_utc, (one,), first),
        call_ensures(CivilTime::as_utc, (other,), second),
    ensures
        second.seconds - first.seconds == (other.day - one.day) * 86_400 + (other.second
            - one.second),
        first.nanos == one.nano,
        one.day == 719_163 ==> first.seconds == one.second,
{
}

/// The whole milliseconds of a span that does not go back are as many as fit into it: one more
/// would not. Of a span that goes back they are those of the span that goes forward as far.
pub proof fn milliseconds_fit_into_their_span(span: &Span, r: i64)
    requires
        span.valid(),
        call_ensures(Span::milliseconds, (span,), r),
    ensures
        span.seconds >= 0 && span.nanos >= 0 ==> r * 1_000_000 <= span.seconds * 1_000_000_000
            + span.nanos < (r + 1) * 1_000_000,
        span.seconds <= 0 && span.nanos <= 0 ==> (r - 1) * 1_000_000 < span.seconds
            * 1_000_000_000 + span.nanos <= r * 1_000_000,
{
}

/// The whole minutes of a span that does not go back are as many as fit into it: one more would
/// not. Of a span that goes back they are those of the span that goes forward as far.
pub proof fn minutes_fit_into_their_span(span: &Span, r: i64)
    requires
        span.valid(),
        call_ensures(Span::minutes, (span,), r),
    ensures
        span.seconds >= 0 && span.nanos >= 0 ==> r * 60_000_000_000 <= span.seconds * 1_000_000_000
            + span.nanos < (r + 1) * 60_000_000_000,
        span.seconds <= 0 && span.nanos <= 0 ==> (r - 1) * 60_000_000_000 < span.seconds
            * 1_000_000_000 + span.nanos <= r * 60_000_000_000,
{
}

/// Whether a point in time can be the moment at which the clocks of a place show a wall-clock
/// time: a zone's distance from UTC is less than a day, and it leaves fractions of a second alone.
pub open spec fn near(t: UtcTime, civil: CivilTime) -> bool {
    &&& t.valid()
    &&& t.nanos == civil.nano
    &&& -SECONDS_PER_DAY < t.seconds - civil.utc_seconds() < SECONDS_PER_DAY
}

impl LocalTimes {
    pub open spec fn near(self, civil: CivilTime) -> bool {
        match self {
            LocalTimes::Skipped => true,
            LocalTimes::Single(t) => near(t, civil),
            LocalTimes::Twice(first, second) => near(first, civil) && near(second, civil),
        }
    }

    /// The first of the points in time that `chrono` names, if there is one.
    pub open spec fn first_named(self) -> Option<UtcTime> {
        match self {
            LocalTimes::Skipped => None,
            LocalTimes::Single(t) => Some(t),
            LocalTimes::Twice(first, _) => Some(first),
        }
    }

    /// The first of the points in time that `chrono` names, if there is one.
    pub fn first(&self) -> (r: Option<UtcTime>)
        ensures
            r == self.first_named(),
    {
        match self {
            LocalTimes::Skipped => None,
            LocalTimes::Single(t) => Some(*t),
            LocalTimes::Twice(first, _) => Some(*first),
        }
    }
}

/// What `DateTime::signed_duration_since` of `chrono` yields.
pub uninterp spec fn elapsed(later: UtcTime, earlier: UtcTime) -> Span;

/// What `DateTime::checked_add_signed` of `chrono` yields.
pub uninterp spec fn moved(t: UtcTime, span: Span) -> Option<UtcTime>;

/// What `NaiveDateTime::parse_from_str` of `chrono` reads; `None` where it fails.
pub uninterp spec fn datetime_read(text: Seq<char>, format: Seq<char>) -> Option<CivilTime>;

/// What `NaiveDate::parse_from_str` of `chrono` reads; `None` where it fails.
pub uninterp spec fn date_read(text: Seq<char>, format: Seq<char>) -> Option<i32>;

/// `chrono::Utc::now`: the system's clock, read as time since the Unix epoch. Of what it shows,
/// only this is claimed: it is not before the epoch, and never within a leap second.
#[verifier::external_body]
pub(crate) fn utc_now() -> (r: UtcTime)
    ensures
        r.valid(),
        r.ordinary(),
        r.seconds >= 0,
{
    let now = chrono::Utc::now();
    UtcTime { seconds: now.timestamp(), nanos: now.timestamp_subsec_nanos() }
}

/// `DateTime::signed_duration_since` of `chrono`: the span from one point in time to another.
/// Between two points outside leap seconds it is the difference of their nanoseconds.
#[verifier::external_body]
pub(crate) fn time_between(later: UtcTime, earlier: UtcTime) -> (r: Span)
    requires
        later.valid(),
        earlier.valid(),
    ensures
        r == elapsed(later, earlier),
        r.valid(),
        later.ordinary() && earlier.ordinary() ==> r.total() == later.total() - earlier.total(),
{
    let a = chrono::DateTime::from_timestamp(later.seconds, 0).unwrap().naive_utc();
    let b = chrono::DateTime::from_timestamp(earlier.seconds, 0).unwrap().naive_utc();
    let a = chrono::Timelike::with_nanosecond(&a, later.nanos).unwrap().and_utc();
    let b = chrono::Timelike::with_nanosecond(&b, earlier.nanos).unwrap().and_utc();
    let d = a.signed_duration_since(b);
    Span { seconds: d.num_seconds(), nanos: d.subsec_nanos() }
}

/// `DateTime::checked_add_signed` of `chrono`: the point in time that lies a span after another,
/// if `chrono` can represent it. From a point outside leap seconds it is the one whose
/// nanoseconds are the sum.
#[verifier::external_body]
pub(crate) fn time_after(t: UtcTime, span: Span) -> (r: Option<UtcTime>)
    requires
        t.valid(),
        span.valid(),
    ensures
        r == moved(t, span),
        r matches Some(end) ==> end.valid(),
        t.ordinary() ==> (r is Some <==> MIN_SECONDS * NANOS_PER_SECOND <= t.total() + span.total()
            < (MAX_SECONDS + 1) * NANOS_PER_SECOND),
        t.ordinary() ==> (r matches Some(end) ==> end.ordinary() && end.total() == t.total()
            + span.total()),
{
    let start = chrono::DateTime::from_timestamp(t.seconds, 0).unwrap().naive_utc();
    let start = chrono::Timelike::with_nanosecond(&start, t.nanos).unwrap().and_utc();
    let seconds = chrono::TimeDelta::seconds(span.seconds);
    match start.checked_add_signed(seconds + chrono::TimeDelta::nanoseconds(span.nanos as i64)) {
        Some(end) => Some(UtcTime { seconds: end.timestamp(), nanos: end.timestamp_subsec_nanos() }),
        None => None,
    }
}

/// `NaiveDateTime::parse_from_str` of `chrono`: the date and time that a text gives in a format.
/// Which one that is, is left to `chrono`; it is one that `chrono` can represent.
#[verifier::external_body]
pub(crate) fn read_datetime(text: &str, format: &str) -> (r: Option<CivilTime>)
    ensures
        r == datetime_read(text@, format@),
        r matches Some(civil) ==> civil.valid(),
{
    match chrono::NaiveDateTime::parse_from_str(text, format) {
        Ok(naive) => Some(
            CivilTime {
                day: chrono::Datelike::num_days_from_ce(&naive),
                second: chrono::Timelike::num_seconds_from_midnight(&naive),
                nano: chrono::Timelike::nanosecond(&naive),
            },
        ),
        Err(_) => None,
    }
}

/// `NaiveDate::parse_from_str` of `chrono`: the date that a text gives in a format. Which one
/// that is, is left to `chrono`; it is one that `chrono` can represent.
#[verifier::external_body]
pub(crate) fn read_date(text: &str, format: &str) -> (r: Option<i32>)
    ensures
        r == date_read(text@, format@),
        r matches Some(day) ==> MIN_DAY <= day <= MAX_DAY,
{
    match chrono::NaiveDate::parse_from_str(text, format) {
        Ok(date) => Some(chrono::Datelike::num_days_from_ce(&date)),
        Err(_) => None,
    }
}

} // verus!
