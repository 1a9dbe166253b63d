//! From the date values of a calendar file to points in time.
//!
//! A value is given in UTC, in a named time zone, or as the clock of this machine shows it. What
//! the machine's clock says is no function of the value, so it is kept in a [`LocalClock`]: the
//! conversions are stated for whatever it answered.
use vstd::prelude::*;
use vstd::slice::slice_subrange;

use crate::text::{self, CharClass};
use crate::time::{self, CivilTime, LocalTimes, UtcTime};

verus! {

/// What the clocks of a place answered: for each wall-clock time that was asked, the points in
/// time at which they show it.
pub type Zone = Map<CivilTime, LocalTimes>;

/// The answers that the machine's clock gave, each wall-clock time being asked only once.
pub struct LocalClock {
    answers: Vec<(CivilTime, LocalTimes)>,
}

spec fn recorded(answers: Seq<(CivilTime, LocalTimes)>) -> Zone
    decreases answers.len(),
{
    if answers.len() == 0 {
        Map::empty()
    } else {
        recorded(answers.drop_last()).insert(answers.last().0, answers.last().1)
    }
}

impl View for LocalClock {
    type V = Zone;

    closed spec fn view(&self) -> Zone {
        recorded(self.answers@)
    }
}

/// Whether each answer lies within a day of the time that was asked for.
pub open spec fn plausible(zone: Zone) -> bool {
    forall|civil: CivilTime| #[trigger]
        zone.dom().contains(civil) ==> zone[civil].near(civil)
}

/// The first of the points in time that were answered for a wall-clock time, `None` if there is
/// none.
pub open spec fn answer(zone: Zone, civil: CivilTime) -> Option<UtcTime> {
    if zone.dom().contains(civil) {
        zone[civil].first_named()
    } else {
        None
    }
}

/// What one clock answered, a clock that answered more answered too.
pub(crate) proof fn lemma_more_answers(few: Zone, more: Zone, most: Zone)
    requires
        few.submap_of(more),
        more.submap_of(most),
    ensures
        few.submap_of(most),
{
    assert forall|civil: CivilTime| #[trigger] few.dom().contains(civil) implies most.dom().contains(
        civil,
    ) && few[civil] == most[civil] by {
        assert(more.dom().contains(civil));
        assert(most.dom().contains(civil));
    }
}

impl LocalClock {
    pub open spec fn valid(self) -> bool {
        plausible(self@)
    }

    /// A clock that has not been asked yet.
    pub fn new() -> (r: LocalClock)
        ensures
            r.valid(),
            r@ == Map::<CivilTime, LocalTimes>::empty(),
    {
        LocalClock { answers: Vec::new() }
    }

    /// A clock that has given one more answer. A later answer for the same time replaces it.
    pub fn knowing(self, civil: CivilTime, times: LocalTimes) -> (r: LocalClock)
        requires
            self.valid(),
            times.near(civil),
        ensures
            r.valid(),
            r@ == self@.insert(civil, times),
    {
        let mut answers = self.answers;
        answers.push((civil, times));
        let r = LocalClock { answers };
        proof {
            assert(r.answers@.drop_last() == self.answers@);
        }
        r
    }

    fn find(&self, civil: &CivilTime) -> (r: Option<LocalTimes>)
        ensures
            match r {
                Some(times) => self@.dom().contains(*civil) && self@[*civil] == times,
                None => !self@.dom().contains(*civil),
            },
    {
        let mut n: usize = self.answers.len();
        let ghost all = self.answers@;
        proof {
            assert(all.take(n as int) == all);
        }
        while n > 0
            invariant
                all == self.answers@,
                n <= all.len(),
                self@.dom().contains(*civil) == recorded(all.take(n as int)).dom().contains(*civil),
                self@.dom().contains(*civil) ==> self@[*civil] == recorded(
                    all.take(n as int),
                )[*civil],
            decreases n,
        {
            proof {
                assert(all.take(n as int).drop_last() == all.take(n - 1));
            }
            if self.answers[n - 1].0 == *civil {
                return Some(self.answers[n - 1].1);
            }
            n -= 1;
        }
        None
    }
}

/// What `Tz::from_str` of `chrono_tz` accepts.
pub uninterp spec fn zone_known(name: Seq<char>) -> bool;

/// What `TimeZone::from_local_datetime` of `chrono` yields in a zone of `chrono_tz`.
pub uninterp spec fn zone_times(name: Seq<char>, civil: CivilTime) -> LocalTimes;

/// `Tz::from_str` of `chrono_tz`: whether a name is that of a time zone. Which names are, is left
/// to the database of `chrono_tz`.
#[verifier::external_body]
pub(crate) fn is_zone(name: &str) -> (r: bool)
    ensures
        r == zone_known(name@),
{
    name.parse::<chrono_tz::Tz>().is_ok()
}

/// `TimeZone::from_local_datetime` of `chrono`, in the zone of `chrono_tz` with the given name:
/// the points in time at which the clocks there show a wall-clock time. Which points these are,
/// is left to the database of `chrono_tz`; they lie within a day of that time in UTC, at the same
/// fraction of a second.
#[verifier::external_body]
pub(crate) fn times_in_zone(name: &str, civil: CivilTime) -> (r: LocalTimes)
    requires
        zone_known(name@),
        civil.valid(),
    ensures
        r == zone_times(name@, civil),
        r.near(civil),
{
    let zone = name.parse::<chrono_tz::Tz>().unwrap();
    let date = chrono::NaiveDate::from_num_days_from_ce_opt(civil.day).unwrap();
    let time = chrono::NaiveTime::from_num_seconds_from_midnight_opt(civil.second, 0).unwrap();
    let time = chrono::Timelike::with_nanosecond(&time, civil.nano).unwrap();
    match chrono::TimeZone::from_local_datetime(&zone, &date.and_time(time)) {
        chrono::LocalResult::None => LocalTimes::Skipped,
        chrono::LocalResult::Single(t) => LocalTimes::Single(
            UtcTime { seconds: t.timestamp(), nanos: t.timestamp_subsec_nanos() },
        ),
        chrono::LocalResult::Ambiguous(a, b) => LocalTimes::Twice(
            UtcTime { seconds: a.timestamp(), nanos: a.timestamp_subsec_nanos() },
            UtcTime { seconds: b.timestamp(), nanos: b.timestamp_subsec_nanos() },
        ),
    }
}

/// `TimeZone::from_local_datetime` of `chrono`, in the time zone of this machine: the points in
/// time at which its clock shows a wall-clock time. They depend on how the machine is set up;
/// claimed is only that they lie within a day of that time in UTC, at the same fraction of a
/// second.
#[verifier::external_body]
pub(crate) fn times_on_machine(civil: CivilTime) -> (r: LocalTimes)
    requires
        civil.valid(),
    ensures
        r.near(civil),
{
    let date = chrono::NaiveDate::from_num_days_from_ce_opt(civil.day).unwrap();
    let time = chrono::NaiveTime::from_num_seconds_from_midnight_opt(civil.second, 0).unwrap();
    let time = chrono::Timelike::with_nanosecond(&time, civil.nano).unwrap();
    match chrono::TimeZone::from_local_datetime(&chrono::Local, &date.and_time(time)) {
        chrono::LocalResult::None => LocalTimes::Skipped,
        chrono::LocalResult::Single(t) => LocalTimes::Single(
            UtcTime { seconds: t.timestamp(), nanos: t.timestamp_subsec_nanos() },
        ),
        chrono::LocalResult::Ambiguous(a, b) => LocalTimes::Twice(
            UtcTime { seconds: a.timestamp(), nanos: a.timestamp_subsec_nanos() },
            UtcTime { seconds: b.timestamp(), nanos: b.timestamp_subsec_nanos() },
        ),
    }
}

/// The point in time at which the machine's clock shows a wall-clock time, `None` if the clock
/// skips it. If the clock shows it twice, it is the first that `chrono` names.
pub fn local_to_utc(naive: CivilTime, clock: &mut LocalClock) -> (r: Option<UtcTime>)
    requires
        naive.valid(),
        old(clock).valid(),
    ensures
        final(clock).valid(),
        final(clock)@ == (if old(clock)@.dom().contains(naive) {
            old(clock)@
        } else {
            old(clock)@.insert(naive, final(clock)@[naive])
        }),
        final(clock)@.dom().contains(naive),
        r == final(clock)@[naive].first_named(),
        r matches Some(t) ==> time::near(t, naive),
{
    match clock.find(&naive) {
        Some(times) => times.first(),
        None => {
            let times = times_on_machine(naive);
            let ghost before = clock.answers@;
            clock.answers.push((naive, times));
            proof {
                assert(clock.answers@.drop_last() == before);
            }
            times.first()
        },
    }
}

/// The zone that the parameters of a property name, as it stands after `TZID=`.
pub open spec fn zone_parameter(parameters: Seq<Seq<char>>) -> Option<Seq<char>>
    decreases parameters.len(),
{
    if parameters.len() == 0 {
        None
    } else if text::starts_with(parameters[0], "TZID="@) {
        Some(parameters[0].skip("TZID="@.len() as int))
    } else {
        zone_parameter(parameters.drop_first())
    }
}

/// The name in the time zone database for a name that calendars use.
pub open spec fn zone_alias(name: Seq<char>) -> Seq<char> {
    if name == "EDT"@ || name == "EST"@ || name == "US/Eastern"@ {
        "America/New_York"@
    } else if name == "CDT"@ || name == "CST"@ || name == "US/Central"@ {
        "America/Chicago"@
    } else if name == "MDT"@ || name == "MST"@ || name == "US/Mountain"@ {
        "America/Denver"@
    } else if name == "PDT"@ || name == "PST"@ || name == "US/Pacific"@ {
        "America/Los_Angeles"@
    } else {
        name
    }
}

/// The name of the time zone that a property asks for, quotation marks left off.
pub open spec fn zone_name(property: Seq<char>) -> Option<Seq<char>> {
    match zone_parameter(text::split(property, ';').drop_first()) {
        Some(name) => Some(zone_alias(text::drop_around(name, CharClass::Only('"')))),
        None => None,
    }
}

/// The point in time that a wall-clock time stands for: in the zone that the property names, if
/// there is such a zone, and on the machine's clock otherwise.
pub open spec fn localized(property: Seq<char>, naive: CivilTime, zone: Zone) -> Option<UtcTime> {
    match zone_name(property) {
        Some(name) => if zone_known(name) {
            zone_times(name, naive).first_named()
        } else {
            answer(zone, naive)
        },
        None => answer(zone, naive),
    }
}

/// The forms that a date value has.
pub enum ValueForm {
    /// Eight bytes: a date, which stands for its first moment on the machine's clock.
    Date,
    /// Ends in `Z`: a time in UTC.
    Utc,
    /// Anything else: a wall-clock time.
    WallClock,
}

pub open spec fn value_form(value: Seq<char>) -> ValueForm {
    if vstd::utf8::encode_utf8(value).len() == 8 {
        ValueForm::Date
    } else if value.len() > 0 && value.last() == 'Z' {
        ValueForm::Utc
    } else {
        ValueForm::WallClock
    }
}

/// The wall-clock time in a value, with seconds or without, whatever `Z` stands at its end.
pub open spec fn naive_read(value: Seq<char>) -> Option<CivilTime> {
    let digits = text::drop_trailing(value, CharClass::Only('Z'));
    match time::datetime_read(digits, "%Y%m%dT%H%M%S"@) {
        Some(civil) => Some(civil),
        None => time::datetime_read(digits, "%Y%m%dT%H%M"@),
    }
}

/// The first moment of a day.
pub open spec fn midnight(day: i32) -> CivilTime {
    CivilTime { day, second: 0, nano: 0 }
}

/// The date and time that a value spells out.
pub open spec fn value_read(value: Seq<char>) -> Option<CivilTime> {
    match value_form(value) {
        ValueForm::Date => match time::date_read(value, "%Y%m%d"@) {
            Some(day) => Some(midnight(day)),
            None => None,
        },
        ValueForm::Utc => time::datetime_read(value, "%Y%m%dT%H%M%SZ"@),
        ValueForm::WallClock => naive_read(value),
    }
}

/// The point in time that a value stands for, given the date and time it spells out.
pub open spec fn placed(
    property: Seq<char>,
    value: Seq<char>,
    civil: CivilTime,
    zone: Zone,
) -> Option<UtcTime> {
    match value_form(value) {
        ValueForm::Date => answer(zone, civil),
        ValueForm::Utc => Some(civil.utc()),
        ValueForm::WallClock => localized(property, civil, zone),
    }
}

/// The point in time that a date property of a calendar file stands for.
pub open spec fn ics_time(property: Seq<char>, value: Seq<char>, zone: Zone) -> Option<UtcTime> {
    match value_read(value) {
        Some(civil) => placed(property, value, civil, zone),
        None => None,
    }
}

/// A time in UTC, and one in a zone that is known by its name, do not depend on the machine.
pub proof fn named_zones_do_not_ask_the_machine(
    property: Seq<char>,
    value: Seq<char>,
    one: Zone,
    other: Zone,
)
    requires
        value_form(value) == ValueForm::Utc || (value_form(value) == ValueForm::WallClock
            && zone_name(property) is Some && zone_known(zone_name(property).unwrap())),
    ensures
        ics_time(property, value, one) == ics_time(property, value, other),
{
}

fn find_zone_parameter(parameters: &Vec<Vec<char>>) -> (r: Option<Vec<char>>)
    requires
        parameters@.len() > 0,
    ensures
        match r {
            Some(name) => zone_parameter(text::views(parameters@).drop_first()) == Some(name@),
            None => zone_parameter(text::views(parameters@).drop_first()) is None,
        },
{
    let prefix = text::to_chars("TZID=");
    let ghost all = text::views(parameters@);
    let mut i: usize = 1;
    proof {
        assert(all.skip(1) == all.drop_first());
    }
    while i < parameters.len()
        invariant
            prefix@ == "TZID="@,
            all == text::views(parameters@),
            1 <= i <= parameters@.len(),
            zone_parameter(all.drop_first()) == zone_parameter(all.skip(i as int)),
        decreases parameters@.len() - i,
    {
        let part = parameters[i].as_slice();
        proof {
            assert(all.skip(i as int)[0] == part@);
            assert(all.skip(i as int).drop_first() == all.skip(i + 1));
        }
        if text::has_prefix(part, prefix.as_slice()) {
            let name = slice_subrange(part, prefix.len(), part.len());
            proof {
                assert(name@ == part@.skip(prefix@.len() as int));
            }
            return Some(text::copy_chars(name));
        }
        i += 1;
    }
    None
}

fn standard_zone_name(name: &[char]) -> (r: String)
    ensures
        r@ == zone_alias(name@),
{
    if text::is_text(name, "EDT") || text::is_text(name, "EST") || text::is_text(
        name,
        "US/Eastern",
    ) {
        "America/New_York".to_owned()
    } else if text::is_text(name, "CDT") || text::is_text(name, "CST") || text::is_text(
        name,
        "US/Central",
    ) {
        "America/Chicago".to_owned()
    } else if text::is_text(name, "MDT") || text::is_text(name, "MST") || text::is_text(
        name,
        "US/Mountain",
    ) {
        "America/Denver".to_owned()
    } else if text::is_text(name, "PDT") || text::is_text(name, "PST") || text::is_text(
        name,
        "US/Pacific",
    ) {
        "America/Los_Angeles".to_owned()
    } else {
        text::to_text(name)
    }
}

/// The name of the time zone that a property asks for, under the name that the time zone database
/// has for it.
pub fn requested_zone(property: &str) -> (r: Option<String>)
    ensures
        match r {
            Some(name) => zone_name(property@) == Some(name@),
            None => zone_name(property@) is None,
        },
{
    let parameters = text::pieces(text::to_chars(property).as_slice(), ';');
    proof {
        assert(text::views(parameters@).len() > 0);
    }
    match find_zone_parameter(&parameters) {
        Some(name) => Some(
            standard_zone_name(text::without_around(name.as_slice(), &CharClass::Only('"'))),
        ),
        None => None,
    }
}

/// The point in time that a wall-clock time of a property stands for.
pub fn localize_ics_datetime(property: &str, naive: CivilTime, clock: &mut LocalClock) -> (r:
    Option<UtcTime>)
    requires
        naive.valid(),
        old(clock).valid(),
    ensures
        final(clock).valid(),
        old(clock)@.submap_of(final(clock)@),
        forall|zone: Zone| #[trigger]
            final(clock)@.submap_of(zone) ==> r == localized(property@, naive, zone),
        r matches Some(t) ==> time::near(t, naive),
{
    if let Some(name) = requested_zone(property) {
        if is_zone(name.as_str()) {
            return times_in_zone(name.as_str(), naive).first();
        }
    }
    local_to_utc(naive, clock)
}

/// The wall-clock time in a value, with seconds or without.
pub fn parse_naive_ics_datetime(value: &str) -> (r: Option<CivilTime>)
    ensures
        r == naive_read(value@),
        r matches Some(civil) ==> civil.valid(),
{
    let chars = text::to_chars(value);
    let digits = text::to_text(
        text::without_trailing(chars.as_slice(), &CharClass::Only('Z')),
    );
    match time::read_datetime(digits.as_str(), "%Y%m%dT%H%M%S") {
        Some(civil) => Some(civil),
        None => time::read_datetime(digits.as_str(), "%Y%m%dT%H%M"),
    }
}

/// The form of a value.
pub fn form_of_value(value: &str) -> (r: ValueForm)
    ensures
        r == value_form(value@),
{
    if value.as_bytes().len() == 8 {
        return ValueForm::Date;
    }
    let chars = text::to_chars(value);
    if chars.len() > 0 && chars[chars.len() - 1] == 'Z' {
        ValueForm::Utc
    } else {
        ValueForm::WallClock
    }
}

/// The date and time that a value spells out.
pub fn read_value(value: &str) -> (r: Option<CivilTime>)
    ensures
        r == value_read(value@),
        r matches Some(civil) ==> civil.valid(),
{
    match form_of_value(value) {
        ValueForm::Date => match time::read_date(value, "%Y%m%d") {
            Some(day) => Some(CivilTime { day, second: 0, nano: 0 }),
            None => None,
        },
        ValueForm::Utc => time::read_datetime(value, "%Y%m%dT%H%M%SZ"),
        ValueForm::WallClock => parse_naive_ics_datetime(value),
    }
}

/// The point in time that a value stands for, given the date and time it spells out.
pub fn place_value(property: &str, value: &str, civil: CivilTime, clock: &mut LocalClock) -> (r:
    Option<UtcTime>)
    requires
        civil.valid(),
        old(clock).valid(),
    ensures
        final(clock).valid(),
        old(clock)@.submap_of(final(clock)@),
        forall|zone: Zone| #[trigger]
            final(clock)@.submap_of(zone) ==> r == placed(property@, value@, civil, zone),
        r matches Some(t) ==> t.valid() && t.nanos == civil.nano,
{
    match form_of_value(value) {
        ValueForm::Date => local_to_utc(civil, clock),
        ValueForm::Utc => Some(civil.as_utc()),
        ValueForm::WallClock => localize_ics_datetime(property, civil, clock),
    }
}

/// The point in time that a date property of a calendar file stands for.
pub fn parse_ics_datetime(property: &str, value: &str, clock: &mut LocalClock) -> (r: Option<
    UtcTime,
>)
    requires
        old(clock).valid(),
    ensures
        final(clock).valid(),
        old(clock)@.submap_of(final(clock)@),
        forall|zone: Zone| #[trigger]
            final(clock)@.submap_of(zone) ==> r == ics_time(property@, value@, zone),
        r matches Some(t) ==> t.valid() && (value_read(value@) matches Some(civil) && t.nanos
            == civil.nano),
{
    match read_value(value) {
        Some(civil) => place_value(property, value, civil, clock),
        None => None,
    }
}

/// Of the points in time at which the clocks of a place show a wall-clock time, a single one is
/// taken, and the first of two. There is none if the clocks skip that time.
pub proof fn the_first_of_two_times_is_taken(times: &LocalTimes, r: Option<UtcTime>)
    requires
        call_ensures(LocalTimes::first, (times,), r),
    ensures
        *times matches LocalTimes::Single(t) ==> r == Some(t),
        *times matches LocalTimes::Twice(a, b) ==> r == Some(a),
        *times == LocalTimes::Skipped ==> r is None,
{
}

/// What clocks answered for a wall-clock time is a point in time unless they skip it; of two it is
/// the first. What they were not asked gives none.
pub proof fn clocks_answer_what_they_were_asked(
    zone: Zone,
    civil: CivilTime,
    one: UtcTime,
    other: UtcTime,
)
    ensures
        zone.dom().contains(civil) && zone[civil] == LocalTimes::Single(one) ==> answer(zone, civil)
            == Some(one),
        zone.dom().contains(civil) && zone[civil] == LocalTimes::Twice(one, other) ==> answer(
            zone,
            civil,
        ) == Some(one),
        zone.dom().contains(civil) && zone[civil] == LocalTimes::Skipped ==> answer(zone, civil) is None,
        !zone.dom().contains(civil) ==> answer(zone, civil) is None,
{
}

/// A value of eight bytes is a date. Any other is a time in UTC if it ends in `Z`, and a
/// wall-clock time if it does not.
pub proof fn values_have_the_form_of_their_length_and_end(value: &str, r: ValueForm)
    requires
        call_ensures(form_of_value, (value,), r),
    ensures
        r is Date <==> vstd::utf8::encode_utf8(value@).len() == 8,
        r is Utc <==> vstd::utf8::encode_utf8(value@).len() != 8 && value@.len() > 0
            && value@[value@.len() - 1] == 'Z',
        r is WallClock <==> vstd::utf8::encode_utf8(value@).len() != 8 && (value@.len() == 0
            || value@[value@.len() - 1] != 'Z'),
{
}

/// The point in time that a value of a property stands for. A time in UTC is counted from the
/// epoch. A wall-clock time is that of the zone that the property names if the zone is known, and
/// of the machine otherwise. A date is its first second on the machine, whatever the property
/// names.
pub proof fn values_stand_for_points_in_time(
    property: Seq<char>,
    value: Seq<char>,
    zone: Zone,
    civil: CivilTime,
    day: i32,
    name: Seq<char>,
)
    requires
        civil.valid(),
    ensures
        value_form(value) is Utc && time::datetime_read(value, "%Y%m%dT%H%M%SZ"@) == Some(civil)
            ==> (ics_time(property, value, zone) matches Some(t) && t.seconds == (civil.day
            - 719_163) * 86_400 + civil.second && t.nanos == civil.nano),
        value_form(value) is Utc && time::datetime_read(value, "%Y%m%dT%H%M%SZ"@) is None
            ==> ics_time(property, value, zone) is None,
        value_form(value) is Date && time::date_read(value, "%Y%m%d"@) == Some(day) ==> ics_time(
            property,
            value,
            zone,
        ) == answer(zone, CivilTime { day, second: 0, nano: 0 }),
        value_form(value) is Date && time::date_read(value, "%Y%m%d"@) is None ==> ics_time(
            property,
            value,
            zone,
        ) is None,
        value_form(value) is WallClock && naive_read(value) is None ==> ics_time(
            property,
            value,
            zone,
        ) is None,
        value_form(value) is WallClock && naive_read(value) == Some(civil) ==> {
            &&& zone_name(property) == Some(name) && zone_known(name) ==> match zone_times(
                name,
                civil,
            ) {
                LocalTimes::Skipped => ics_time(property, value, zone) is None,
                LocalTimes::Single(t) => ics_time(property, value, zone) == Some(t),
                LocalTimes::Twice(t, _) => ics_time(property, value, zone) == Some(t),
            }
            &&& zone_name(property) == Some(name) && !zone_known(name) ==> ics_time(
                property,
                value,
                zone,
            ) == answer(zone, civil)
            &&& zone_name(property) is None ==> ics_time(property, value, zone) == answer(
                zone,
                civil,
            )
        },
{
}

/// The wall-clock time in a value is read with seconds if it has them, and without otherwise,
/// whatever letters `Z` stand at its end.
pub proof fn wall_clock_times_are_read_with_or_without_seconds(
    value: &str,
    r: Option<CivilTime>,
    digits: Seq<char>,
    marks: Seq<char>,
    civil: CivilTime,
)
    requires
        call_ensures(parse_naive_ics_datetime, (value,), r),
        value@ == digits + marks,
        forall|i: int| 0 <= i < marks.len() ==> #[trigger] marks[i] == 'Z',
        digits.len() > 0 ==> digits[digits.len() - 1] != 'Z',
    ensures
        time::datetime_read(digits, "%Y%m%dT%H%M%S"@) == Some(civil) ==> r == Some(civil),
        time::datetime_read(digits, "%Y%m%dT%H%M%S"@) is None ==> r == time::datetime_read(
            digits,
            "%Y%m%dT%H%M"@,
        ),
{
    lemma_marks_dropped(digits, marks);
}

proof fn lemma_marks_dropped(digits: Seq<char>, marks: Seq<char>)
    requires
        forall|i: int| 0 <= i < marks.len() ==> #[trigger] marks[i] == 'Z',
        digits.len() > 0 ==> digits.last() != 'Z',
    ensures
        text::drop_trailing(digits + marks, CharClass::Only('Z')) == digits,
    decreases marks.len(),
{
    let value = digits + marks;
    if marks.len() > 0 {
        let fewer = marks.drop_last();
        assert(value.last() == marks[marks.len() - 1]);
        assert(value.drop_last() == digits + fewer);
        assert forall|i: int| 0 <= i < fewer.len() implies #[trigger] fewer[i] == 'Z' by {
            assert(fewer[i] == marks[i]);
        }
        lemma_marks_dropped(digits, fewer);
    } else {
        assert(value == digits);
    }
}

/// The name that the time zone database has for a zone of the United States, whether it goes by
/// its abbreviation in winter or in summer, or by its old name. Every other name stays.
pub open spec fn is_alias(name: Seq<char>, zone: Seq<char>) -> bool {
    ||| zone == "America/New_York"@ && (name == "EST"@ || name == "EDT"@ || name == "US/Eastern"@)
    ||| zone == "America/Chicago"@ && (name == "CST"@ || name == "CDT"@ || name == "US/Central"@)
    ||| zone == "America/Denver"@ && (name == "MST"@ || name == "MDT"@ || name == "US/Mountain"@)
    ||| zone == "America/Los_Angeles"@ && (name == "PST"@ || name == "PDT"@ || name
        == "US/Pacific"@)
}

proof fn lemma_alias(name: Seq<char>, zone: Seq<char>)
    ensures
        is_alias(name, zone) ==> zone_alias(name) == zone,
        (forall|other: Seq<char>| !is_alias(name, other)) ==> zone_alias(name) == name,
{
    reveal_strlit("EST");
    reveal_strlit("EDT");
    reveal_strlit("US/Eastern");
    reveal_strlit("CST");
    reveal_strlit("CDT");
    reveal_strlit("US/Central");
    reveal_strlit("MST");
    reveal_strlit("MDT");
    reveal_strlit("US/Mountain");
    reveal_strlit("PST");
    reveal_strlit("PDT");
    reveal_strlit("US/Pacific");
    assert("EST"@[0] == 'E' && "EDT"@[0] == 'E' && "US/Eastern"@[3] == 'E');
    assert("CST"@[0] == 'C' && "CDT"@[0] == 'C' && "US/Central"@[3] == 'C');
    assert("MST"@[0] == 'M' && "MDT"@[0] == 'M' && "US/Mountain"@[3] == 'M');
    assert("PST"@[0] == 'P' && "PDT"@[0] == 'P' && "US/Pacific"@[3] == 'P');
    assert("US/Eastern"@[0] == 'U' && "US/Central"@[0] == 'U' && "US/Mountain"@[0] == 'U'
        && "US/Pacific"@[0] == 'U');
    if forall|other: Seq<char>| !is_alias(name, other) {
        assert(!is_alias(name, "America/New_York"@));
        assert(!is_alias(name, "America/Chicago"@));
        assert(!is_alias(name, "America/Denver"@));
        assert(!is_alias(name, "America/Los_Angeles"@));
    }
}

proof fn lemma_zone_parameters(before: Seq<Seq<char>>, own: Seq<char>, after: Seq<Seq<char>>)
    requires
        forall|i: int|
            0 <= i < before.len() ==> !text::starts_with(#[trigger] before[i], "TZID="@),
    ensures
        zone_parameter(before + seq!["TZID="@ + own] + after) == Some(own),
        zone_parameter(before) is None,
    decreases before.len(),
{
    let part = "TZID="@ + own;
    let all = before + seq![part] + after;
    if before.len() > 0 {
        let rest = before.drop_first();
        assert(before[0] == all[0]);
        assert(all.drop_first() == rest + seq![part] + after);
        assert forall|i: int| 0 <= i < rest.len() implies !text::starts_with(
            #[trigger] rest[i],
            "TZID="@,
        ) by {
            assert(rest[i] == before[i + 1]);
        }
        lemma_zone_parameters(rest, own, after);
    } else {
        assert(all[0] == part);
        assert(part.take("TZID="@.len() as int) == "TZID="@);
        assert(part.skip("TZID="@.len() as int) == own);
    }
}

/// A property asks for the zone that stands behind `TZID=` in its first such parameter, without
/// quotation marks around it, and under the name that the database has for it. The parameters are
/// what stands between the semicolons behind the property's name. Without such a parameter the
/// property asks for none.
pub proof fn properties_ask_for_the_zone_they_name(
    property: &str,
    r: Option<String>,
    before: Seq<Seq<char>>,
    marks: Seq<char>,
    own: Seq<char>,
    after: Seq<Seq<char>>,
    zone: Seq<char>,
)
    requires
        call_ensures(requested_zone, (property,), r),
        forall|i: int|
            0 <= i < before.len() ==> (#[trigger] before[i]).len() < 5 || before[i].take(5)
                != "TZID="@,
        marks == Seq::<char>::empty() || marks == seq!['"'],
        own.len() > 0 ==> own[0] != '"' && own[own.len() - 1] != '"',
    ensures
        text::split(property@, ';').drop_first() == before + seq!["TZID="@ + (marks + own + marks)]
            + after ==> (r matches Some(name) && {
            &&& is_alias(own, zone) ==> name@ == zone
            &&& (forall|other: Seq<char>| !is_alias(own, other)) ==> name@ == own
        }),
        text::split(property@, ';').drop_first() == before ==> r is None,
{
    reveal_strlit("TZID=");
    let written = marks + own + marks;
    assert forall|i: int| 0 <= i < before.len() implies !text::starts_with(
        #[trigger] before[i],
        "TZID="@,
    ) by {
        assert("TZID="@.len() == 5);
    }
    lemma_zone_parameters(before, written, after);
    lemma_alias(own, zone);
    lemma_marks_around(marks, own);
}

proof fn lemma_marks_around(marks: Seq<char>, own: Seq<char>)
    requires
        marks == Seq::<char>::empty() || marks == seq!['"'],
        own.len() > 0 ==> own[0] != '"' && own[own.len() - 1] != '"',
    ensures
        text::drop_around(marks + own + marks, CharClass::Only('"')) == own,
{
    let class = CharClass::Only('"');
    let written = marks + own + marks;
    if marks.len() > 0 {
        assert(written[0] == '"');
        assert(written.drop_first() == own + marks);
        assert(text::drop_leading(written, class) == text::drop_leading(own + marks, class));
        if own.len() > 0 {
            assert((own + marks)[0] == own[0]);
            assert(text::drop_leading(own + marks, class) == own + marks);
            assert((own + marks).last() == '"');
            assert((own + marks).drop_last() == own);
            assert(text::drop_trailing(own, class) == own);
            assert(text::drop_trailing(own + marks, class) == own);
        } else {
            assert(own + marks == seq!['"']);
            assert(seq!['"'].drop_first() == Seq::<char>::empty());
            assert(text::drop_leading(Seq::<char>::empty(), class) == Seq::<char>::empty());
            assert(text::drop_leading(seq!['"'], class) == Seq::<char>::empty());
            assert(text::drop_trailing(Seq::<char>::empty(), class) == Seq::<char>::empty());
            assert(own == Seq::<char>::empty());
        }
    } else {
        assert(written == own);
    }
}

} // verus!
