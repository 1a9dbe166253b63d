//! Weekly recurrence rules and the events they stand for.
use vstd::prelude::*;

use crate::event::{self, CalendarEvent, EventView};
use crate::number;
use crate::text::{self, CharClass};
use crate::time::{self, CivilTime, UtcTime, Weekday, MAX_DAY, MIN_DAY, NANOS_PER_SECOND};
use crate::zone::{self, LocalClock, Zone};

verus! {

/// How many days after its first day a rule is followed: five years of 366 days.
pub const WINDOW_DAYS: i32 = 1_830;

/// How many events a rule yields at most if it gives no count.
pub const DEFAULT_LIMIT: usize = 2_000;

/// A weekly rule.
#[derive(Debug)]
pub struct WeeklyRule {
    /// The weekdays that the rule names; `None` if it leaves them to the first event.
    pub days: Option<Vec<Weekday>>,
    /// The number of weeks from one week of the rule to the next.
    pub interval: i64,
    /// The greatest number of events.
    pub limit: usize,
    /// The last moment at which an event may start, as it is written in the rule.
    pub until: Option<String>,
}

/// What a weekly rule says.
pub struct RuleView {
    pub days: Option<Seq<Weekday>>,
    pub interval: int,
    pub limit: nat,
    pub until: Option<Seq<char>>,
}

impl View for WeeklyRule {
    type V = RuleView;

    open spec fn view(&self) -> RuleView {
        RuleView {
            days: match self.days {
                Some(days) => Some(days@),
                None => None,
            },
            interval: self.interval as int,
            limit: self.limit as nat,
            until: match self.until {
                Some(until) => Some(until@),
                None => None,
            },
        }
    }
}

/// The value that the last of the parts with a key gives it.
pub open spec fn last_value(parts: Seq<Seq<char>>, key: Seq<char>) -> Option<Seq<char>>
    decreases parts.len(),
{
    if parts.len() == 0 {
        None
    } else {
        match text::split_once(parts.last(), '=') {
            Some((name, value)) => if name == key {
                Some(value)
            } else {
                last_value(parts.drop_last(), key)
            },
            None => last_value(parts.drop_last(), key),
        }
    }
}

/// The value of a key in a rule, such as `WEEKLY` for `FREQ`.
pub open spec fn rule_value(rule: Seq<char>, key: Seq<char>) -> Option<Seq<char>> {
    last_value(text::split(rule, ';'), key)
}

/// The weekday that a rule writes as `MO` to `SU`, a signed number before it being ignored.
pub open spec fn weekday_named(value: Seq<char>) -> Option<Weekday> {
    let name = text::drop_leading(value, CharClass::SignOrDigit);
    if name == "MO"@ {
        Some(Weekday::Mon)
    } else if name == "TU"@ {
        Some(Weekday::Tue)
    } else if name == "WE"@ {
        Some(Weekday::Wed)
    } else if name == "TH"@ {
        Some(Weekday::Thu)
    } else if name == "FR"@ {
        Some(Weekday::Fri)
    } else if name == "SA"@ {
        Some(Weekday::Sat)
    } else if name == "SU"@ {
        Some(Weekday::Sun)
    } else {
        None
    }
}

/// The weekdays that a list names, what names none being left out.
pub open spec fn weekdays_named(names: Seq<Seq<char>>) -> Seq<Weekday>
    decreases names.len(),
{
    if names.len() == 0 {
        seq![]
    } else {
        match weekday_named(names.last()) {
            Some(day) => weekdays_named(names.drop_last()).push(day),
            None => weekdays_named(names.drop_last()),
        }
    }
}

/// The number of weeks that the text of an interval gives, at least one.
pub open spec fn interval_given(value: Option<Seq<char>>) -> int {
    match value {
        Some(value) => match number::signed_number(value) {
            Some(n) => if n >= 1 {
                n as int
            } else {
                1
            },
            None => 1,
        },
        None => 1,
    }
}

/// The greatest number of events that the text of a count gives.
pub open spec fn limit_given(value: Option<Seq<char>>) -> nat {
    match value {
        Some(value) => match number::count_number(value) {
            Some(n) => n as nat,
            None => DEFAULT_LIMIT as nat,
        },
        None => DEFAULT_LIMIT as nat,
    }
}

pub open spec fn is_weekly(rule: Seq<char>) -> bool {
    rule_value(rule, "FREQ"@) == Some("WEEKLY"@)
}

/// What the text of a weekly rule says.
pub open spec fn weekly_rule(rule: Seq<char>) -> RuleView {
    RuleView {
        days: match rule_value(rule, "BYDAY"@) {
            Some(days) => Some(weekdays_named(text::split(days, ','))),
            None => None,
        },
        interval: interval_given(rule_value(rule, "INTERVAL"@)),
        limit: limit_given(rule_value(rule, "COUNT"@)),
        until: rule_value(rule, "UNTIL"@),
    }
}

/// Whether a rule whose first event is on one day has an event on another, later day: in every
/// `interval`th week, weeks starting on Monday, on the weekdays that the rule names or else on
/// the first event's.
pub open spec fn recurs_on(rule: RuleView, first: int, day: int) -> bool {
    let monday = first - time::weekday_number(first);
    &&& ((day - monday) / 7) % rule.interval == 0
    &&& match rule.days {
        Some(days) => days.contains(time::weekday(day)),
        None => time::weekday(day) == time::weekday(first),
    }
}

/// The days of a rule from its first day to a last day.
pub open spec fn recurring_days(rule: RuleView, first: int, last: int) -> Seq<int>
    decreases last - first + 1,
{
    if last < first {
        seq![]
    } else if recurs_on(rule, first, last) {
        recurring_days(rule, first, last - 1).push(last)
    } else {
        recurring_days(rule, first, last - 1)
    }
}

/// The points in time at which the events on the given days start, at the time of day of the
/// first event. A day on which the clocks skip that time has no event.
pub open spec fn starts_on(
    days: Seq<int>,
    property: Seq<char>,
    base: CivilTime,
    zone: Zone,
) -> Seq<UtcTime>
    decreases days.len(),
{
    if days.len() == 0 {
        seq![]
    } else {
        let civil = CivilTime { day: days.last() as i32, ..base };
        match zone::localized(property, civil, zone) {
            Some(t) => starts_on(days.drop_last(), property, base, zone).push(t),
            None => starts_on(days.drop_last(), property, base, zone),
        }
    }
}

/// The points in time at which the events of a rule start, up to a last day.
pub open spec fn weekly_starts(
    property: Seq<char>,
    base: CivilTime,
    rule: RuleView,
    last: int,
    zone: Zone,
) -> Seq<UtcTime> {
    starts_on(recurring_days(rule, base.day as int, last), property, base, zone)
}

/// Whether a point in time lies after a limit.
pub open spec fn beyond(t: UtcTime, until: Option<UtcTime>) -> bool {
    until matches Some(limit) && limit.precedes(t)
}

/// The points in time that stand before the first one beyond a limit.
pub open spec fn up_to(starts: Seq<UtcTime>, until: Option<UtcTime>) -> Seq<UtcTime>
    decreases starts.len(),
{
    if starts.len() == 0 || beyond(starts[0], until) {
        seq![]
    } else {
        seq![starts[0]] + up_to(starts.drop_first(), until)
    }
}

/// The points in time that a rule keeps: those before the first one beyond its limit in time, of
/// these as many as its limit in number.
pub open spec fn kept(starts: Seq<UtcTime>, until: Option<UtcTime>, limit: nat) -> Seq<UtcTime> {
    if up_to(starts, until).len() > limit {
        up_to(starts, until).take(limit as int)
    } else {
        up_to(starts, until)
    }
}

/// Whether a rule's limits end it before its last day is over.
pub open spec fn ends_early(
    earlier: Seq<UtcTime>,
    starts: Seq<UtcTime>,
    until: Option<UtcTime>,
    limit: nat,
) -> bool {
    ||| kept(earlier, until, limit).len() >= limit
    ||| exists|i: int| 0 <= i < starts.len() && #[trigger] beyond(starts[i], until)
}

/// The first event, moved to start at another point in time; `None` if `chrono` cannot represent
/// its end.
pub open spec fn event_at(event: EventView, start: UtcTime) -> Option<EventView> {
    match time::moved(start, time::elapsed(event.end, event.start)) {
        Some(end) => Some(EventView { start, end, ..event }),
        None => None,
    }
}

/// Whether an event lasts as long as the first one of its rule, leap seconds left aside.
pub open spec fn lasts_as_long(event: EventView, first: EventView) -> bool {
    first.start.ordinary() && first.end.ordinary() && event.start.ordinary() ==> {
        &&& event.end.ordinary()
        &&& event.end.total() - event.start.total() == first.end.total() - first.start.total()
    }
}

pub open spec fn all_last_as_long(events: Seq<EventView>, first: EventView) -> bool {
    forall|i: int| 0 <= i < events.len() ==> lasts_as_long(#[trigger] events[i], first)
}

/// Whether every event starts outside of leap seconds.
pub open spec fn all_start_ordinary(events: Seq<EventView>) -> bool {
    forall|i: int| 0 <= i < events.len() ==> (#[trigger] events[i]).start.ordinary()
}

/// The events that a weekly rule stands for, given its first event, the wall-clock time at which
/// that starts, and the rule's limit in time. It is the first event alone if there are none.
///
/// `None` if a day or an event's end that has to be reckoned with lies outside of what `chrono`
/// can represent.
pub open spec fn weekly_expansion(
    event: EventView,
    property: Seq<char>,
    base: CivilTime,
    rule: RuleView,
    until: Option<UtcTime>,
    zone: Zone,
) -> Option<Seq<EventView>> {
    let last = base.day + WINDOW_DAYS;
    let starts = weekly_starts(property, base, rule, last, zone);
    let earlier = weekly_starts(property, base, rule, last - 1, zone);
    let chosen = kept(starts, until, rule.limit);
    if base.day - time::weekday_number(base.day as int) < MIN_DAY || last > MAX_DAY {
        None
    } else if last == MAX_DAY && !ends_early(earlier, starts, until, rule.limit) {
        None
    } else if exists|i: int| 0 <= i < chosen.len() && event_at(event, #[trigger] chosen[i]) is None {
        None
    } else if chosen.len() == 0 {
        Some(seq![event])
    } else {
        Some(Seq::new(chosen.len(), |i: int| event_at(event, chosen[i]).unwrap()))
    }
}

/// The events that an event with a recurrence rule stands for. Only weekly rules are followed;
/// under any other the event occurs once.
pub open spec fn expansion(
    event: EventView,
    property: Seq<char>,
    value: Seq<char>,
    rule: Seq<char>,
    zone: Zone,
) -> Option<Seq<EventView>> {
    if !is_weekly(rule) {
        Some(seq![event])
    } else {
        match zone::naive_read(value) {
            None => Some(seq![event]),
            Some(base) => {
                let until = match weekly_rule(rule).until {
                    Some(until) => zone::ics_time(property, until, zone),
                    None => None,
                };
                weekly_expansion(event, property, base, weekly_rule(rule), until, zone)
            },
        }
    }
}

/// The days of a rule are all days from the first to the last on which it recurs, and no others,
/// one after the other.
pub proof fn recurring_days_are_those_of_the_rule(rule: RuleView, first: int, last: int)
    ensures
        forall|day: int| #[trigger]
            recurring_days(rule, first, last).contains(day) <==> first <= day <= last && recurs_on(
                rule,
                first,
                day,
            ),
        forall|i: int, j: int|
            0 <= i < j < recurring_days(rule, first, last).len() ==> (#[trigger] recurring_days(
                rule,
                first,
                last,
            )[i]) < (#[trigger] recurring_days(rule, first, last)[j]),
    decreases last - first + 1,
{
    if first <= last {
        recurring_days_are_those_of_the_rule(rule, first, last - 1);
        let shorter = recurring_days(rule, first, last - 1);
        let all = recurring_days(rule, first, last);
        assert forall|day: int| #[trigger] all.contains(day) <==> first <= day <= last && recurs_on(
            rule,
            first,
            day,
        ) by {
            if shorter.contains(day) {
                let k = choose|k: int| 0 <= k < shorter.len() && shorter[k] == day;
                assert(all[k] == day);
            }
            if all.contains(day) && day != last {
                let k = choose|k: int| 0 <= k < all.len() && all[k] == day;
                assert(shorter[k] == day);
            }
            if day == last && recurs_on(rule, first, last) {
                assert(all[shorter.len() as int] == last);
            }
            if all.contains(last) && !recurs_on(rule, first, last) {
                assert(shorter.contains(last));
            }
        }
        assert forall|i: int, j: int| 0 <= i < j < all.len() implies (#[trigger] all[i]) < (
        #[trigger] all[j]) by {
            assert(shorter.contains(shorter[i]));
            if j < shorter.len() {
                assert(shorter[i] < shorter[j]);
            }
        }
    }
}

/// A rule keeps the first of its events: none that starts after its limit in time, and no more
/// than its limit in number.
pub proof fn rule_keeps_within_its_limits(
    starts: Seq<UtcTime>,
    until: Option<UtcTime>,
    limit: nat,
)
    ensures
        kept(starts, until, limit).is_prefix_of(starts),
        kept(starts, until, limit).len() <= limit,
        none_beyond(kept(starts, until, limit), until),
        until is None && starts.len() <= limit ==> kept(starts, until, limit) == starts,
{
    lemma_up_to(starts, until);
    let all = up_to(starts, until);
    assert(starts.take(all.len() as int) == all);
    if all.len() > limit {
        assert(starts.take(limit as int) == all.take(limit as int));
    }
    assert(kept(starts, until, limit) == starts.subrange(
        0,
        kept(starts, until, limit).len() as int,
    ));
}

/// A smaller limit in number keeps the first of what a larger one keeps, as many as it allows.
pub proof fn a_smaller_limit_keeps_the_first(
    starts: Seq<UtcTime>,
    until: Option<UtcTime>,
    few: nat,
    many: nat,
)
    requires
        few <= many,
    ensures
        kept(starts, until, few).is_prefix_of(kept(starts, until, many)),
        kept(starts, until, few).len() == smaller(few, kept(starts, until, many).len()),
{
    let (less, more) = (kept(starts, until, few), kept(starts, until, many));
    assert(less == more.subrange(0, less.len() as int));
}

pub open spec fn smaller(a: nat, b: nat) -> nat {
    if a < b {
        a
    } else {
        b
    }
}

/// Under the same rule with a smaller limit in number, a first event stands for the first of the
/// events that it stands for under the larger one, as many as the smaller limit allows. If the
/// larger limit keeps within what `chrono` can represent, so does the smaller one.
pub proof fn a_smaller_limit_expands_to_the_first(
    event: EventView,
    property: Seq<char>,
    base: CivilTime,
    rule: RuleView,
    until: Option<UtcTime>,
    zone: Zone,
    few: nat,
    many: nat,
)
    requires
        1 <= few <= many,
    ensures
        weekly_expansion(
            event,
            property,
            base,
            RuleView { limit: many, ..rule },
            until,
            zone,
        ) matches Some(more) ==> (weekly_expansion(
            event,
            property,
            base,
            RuleView { limit: few, ..rule },
            until,
            zone,
        ) matches Some(less) && less.is_prefix_of(more) && less.len() == smaller(
            few,
            more.len(),
        )),
{
    let (narrow, wide) = (RuleView { limit: few, ..rule }, RuleView { limit: many, ..rule });
    let last = base.day + WINDOW_DAYS;
    lemma_limit_does_not_move_days(rule, few, base.day as int, last);
    lemma_limit_does_not_move_days(rule, many, base.day as int, last);
    lemma_limit_does_not_move_days(rule, few, base.day as int, last - 1);
    lemma_limit_does_not_move_days(rule, many, base.day as int, last - 1);
    let starts = weekly_starts(property, base, rule, last, zone);
    let earlier = weekly_starts(property, base, rule, last - 1, zone);
    assert(weekly_starts(property, base, narrow, last, zone) == starts);
    assert(weekly_starts(property, base, wide, last, zone) == starts);
    assert(weekly_starts(property, base, narrow, last - 1, zone) == earlier);
    assert(weekly_starts(property, base, wide, last - 1, zone) == earlier);
    a_smaller_limit_keeps_the_first(starts, until, few, many);
    a_smaller_limit_keeps_the_first(earlier, until, few, many);
    let (fewer, chosen) = (kept(starts, until, few), kept(starts, until, many));
    assert forall|i: int| 0 <= i < fewer.len() implies #[trigger] fewer[i] == chosen[i] by {
        assert(chosen.subrange(0, fewer.len() as int)[i] == chosen[i]);
    }
    if let Some(more) = weekly_expansion(event, property, base, wide, until, zone) {
        assert(!exists|i: int|
            0 <= i < fewer.len() && event_at(event, #[trigger] fewer[i]) is None);
        let less = weekly_expansion(event, property, base, narrow, until, zone).unwrap();
        assert(less == more.subrange(0, less.len() as int));
    }
}

proof fn lemma_limit_does_not_move_days(rule: RuleView, limit: nat, first: int, last: int)
    ensures
        recurring_days(RuleView { limit, ..rule }, first, last) == recurring_days(
            rule,
            first,
            last,
        ),
    decreases last - first + 1,
{
    if first <= last {
        lemma_limit_does_not_move_days(rule, limit, first, last - 1);
    }
}

/// A rule with a count put behind it.
pub open spec fn with_count(rule: Seq<char>, count: nat) -> Seq<char> {
    rule.push(';') + ("COUNT="@ + number::decimal(count))
}

proof fn lemma_with_count(rule: Seq<char>, count: nat, key: Seq<char>)
    ensures
        rule_value(with_count(rule, count), key) == (if key == "COUNT"@ {
            Some(number::decimal(count))
        } else {
            rule_value(rule, key)
        }),
{
    reveal_strlit("COUNT=");
    reveal_strlit("COUNT");
    let digits = number::decimal(count);
    let part = "COUNT="@ + digits;
    number::decimal_reads_back(count);
    text::lemma_split_join(rule, part, ';');
    assert forall|i: int| 0 <= i < part.len() implies part[i] != ';' by {
        if i >= 6 {
            assert(text::is_digit(digits[i - 6]));
        }
    }
    text::lemma_not_found(part, ';');
    let parts = text::split(rule, ';');
    assert(text::split(with_count(rule, count), ';') == parts.push(part));
    assert(parts.push(part).drop_last() == parts);
    text::lemma_index_before("COUNT"@, digits, '=');
    text::lemma_not_found("COUNT"@, '=');
    assert(part == "COUNT"@.push('=') + digits);
    assert(part.take(5) == "COUNT"@);
    assert(part.skip(6) == digits);
}

/// A count put behind a rule is the greatest number of events, whatever count the rule gave, and
/// a smaller count yields the first of the events that a larger one yields, as many as it allows.
/// If the larger count keeps within what `chrono` can represent, so does the smaller one.
pub proof fn a_smaller_count_yields_the_first_events(
    event: EventView,
    property: Seq<char>,
    value: Seq<char>,
    rule: Seq<char>,
    zone: Zone,
    few: nat,
    many: nat,
)
    requires
        1 <= few <= many <= usize::MAX,
    ensures
        expansion(event, property, value, with_count(rule, many), zone) matches Some(more) ==> (
        expansion(event, property, value, with_count(rule, few), zone) matches Some(less)
            && less.is_prefix_of(more) && less.len() == smaller(few, more.len())
            && less.len() <= few),
{
    lemma_rule_with_count(rule, few);
    lemma_rule_with_count(rule, many);
    if is_weekly(rule) {
        if let Some(base) = zone::naive_read(value) {
            let plain = weekly_rule(rule);
            let until = match plain.until {
                Some(until) => zone::ics_time(property, until, zone),
                None => None,
            };
            a_smaller_limit_expands_to_the_first(
                event,
                property,
                base,
                plain,
                until,
                zone,
                few,
                many,
            );
        }
    }
    if !is_weekly(rule) || zone::naive_read(value) is None {
        let alone = seq![event];
        assert(alone == alone.subrange(0, 1));
    }
}

proof fn lemma_rule_with_count(rule: Seq<char>, count: nat)
    requires
        count <= usize::MAX,
    ensures
        is_weekly(with_count(rule, count)) == is_weekly(rule),
        weekly_rule(with_count(rule, count)) == (RuleView { limit: count, ..weekly_rule(rule) }),
{
    reveal_strlit("COUNT");
    reveal_strlit("FREQ");
    reveal_strlit("BYDAY");
    reveal_strlit("INTERVAL");
    reveal_strlit("UNTIL");
    assert("FREQ"@.len() != "COUNT"@.len());
    assert("BYDAY"@[0] != "COUNT"@[0]);
    assert("INTERVAL"@.len() != "COUNT"@.len());
    assert("UNTIL"@[0] != "COUNT"@[0]);
    lemma_with_count(rule, count, "FREQ"@);
    lemma_with_count(rule, count, "BYDAY"@);
    lemma_with_count(rule, count, "INTERVAL"@);
    lemma_with_count(rule, count, "COUNT"@);
    lemma_with_count(rule, count, "UNTIL"@);
    number::decimal_reads_back(count);
}

proof fn lemma_up_to(starts: Seq<UtcTime>, until: Option<UtcTime>)
    ensures
        up_to(starts, until).len() <= starts.len(),
        up_to(starts, until) == starts.take(up_to(starts, until).len() as int),
        none_beyond(up_to(starts, until), until),
        until is None ==> up_to(starts, until) == starts,
    decreases starts.len(),
{
    if starts.len() > 0 && !beyond(starts[0], until) {
        let rest = starts.drop_first();
        lemma_up_to(rest, until);
        let all = up_to(starts, until);
        assert(all.drop_first() == up_to(rest, until));
        assert(starts == seq![starts[0]] + rest);
        assert forall|i: int| 0 <= i < all.len() implies !beyond(#[trigger] all[i], until) by {
            if i > 0 {
                assert(all[i] == up_to(rest, until)[i - 1]);
            }
        }
        assert(all == starts.take(all.len() as int));
    }
}

fn find_value(parts: &Vec<Vec<char>>, key: &str) -> (r: Option<Vec<char>>)
    ensures
        match r {
            Some(value) => last_value(text::views(parts@), key@) == Some(value@),
            None => last_value(text::views(parts@), key@) is None,
        },
{
    let ghost all = text::views(parts@);
    let mut n: usize = parts.len();
    proof {
        assert(all.take(n as int) == all);
    }
    while n > 0
        invariant
            all == text::views(parts@),
            n <= parts@.len(),
            last_value(all, key@) == last_value(all.take(n as int), key@),
        decreases n,
    {
        let part = parts[n - 1].as_slice();
        proof {
            assert(all.take(n as int).last() == part@);
            assert(all.take(n as int).drop_last() == all.take(n - 1));
        }
        if let Some((name, value)) = text::cut_once(part, '=') {
            if text::is_text(name, key) {
                return Some(text::copy_chars(value));
            }
        }
        n -= 1;
    }
    None
}

fn weekday_of_name(value: &[char]) -> (r: Option<Weekday>)
    ensures
        r == weekday_named(value@),
{
    let name = text::without_leading(value, &CharClass::SignOrDigit);
    if text::is_text(name, "MO") {
        Some(Weekday::Mon)
    } else if text::is_text(name, "TU") {
        Some(Weekday::Tue)
    } else if text::is_text(name, "WE") {
        Some(Weekday::Wed)
    } else if text::is_text(name, "TH") {
        Some(Weekday::Thu)
    } else if text::is_text(name, "FR") {
        Some(Weekday::Fri)
    } else if text::is_text(name, "SA") {
        Some(Weekday::Sat)
    } else if text::is_text(name, "SU") {
        Some(Weekday::Sun)
    } else {
        None
    }
}

/// The weekday that a rule writes as `MO` to `SU`, a signed number before it being ignored.
pub fn parse_weekday(value: &str) -> (r: Option<Weekday>)
    ensures
        r == weekday_named(value@),
{
    weekday_of_name(text::to_chars(value).as_slice())
}

fn weekdays_of_names(names: &Vec<Vec<char>>) -> (r: Vec<Weekday>)
    ensures
        r@ == weekdays_named(text::views(names@)),
{
    let ghost all = text::views(names@);
    let mut out: Vec<Weekday> = Vec::new();
    let mut i: usize = 0;
    while i < names.len()
        invariant
            all == text::views(names@),
            i <= names@.len(),
            out@ == weekdays_named(all.take(i as int)),
        decreases names@.len() - i,
    {
        proof {
            assert(all.take(i + 1).last() == names@[i as int]@);
            assert(all.take(i + 1).drop_last() == all.take(i as int));
        }
        if let Some(day) = weekday_of_name(names[i].as_slice()) {
            out.push(day);
        }
        i += 1;
    }
    proof {
        assert(all.take(i as int) == all);
    }
    out
}

/// Reads a weekly rule; `None` if the rule is not a weekly one.
pub fn read_weekly_rule(rule: &str) -> (r: Option<WeeklyRule>)
    ensures
        match r {
            Some(weekly) => is_weekly(rule@) && weekly@ == weekly_rule(rule@) && weekly.interval
                >= 1,
            None => !is_weekly(rule@),
        },
{
    let parts = text::pieces(text::to_chars(rule).as_slice(), ';');
    let weekly = match find_value(&parts, "FREQ") {
        Some(value) => text::is_text(value.as_slice(), "WEEKLY"),
        None => false,
    };
    if !weekly {
        return None;
    }
    let days = match find_value(&parts, "BYDAY") {
        Some(value) => Some(weekdays_of_names(&text::pieces(value.as_slice(), ','))),
        None => None,
    };
    let interval: i64 = match find_value(&parts, "INTERVAL") {
        Some(value) => match number::read_signed(value.as_slice()) {
            Some(n) => if n >= 1 {
                n
            } else {
                1
            },
            None => 1,
        },
        None => 1,
    };
    let limit: usize = match find_value(&parts, "COUNT") {
        Some(value) => match number::read_count(value.as_slice()) {
            Some(n) => n,
            None => DEFAULT_LIMIT,
        },
        None => DEFAULT_LIMIT,
    };
    let until = match find_value(&parts, "UNTIL") {
        Some(value) => Some(text::to_text(value.as_slice())),
        None => None,
    };
    Some(WeeklyRule { days, interval, limit, until })
}

fn names_weekday(days: &Vec<Weekday>, day: Weekday) -> (r: bool)
    ensures
        r == days@.contains(day),
{
    let mut i: usize = 0;
    while i < days.len()
        invariant
            i <= days@.len(),
            forall|j: int| 0 <= j < i ==> days@[j] != day,
        decreases days@.len() - i,
    {
        if days[i] == day {
            return true;
        }
        i += 1;
    }
    false
}

/// Whether a rule whose first event is on one day has an event on another, later day.
pub fn rule_recurs_on(rule: &WeeklyRule, first: i32, day: i32) -> (r: bool)
    requires
        rule.interval >= 1,
        first <= day,
    ensures
        r == recurs_on(rule@, first as int, day as int),
{
    let monday: i64 = first as i64 - time::weekday_of(first).days_from_monday() as i64;
    let weeks: i64 = (day as i64 - monday) / 7;
    let weekday = time::weekday_of(day);
    weeks % rule.interval == 0 && match &rule.days {
        Some(days) => names_weekday(days, weekday),
        None => weekday == time::weekday_of(first),
    }
}

/// Whether no point in time lies beyond a limit.
pub open spec fn none_beyond(starts: Seq<UtcTime>, until: Option<UtcTime>) -> bool {
    forall|i: int| 0 <= i < starts.len() ==> !beyond(#[trigger] starts[i], until)
}

proof fn lemma_starts_grow(
    property: Seq<char>,
    base: CivilTime,
    rule: RuleView,
    day: int,
    last: int,
    zone: Zone,
)
    requires
        base.day - 1 <= day <= last,
    ensures
        weekly_starts(property, base, rule, day, zone).is_prefix_of(
            weekly_starts(property, base, rule, last, zone),
        ),
    decreases last - day,
{
    if day < last {
        lemma_starts_grow(property, base, rule, day, last - 1, zone);
        let days = recurring_days(rule, base.day as int, last - 1);
        if recurs_on(rule, base.day as int, last) {
            assert(days.push(last).drop_last() == days);
        }
    }
}

proof fn lemma_up_to_prefix(prefix: Seq<UtcTime>, starts: Seq<UtcTime>, until: Option<UtcTime>)
    requires
        prefix.is_prefix_of(starts),
        none_beyond(prefix, until),
    ensures
        up_to(starts, until) == prefix + up_to(starts.skip(prefix.len() as int), until),
    decreases prefix.len(),
{
    if prefix.len() == 0 {
        assert(starts.skip(0) == starts);
        assert(prefix + up_to(starts, until) == up_to(starts, until));
    } else {
        assert(starts[0] == prefix[0]);
        assert(!beyond(prefix[0], until));
        assert forall|i: int| 0 <= i < prefix.drop_first().len() implies !beyond(
            #[trigger] prefix.drop_first()[i],
            until,
        ) by {
            assert(prefix.drop_first()[i] == prefix[i + 1]);
        }
        assert forall|i: int| 0 <= i < prefix.drop_first().len() implies prefix.drop_first()[i]
            == starts.drop_first()[i] by {
            assert(prefix[i + 1] == starts.subrange(0, prefix.len() as int)[i + 1]);
        }
        assert(prefix.drop_first().is_prefix_of(starts.drop_first()));
        lemma_up_to_prefix(prefix.drop_first(), starts.drop_first(), until);
        let rest = up_to(starts.skip(prefix.len() as int), until);
        assert(starts.drop_first().skip(prefix.drop_first().len() as int) == starts.skip(
            prefix.len() as int,
        ));
        assert(seq![starts[0]] + (prefix.drop_first() + rest) == prefix + rest);
    }
}

/// What stands before every limit is kept.
proof fn lemma_kept_prefix(
    prefix: Seq<UtcTime>,
    starts: Seq<UtcTime>,
    until: Option<UtcTime>,
    limit: nat,
)
    requires
        prefix.is_prefix_of(starts),
        none_beyond(prefix, until),
        prefix.len() <= limit,
    ensures
        prefix.is_prefix_of(kept(starts, until, limit)),
        prefix == starts ==> kept(starts, until, limit) == prefix,
        prefix.len() == limit ==> kept(starts, until, limit) == prefix,
        prefix.len() < starts.len() && beyond(starts[prefix.len() as int], until) ==> kept(
            starts,
            until,
            limit,
        ) == prefix,
{
    lemma_up_to_prefix(prefix, starts, until);
    assert(up_to(starts, until).subrange(0, prefix.len() as int) == prefix);
    let rest = starts.skip(prefix.len() as int);
    if prefix.len() < starts.len() {
        assert(rest[0] == starts[prefix.len() as int]);
    }
    assert(prefix + Seq::<UtcTime>::empty() == prefix);
}

/// The views of a list of events that may be missing.
pub open spec fn optional_views(events: Option<Vec<CalendarEvent>>) -> Option<Seq<EventView>> {
    match events {
        Some(events) => Some(event::event_views(events@)),
        None => None,
    }
}

spec fn moved_events(event: EventView, starts: Seq<UtcTime>) -> Seq<EventView> {
    Seq::new(starts.len(), |i: int| event_at(event, starts[i]).unwrap())
}

spec fn all_moved(event: EventView, starts: Seq<UtcTime>) -> bool {
    forall|i: int| 0 <= i < starts.len() ==> event_at(event, #[trigger] starts[i]) is Some
}

/// The events that a weekly rule stands for, given its first event, the wall-clock time at which
/// that starts, and the rule's limit in time.
pub fn weekly_occurrences(
    event: &CalendarEvent,
    property: &str,
    base: CivilTime,
    rule: &WeeklyRule,
    until: Option<UtcTime>,
    clock: &mut LocalClock,
) -> (r: Option<Vec<CalendarEvent>>)
    requires
        event@.valid(),
        base.valid(),
        rule.interval >= 1,
        old(clock).valid(),
    ensures
        final(clock).valid(),
        old(clock)@.submap_of(final(clock)@),
        forall|zone: Zone| #[trigger]
            final(clock)@.submap_of(zone) ==> optional_views(r) == weekly_expansion(
                event@,
                property@,
                base,
                rule@,
                until,
                zone,
            ),
        r matches Some(events) ==> event::all_valid(event::event_views(events@))
            && all_last_as_long(event::event_views(events@), event@),
        r matches Some(events) ==> (base.nano < NANOS_PER_SECOND && event.start.ordinary()
            ==> all_start_ordinary(event::event_views(events@))),
{
    let first: i32 = base.day;
    let monday: i32 = first - time::weekday_of(first).days_from_monday();
    if monday < MIN_DAY || first > MAX_DAY - WINDOW_DAYS {
        return None;
    }
    let last: i32 = first + WINDOW_DAYS;
    let length = time::time_between(event.end, event.start);
    let mut occurrences: Vec<CalendarEvent> = Vec::new();
    let mut stopped = false;
    let ghost mut starts: Seq<UtcTime> = seq![];
    let ghost mut stop: UtcTime = event.start;
    let ghost begun = clock@;
    let ghost said = event@;
    let mut day: i32 = first;
    while !stopped && day <= last && occurrences.len() < rule.limit
        invariant
            said == event@,
            said.valid(),
            base.valid(),
            rule.interval >= 1,
            first == base.day,
            last == first + WINDOW_DAYS,
            MIN_DAY <= first <= day <= last + 1,
            first - time::weekday_number(first as int) >= MIN_DAY,
            last <= MAX_DAY,
            day <= MAX_DAY,
            length == time::elapsed(said.end, said.start),
            length.valid(),
            said.start.ordinary() && said.end.ordinary() ==> length.total() == said.end.total()
                - said.start.total(),
            clock.valid(),
            begun == old(clock)@,
            begun.submap_of(clock@),
            stopped ==> day <= last && beyond(stop, until) && forall|zone: Zone| #[trigger]
                clock@.submap_of(zone) ==> weekly_starts(property@, base, rule@, day as int, zone)
                    == starts.push(stop),
            !stopped ==> forall|zone: Zone| #[trigger]
                clock@.submap_of(zone) ==> weekly_starts(property@, base, rule@, day - 1, zone)
                    == starts,
            none_beyond(starts, until),
            starts.len() <= rule.limit,
            all_moved(said, starts),
            event::event_views(occurrences@) == moved_events(said, starts),
            occurrences@.len() == starts.len(),
            event::all_valid(event::event_views(occurrences@)),
            all_last_as_long(event::event_views(occurrences@), said),
            base.nano < NANOS_PER_SECOND ==> all_start_ordinary(
                event::event_views(occurrences@),
            ),
        decreases
            last + 1 - day + (if stopped {
                0int
            } else {
                1
            }),
    {
        let ghost asked = clock@;
        let ghost earlier = starts;
        if rule_recurs_on(rule, first, day) {
            let civil = CivilTime { day, second: base.second, nano: base.nano };
            let localized = zone::localize_ics_datetime(property, civil, clock);
            proof {
                zone::lemma_more_answers(begun, asked, clock@);
                let days = recurring_days(rule@, first as int, day - 1);
                assert(days.push(day as int).drop_last() == days);
                assert(days.push(day as int).last() == day as int);
                assert(civil == (CivilTime { day: day as int as i32, ..base }));
                assert forall|zone: Zone| #[trigger] clock@.submap_of(zone) implies (match localized {
                    Some(t) => weekly_starts(property@, base, rule@, day as int, zone)
                        == starts.push(t),
                    None => weekly_starts(property@, base, rule@, day as int, zone) == starts,
                }) by {
                    zone::lemma_more_answers(asked, clock@, zone);
                }
            }
            if let Some(start) = localized {
                let late = match until {
                    Some(limit) => limit.before(&start),
                    None => false,
                };
                if late {
                    proof {
                        stop = start;
                    }
                    stopped = true;
                } else {
                    let ghost prefix = starts.push(start);
                    match time::time_after(start, length) {
                        Some(end) => {
                            let ghost before = occurrences@;
                            let occurrence = CalendarEvent {
                                calendar_index: event.calendar_index,
                                calendar_name: event.calendar_name.clone(),
                                summary: event.summary.clone(),
                                location: event.location.clone(),
                                start,
                                end,
                            };
                            let ghost occurs = occurrence@;
                            occurrences.push(occurrence);
                            proof {
                                assert(event_at(said, start) == Some(occurs));
                                assert(event::event_views(occurrences@) == event::event_views(
                                    before,
                                ).push(occurs));
                                assert(moved_events(said, prefix) == moved_events(
                                    said,
                                    starts,
                                ).push(occurs));
                                starts = prefix;
                            }
                        },
                        None => {
                            proof {
                                assert forall|zone: Zone| #[trigger] clock@.submap_of(
                                    zone,
                                ) implies weekly_expansion(
                                    said,
                                    property@,
                                    base,
                                    rule@,
                                    until,
                                    zone,
                                ) is None by {
                                    lemma_starts_grow(
                                        property@,
                                        base,
                                        rule@,
                                        day as int,
                                        last as int,
                                        zone,
                                    );
                                    let all = weekly_starts(
                                        property@,
                                        base,
                                        rule@,
                                        last as int,
                                        zone,
                                    );
                                    lemma_kept_prefix(prefix, all, until, rule@.limit);
                                    let chosen = kept(all, until, rule@.limit);
                                    assert(chosen[starts.len() as int] == prefix[starts.len() as int]);
                                    assert(event_at(said, chosen[starts.len() as int]) is None);
                                }
                            }
                            return None;
                        },
                    }
                }
            }
        }
        if !stopped {
            if day == MAX_DAY {
                proof {
                    assert forall|zone: Zone| #[trigger] clock@.submap_of(
                        zone,
                    ) implies weekly_expansion(
                        said,
                        property@,
                        base,
                        rule@,
                        until,
                        zone,
                    ) is None by {
                        zone::lemma_more_answers(asked, clock@, zone);
                        lemma_kept_prefix(earlier, earlier, until, rule@.limit);
                    }
                }
                return None;
            }
            day += 1;
        }
    }
    proof {
        assert forall|zone: Zone| #[trigger] clock@.submap_of(zone) implies weekly_expansion(
            said,
            property@,
            base,
            rule@,
            until,
            zone,
        ) == (if starts.len() == 0 {
            Some(seq![said])
        } else {
            Some(moved_events(said, starts))
        }) by {
            let all = weekly_starts(property@, base, rule@, last as int, zone);
            let earlier = weekly_starts(property@, base, rule@, last - 1, zone);
            if stopped {
                lemma_starts_grow(property@, base, rule@, day as int, last as int, zone);
                assert(all[starts.len() as int] == starts.push(stop)[starts.len() as int]);
                assert(starts.is_prefix_of(all));
                lemma_kept_prefix(starts, all, until, rule@.limit);
            } else if day > last {
                lemma_kept_prefix(starts, all, until, rule@.limit);
            } else {
                lemma_starts_grow(property@, base, rule@, day - 1, last as int, zone);
                lemma_starts_grow(property@, base, rule@, day - 1, last - 1, zone);
                lemma_kept_prefix(starts, all, until, rule@.limit);
                lemma_kept_prefix(starts, earlier, until, rule@.limit);
            }
        }
    }
    if occurrences.len() == 0 {
        Some(only(event.clone()))
    } else {
        Some(occurrences)
    }
}

/// Whether an event, and what its rule makes of the value of its start, keep out of leap seconds.
pub open spec fn outside_leap_seconds(event: EventView, start_value: Seq<char>) -> bool {
    &&& event.start.ordinary()
    &&& event.end.ordinary()
    &&& zone::naive_read(start_value) matches Some(base) ==> base.nano < NANOS_PER_SECOND
}

proof fn lemma_lasting_events_end_later(events: Seq<EventView>, first: EventView)
    requires
        all_last_as_long(events, first),
        all_start_ordinary(events),
        first.start.ordinary(),
        first.end.ordinary(),
        first.start.precedes(first.end),
    ensures
        event::all_end_later(events),
{
    assert forall|i: int| 0 <= i < events.len() implies (#[trigger] events[i]).start.precedes(
        events[i].end,
    ) by {
        assert(lasts_as_long(events[i], first));
        assert(first.start.total() < first.end.total());
    }
}

fn only(event: CalendarEvent) -> (r: Vec<CalendarEvent>)
    ensures
        event::event_views(r@) == seq![event@],
{
    let mut events: Vec<CalendarEvent> = Vec::new();
    let ghost said = event@;
    events.push(event);
    proof {
        assert(event::event_views(events@) == seq![said]);
    }
    events
}

/// The events that an event with a recurrence rule stands for. Only weekly rules are followed;
/// under any other the event occurs once.
///
/// `None` if a day or an event's end that has to be reckoned with lies outside of what `chrono`
/// can represent.
pub fn expand_weekly_event(
    event: CalendarEvent,
    start_property: &str,
    start_value: &str,
    rule: &str,
    clock: &mut LocalClock,
) -> (r: Option<Vec<CalendarEvent>>)
    requires
        event@.valid(),
        old(clock).valid(),
    ensures
        final(clock).valid(),
        old(clock)@.submap_of(final(clock)@),
        forall|zone: Zone| #[trigger]
            final(clock)@.submap_of(zone) ==> optional_views(r) == expansion(
                event@,
                start_property@,
                start_value@,
                rule@,
                zone,
            ),
        r matches Some(events) ==> event::all_valid(event::event_views(events@))
            && all_last_as_long(event::event_views(events@), event@),
        r matches Some(events) ==> (outside_leap_seconds(event@, start_value@)
            && event.start.precedes(event.end) ==> event::all_end_later(
            event::event_views(events@),
        )),
{
    let weekly = match read_weekly_rule(rule) {
        Some(weekly) => weekly,
        None => {
            return Some(only(event));
        },
    };
    let base = match zone::parse_naive_ics_datetime(start_value) {
        Some(base) => base,
        None => {
            return Some(only(event));
        },
    };
    let until = match &weekly.until {
        Some(value) => zone::parse_ics_datetime(start_property, value.as_str(), clock),
        None => None,
    };
    let ghost asked = clock@;
    let occurrences = weekly_occurrences(&event, start_property, base, &weekly, until, clock);
    proof {
        zone::lemma_more_answers(old(clock)@, asked, clock@);
        assert forall|zone: Zone| #[trigger] clock@.submap_of(zone) implies optional_views(
            occurrences,
        ) == expansion(event@, start_property@, start_value@, rule@, zone) by {
            zone::lemma_more_answers(asked, clock@, zone);
        }
        if let Some(events) = optional_views(occurrences) {
            if outside_leap_seconds(event@, start_value@) && event.start.precedes(event.end) {
                lemma_lasting_events_end_later(events, event@);
            }
        }
    }
    occurrences
}

/// Whether a point in time is not later than a limit, by seconds and nanoseconds.
pub open spec fn not_later(t: UtcTime, until: Option<UtcTime>) -> bool {
    match until {
        Some(limit) => t.seconds < limit.seconds || (t.seconds == limit.seconds && t.nanos
            <= limit.nanos),
        None => true,
    }
}

/// A rule keeps every start up to its limit in time, its very last moment included, as long as
/// its limit in number allows: the first start that it leaves out is later than the one or more
/// than the other.
pub proof fn no_start_up_to_the_limit_is_lost(
    starts: Seq<UtcTime>,
    until: Option<UtcTime>,
    limit: nat,
)
    ensures
        kept(starts, until, limit).len() <= starts.len(),
        kept(starts, until, limit).len() <= limit,
        forall|i: int|
            0 <= i < kept(starts, until, limit).len() ==> #[trigger] kept(starts, until, limit)[i]
                == starts[i] && not_later(starts[i], until),
        kept(starts, until, limit).len() < starts.len() && kept(starts, until, limit).len() < limit
            ==> !not_later(starts[kept(starts, until, limit).len() as int], until),
    decreases starts.len(),
{
    rule_keeps_within_its_limits(starts, until, limit);
    let chosen = kept(starts, until, limit);
    assert(chosen == starts.subrange(0, chosen.len() as int));
    assert forall|i: int| 0 <= i < chosen.len() implies #[trigger] chosen[i] == starts[i]
        && not_later(starts[i], until) by {
        assert(!beyond(chosen[i], until));
    }
    if chosen.len() < starts.len() && chosen.len() < limit {
        lemma_up_to_ends(starts, until);
    }
}

proof fn lemma_up_to_ends(starts: Seq<UtcTime>, until: Option<UtcTime>)
    ensures
        up_to(starts, until).len() <= starts.len(),
        up_to(starts, until).len() < starts.len() ==> beyond(
            starts[up_to(starts, until).len() as int],
            until,
        ),
    decreases starts.len(),
{
    if starts.len() > 0 && !beyond(starts[0], until) {
        lemma_up_to_ends(starts.drop_first(), until);
    }
}

/// Whether a date falls on a weekday: dates are counted from the first of January of the year
/// one, which is day one and a Monday.
pub open spec fn falls_on(day: int, weekday: Weekday) -> bool {
    match weekday {
        Weekday::Mon => day % 7 == 1,
        Weekday::Tue => day % 7 == 2,
        Weekday::Wed => day % 7 == 3,
        Weekday::Thu => day % 7 == 4,
        Weekday::Fri => day % 7 == 5,
        Weekday::Sat => day % 7 == 6,
        Weekday::Sun => day % 7 == 0,
    }
}

/// Whether a rule whose first event is on one day has another day: the Mondays of their weeks are
/// a multiple of the rule's interval apart, and the day falls on one of the weekdays that the rule
/// names, or on that of the first day if it names none.
pub open spec fn is_day_of_rule(rule: RuleView, first: int, day: int) -> bool {
    let weeks = ((day - (day - 1) % 7) - (first - (first - 1) % 7)) / 7;
    &&& weeks % rule.interval == 0
    &&& match rule.days {
        Some(names) => exists|i: int| 0 <= i < names.len() && falls_on(day, #[trigger] names[i]),
        None => day % 7 == first % 7,
    }
}

proof fn lemma_days_of_rule(rule: RuleView, first: int, day: int)
    ensures
        recurs_on(rule, first, day) == is_day_of_rule(rule, first, day),
{
    let monday = first - time::weekday_number(first);
    assert(time::weekday_number(first) == (first - 1) % 7);
    assert((day - monday) / 7 == ((day - (day - 1) % 7) - monday) / 7);
    if let Some(names) = rule.days {
        assert forall|w: Weekday| #[trigger] falls_on(day, w) <==> time::weekday(day) == w by {}
        if names.contains(time::weekday(day)) {
            let i = choose|i: int| 0 <= i < names.len() && names[i] == time::weekday(day);
            assert(falls_on(day, names[i]));
        }
    }
}

/// Whether an event may be on a day at all is a matter of the weeks between the two days and of
/// the weekday.
pub proof fn rule_recurs_on_its_days(rule: &WeeklyRule, first: i32, day: i32, r: bool)
    requires
        rule.interval >= 1,
        first <= day,
        call_ensures(rule_recurs_on, (rule, first, day), r),
    ensures
        r <==> is_day_of_rule(rule@, first as int, day as int),
{
    lemma_days_of_rule(rule@, first as int, day as int);
}

/// The point in time at which the event on a day starts, at the time of day of the first one.
pub open spec fn start_on(day: int, property: Seq<char>, base: CivilTime, zone: Zone) -> Option<
    UtcTime,
> {
    zone::localized(
        property,
        CivilTime { day: day as i32, second: base.second, nano: base.nano },
        zone,
    )
}

/// The days on which an event can start.
spec fn starting_days(days: Seq<int>, property: Seq<char>, base: CivilTime, zone: Zone) -> Seq<int>
    decreases days.len(),
{
    if days.len() == 0 {
        seq![]
    } else if start_on(days.last(), property, base, zone) is Some {
        starting_days(days.drop_last(), property, base, zone).push(days.last())
    } else {
        starting_days(days.drop_last(), property, base, zone)
    }
}

proof fn lemma_starting_days(days: Seq<int>, property: Seq<char>, base: CivilTime, zone: Zone)
    requires
        forall|i: int, j: int| 0 <= i < j < days.len() ==> days[i] < days[j],
    ensures
        ({
            let found = starting_days(days, property, base, zone);
            let starts = starts_on(days, property, base, zone);
            &&& found.len() == starts.len()
            &&& forall|i: int|
                0 <= i < found.len() ==> start_on(#[trigger] found[i], property, base, zone)
                    == Some(starts[i])
            &&& forall|day: int| #[trigger]
                found.contains(day) <==> days.contains(day) && start_on(
                    day,
                    property,
                    base,
                    zone,
                ) is Some
            &&& forall|i: int, j: int| 0 <= i < j < found.len() ==> found[i] < found[j]
        }),
    decreases days.len(),
{
    if days.len() > 0 {
        let front = days.drop_last();
        lemma_starting_days(front, property, base, zone);
        let (fewer, found) = (
            starting_days(front, property, base, zone),
            starting_days(days, property, base, zone),
        );
        let civil = CivilTime { day: days.last() as i32, ..base };
        assert(civil == (CivilTime {
            day: days.last() as i32,
            second: base.second,
            nano: base.nano,
        }));
        assert(days == front.push(days.last()));
        assert forall|day: int| #[trigger] found.contains(day) <==> days.contains(day) && start_on(
            day,
            property,
            base,
            zone,
        ) is Some by {
            assert(days.contains(day) <==> front.contains(day) || day == days.last()) by {
                if front.contains(day) {
                    let k = choose|k: int| 0 <= k < front.len() && front[k] == day;
                    assert(days[k] == day);
                }
                assert(days[days.len() - 1] == days.last());
                if days.contains(day) && day != days.last() {
                    let k = choose|k: int| 0 <= k < days.len() && days[k] == day;
                    assert(front[k] == day);
                }
            }
            if found.contains(day) {
                let k = choose|k: int| 0 <= k < found.len() && found[k] == day;
                assert(k < fewer.len() ==> fewer.contains(fewer[k]));
            }
            if fewer.contains(day) {
                let k = choose|k: int| 0 <= k < fewer.len() && fewer[k] == day;
                assert(found[k] == day);
            }
            if start_on(days.last(), property, base, zone) is Some {
                assert(found[fewer.len() as int] == days.last());
            }
        }
        assert forall|i: int, j: int| 0 <= i < j < found.len() implies found[i] < found[j] by {
            if j == fewer.len() {
                assert(fewer.contains(fewer[i]));
                let k = choose|k: int| 0 <= k < front.len() && front[k] == fewer[i];
                assert(days[k] < days[days.len() - 1]);
            }
        }
    }
}

/// Whether a rule has a day on which an event can start.
spec fn can_start(
    rule: RuleView,
    property: Seq<char>,
    base: CivilTime,
    zone: Zone,
    day: int,
) -> bool {
    &&& base.day <= day <= base.day + 1_830
    &&& is_day_of_rule(rule, base.day as int, day)
    &&& start_on(day, property, base, zone) is Some
}

/// The days of a rule on which an event can start.
spec fn rule_days(rule: RuleView, property: Seq<char>, base: CivilTime, zone: Zone) -> Seq<int> {
    starting_days(
        recurring_days(rule, base.day as int, base.day + WINDOW_DAYS),
        property,
        base,
        zone,
    )
}

#[verifier::spinoff_prover]
proof fn lemma_rule_days(rule: RuleView, property: Seq<char>, base: CivilTime, zone: Zone)
    ensures
        ({
            let found = rule_days(rule, property, base, zone);
            let starts = weekly_starts(property, base, rule, base.day + WINDOW_DAYS, zone);
            &&& found.len() == starts.len()
            &&& forall|i: int|
                0 <= i < found.len() ==> start_on(#[trigger] found[i], property, base, zone)
                    == Some(starts[i])
            &&& forall|day: int| #[trigger]
                found.contains(day) <==> can_start(rule, property, base, zone, day)
            &&& forall|i: int, j: int| 0 <= i < j < found.len() ==> found[i] < found[j]
        }),
{
    let first = base.day as int;
    let last = base.day + WINDOW_DAYS;
    let all = recurring_days(rule, first, last);
    recurring_days_are_those_of_the_rule(rule, first, last);
    lemma_starting_days(all, property, base, zone);
    let found = rule_days(rule, property, base, zone);
    assert forall|day: int| #[trigger] found.contains(day) <==> can_start(
        rule,
        property,
        base,
        zone,
        day,
    ) by {
        lemma_days_of_rule(rule, first, day);
        assert(all.contains(day) <==> first <= day <= last && recurs_on(rule, first, day));
    }
}

/// The events of a weekly rule are on days of the rule within five years of 366 days, one after
/// the other, at the time of day of the first event, and none starts later than the rule's limit
/// in time: `days` holds the day of each. No such day before the last one, and none behind it, is
/// left out, unless the clocks skip that time of day, an earlier event would be too late, or there
/// are as many events as the rule allows. If that leaves no event at all, it is the first one that
/// is there. The events differ from the first one only in when they are.
#[verifier::spinoff_prover]
pub proof fn a_rule_has_an_event_on_each_of_its_days(
    event: EventView,
    property: Seq<char>,
    base: CivilTime,
    rule: RuleView,
    until: Option<UtcTime>,
    zone: Zone,
    events: Seq<EventView>,
) -> (days: Seq<int>)
    requires
        weekly_expansion(event, property, base, rule, until, zone) == Some(events),
    ensures
        forall|i: int, j: int| 0 <= i < j < days.len() ==> days[i] < days[j],
        days.len() <= rule.limit,
        days.len() == 0 ==> events == seq![event],
        days.len() > 0 ==> events.len() == days.len(),
        forall|i: int|
            #![trigger days[i]]
            0 <= i < days.len() ==> {
                &&& base.day <= days[i] <= base.day + 1_830
                &&& is_day_of_rule(rule, base.day as int, days[i])
                &&& start_on(days[i], property, base, zone) == Some(events[i].start)
                &&& not_later(events[i].start, until)
                &&& events[i].summary == event.summary
                &&& events[i].location == event.location
                &&& events[i].calendar_index == event.calendar_index
                &&& events[i].calendar_name == event.calendar_name
            },
        days.len() < rule.limit ==> forall|day: int|
            base.day <= day <= base.day + 1_830 && is_day_of_rule(rule, base.day as int, day)
                && #[trigger] start_on(day, property, base, zone) is Some && !days.contains(day)
                ==> exists|late: int|
                base.day <= late <= day && is_day_of_rule(rule, base.day as int, late)
                    && #[trigger] start_on(late, property, base, zone) is Some && !not_later(
                    start_on(late, property, base, zone).unwrap(),
                    until,
                ),
        forall|i: int, day: int|
            0 <= i < days.len() && base.day <= day < days[i] && is_day_of_rule(
                rule,
                base.day as int,
                day,
            ) && #[trigger] start_on(day, property, base, zone) is Some ==> (#[trigger] days.take(
                i,
            )).contains(day),
{
    let days = event_days(rule, property, base, until, zone);
    lemma_event_days(event, property, base, rule, until, zone, events);
    if days.len() < rule.limit {
        lemma_days_left_out(rule, property, base, until, zone);
    }
    lemma_days_before(rule, property, base, until, zone);
    days
}

/// The days of the events that a rule keeps.
spec fn event_days(
    rule: RuleView,
    property: Seq<char>,
    base: CivilTime,
    until: Option<UtcTime>,
    zone: Zone,
) -> Seq<int> {
    let starts = weekly_starts(property, base, rule, base.day + WINDOW_DAYS, zone);
    rule_days(rule, property, base, zone).take(kept(starts, until, rule.limit).len() as int)
}

#[verifier::spinoff_prover]
proof fn lemma_event_days(
    event: EventView,
    property: Seq<char>,
    base: CivilTime,
    rule: RuleView,
    until: Option<UtcTime>,
    zone: Zone,
    events: Seq<EventView>,
)
    requires
        weekly_expansion(event, property, base, rule, until, zone) == Some(events),
    ensures
        ({
            let days = event_days(rule, property, base, until, zone);
            &&& forall|i: int, j: int| 0 <= i < j < days.len() ==> days[i] < days[j]
            &&& days.len() <= rule.limit
            &&& days.len() == 0 ==> events == seq![event]
            &&& days.len() > 0 ==> events.len() == days.len()
            &&& forall|i: int|
                #![trigger days[i]]
                0 <= i < days.len() ==> {
                    &&& base.day <= days[i] <= base.day + 1_830
                    &&& is_day_of_rule(rule, base.day as int, days[i])
                    &&& start_on(days[i], property, base, zone) == Some(events[i].start)
                    &&& not_later(events[i].start, until)
                    &&& events[i].summary == event.summary
                    &&& events[i].location == event.location
                    &&& events[i].calendar_index == event.calendar_index
                    &&& events[i].calendar_name == event.calendar_name
                }
        }),
{
    let starts = weekly_starts(property, base, rule, base.day + WINDOW_DAYS, zone);
    let found = rule_days(rule, property, base, zone);
    let chosen = kept(starts, until, rule.limit);
    let days = event_days(rule, property, base, until, zone);
    lemma_rule_days(rule, property, base, zone);
    no_start_up_to_the_limit_is_lost(starts, until, rule.limit);
    assert forall|i: int| #![trigger days[i]] 0 <= i < days.len() implies {
        &&& base.day <= days[i] <= base.day + 1_830
        &&& is_day_of_rule(rule, base.day as int, days[i])
        &&& start_on(days[i], property, base, zone) == Some(events[i].start)
        &&& not_later(events[i].start, until)
        &&& events[i].summary == event.summary
        &&& events[i].location == event.location
        &&& events[i].calendar_index == event.calendar_index
        &&& events[i].calendar_name == event.calendar_name
    } by {
        assert(days[i] == found[i]);
        assert(found.contains(found[i]));
        assert(can_start(rule, property, base, zone, found[i]));
        assert(chosen[i] == starts[i]);
        assert(event_at(event, chosen[i]) is Some);
        assert(events[i] == event_at(event, chosen[i]).unwrap());
    }
}

#[verifier::spinoff_prover]
proof fn lemma_days_left_out(
    rule: RuleView,
    property: Seq<char>,
    base: CivilTime,
    until: Option<UtcTime>,
    zone: Zone,
)
    requires
        event_days(rule, property, base, until, zone).len() < rule.limit,
    ensures
        forall|day: int|
            base.day <= day <= base.day + 1_830 && is_day_of_rule(rule, base.day as int, day)
                && #[trigger] start_on(day, property, base, zone) is Some && !event_days(
                rule,
                property,
                base,
                until,
                zone,
            ).contains(day) ==> exists|late: int|
                base.day <= late <= day && is_day_of_rule(rule, base.day as int, late)
                    && #[trigger] start_on(late, property, base, zone) is Some && !not_later(
                    start_on(late, property, base, zone).unwrap(),
                    until,
                ),
{
    let starts = weekly_starts(property, base, rule, base.day + WINDOW_DAYS, zone);
    let days = event_days(rule, property, base, until, zone);
    lemma_rule_days(rule, property, base, zone);
    no_start_up_to_the_limit_is_lost(starts, until, rule.limit);
    assert forall|day: int|
        base.day <= day <= base.day + 1_830 && is_day_of_rule(rule, base.day as int, day)
            && #[trigger] start_on(day, property, base, zone) is Some && !days.contains(
            day,
        ) implies exists|late: int|
        base.day <= late <= day && is_day_of_rule(rule, base.day as int, late)
            && #[trigger] start_on(late, property, base, zone) is Some && !not_later(
            start_on(late, property, base, zone).unwrap(),
            until,
        ) by {
        let late = lemma_first_late(rule, property, base, until, zone, day);
        assert(start_on(late, property, base, zone) is Some);
    }
}

#[verifier::spinoff_prover]
proof fn lemma_days_before(
    rule: RuleView,
    property: Seq<char>,
    base: CivilTime,
    until: Option<UtcTime>,
    zone: Zone,
)
    ensures
        ({
            let days = event_days(rule, property, base, until, zone);
            forall|i: int, day: int|
                0 <= i < days.len() && base.day <= day < days[i] && is_day_of_rule(
                    rule,
                    base.day as int,
                    day,
                ) && #[trigger] start_on(day, property, base, zone) is Some ==> (
                #[trigger] days.take(i)).contains(day)
        }),
{
    let starts = weekly_starts(property, base, rule, base.day + WINDOW_DAYS, zone);
    let found = rule_days(rule, property, base, zone);
    let days = event_days(rule, property, base, until, zone);
    lemma_rule_days(rule, property, base, zone);
    no_start_up_to_the_limit_is_lost(starts, until, rule.limit);
    assert forall|i: int, day: int|
        0 <= i < days.len() && base.day <= day < days[i] && is_day_of_rule(
            rule,
            base.day as int,
            day,
        ) && #[trigger] start_on(day, property, base, zone) is Some implies (#[trigger] days.take(
        i,
    )).contains(day) by {
        assert(days[i] == found[i]);
        assert(found.contains(found[i]));
        assert(can_start(rule, property, base, zone, found[i]));
        assert(can_start(rule, property, base, zone, day));
        assert(found.contains(day));
        let k = choose|k: int| 0 <= k < found.len() && found[k] == day;
        assert(k < i);
        assert(days.take(i)[k] == day);
    }
}

/// A day of the rule that is left out lies at or behind the first one that is too late.
#[verifier::spinoff_prover]
proof fn lemma_first_late(
    rule: RuleView,
    property: Seq<char>,
    base: CivilTime,
    until: Option<UtcTime>,
    zone: Zone,
    day: int,
) -> (late: int)
    requires
        can_start(rule, property, base, zone, day),
        ({
            let starts = weekly_starts(property, base, rule, base.day + WINDOW_DAYS, zone);
            let n = kept(starts, until, rule.limit).len() as int;
            &&& n < rule.limit
            &&& !rule_days(rule, property, base, zone).take(n).contains(day)
        }),
    ensures
        can_start(rule, property, base, zone, late),
        late <= day,
        !not_later(start_on(late, property, base, zone).unwrap(), until),
{
    let starts = weekly_starts(property, base, rule, base.day + WINDOW_DAYS, zone);
    let found = rule_days(rule, property, base, zone);
    let n = kept(starts, until, rule.limit).len() as int;
    lemma_rule_days(rule, property, base, zone);
    no_start_up_to_the_limit_is_lost(starts, until, rule.limit);
    assert(found.contains(day));
    let k = choose|k: int| 0 <= k < found.len() && found[k] == day;
    if k < n {
        assert(found.take(n)[k] == day);
    }
    assert(found.contains(found[n]));
    assert(n < k ==> found[n] < found[k]);
    found[n]
}

/// A weekly rule always stands for events, unless its first week or the day after its last lies
/// outside of the dates that can be represented, or the end of one of its events does.
pub proof fn rules_within_the_calendar_stand_for_events(
    event: EventView,
    property: Seq<char>,
    base: CivilTime,
    rule: RuleView,
    until: Option<UtcTime>,
    zone: Zone,
)
    requires
        MIN_DAY + 6 <= base.day,
        base.day + 1_830 < MAX_DAY,
        forall|day: int|
            base.day <= day <= base.day + 1_830 && is_day_of_rule(rule, base.day as int, day) ==> (
            #[trigger] start_on(day, property, base, zone) matches Some(start) ==> time::moved(
                start,
                time::elapsed(event.end, event.start),
            ) is Some),
    ensures
        weekly_expansion(event, property, base, rule, until, zone) matches Some(events)
            && events.len() > 0,
{
    let starts = weekly_starts(property, base, rule, base.day + WINDOW_DAYS, zone);
    let found = rule_days(rule, property, base, zone);
    let chosen = kept(starts, until, rule.limit);
    lemma_rule_days(rule, property, base, zone);
    no_start_up_to_the_limit_is_lost(starts, until, rule.limit);
    assert forall|i: int| 0 <= i < chosen.len() implies event_at(event, #[trigger] chosen[i]) is Some by {
        assert(chosen[i] == starts[i]);
        assert(found.contains(found[i]));
        assert(start_on(found[i], property, base, zone) == Some(starts[i]));
    }
}

/// The events of a rule last as long as its first one, to the nanosecond, if none of them touches
/// a leap second.
pub proof fn events_of_a_rule_last_equally_long(events: Seq<EventView>, first: EventView, i: int)
    requires
        all_last_as_long(events, first),
        0 <= i < events.len(),
        first.start.nanos < 1_000_000_000,
        first.end.nanos < 1_000_000_000,
        events[i].start.nanos < 1_000_000_000,
    ensures
        (events[i].end.seconds - events[i].start.seconds) * 1_000_000_000 + (events[i].end.nanos
            - events[i].start.nanos) == (first.end.seconds - first.start.seconds) * 1_000_000_000
            + (first.end.nanos - first.start.nanos),
        events[i].end.nanos < 1_000_000_000,
{
    assert(lasts_as_long(events[i], first));
}

/// An event whose rule is weekly and whose start gives a time of day stands for the events of that
/// rule up to the time that the rule gives, read as the start is. Any other event stands for
/// itself.
pub proof fn only_weekly_rules_are_followed(
    event: EventView,
    property: Seq<char>,
    value: Seq<char>,
    rule: Seq<char>,
    zone: Zone,
    base: CivilTime,
    until: Seq<char>,
)
    ensures
        rule_value(rule, "FREQ"@) != Some("WEEKLY"@) ==> expansion(
            event,
            property,
            value,
            rule,
            zone,
        ) == Some(seq![event]),
        zone::naive_read(value) is None ==> expansion(event, property, value, rule, zone) == Some(
            seq![event],
        ),
        rule_value(rule, "FREQ"@) == Some("WEEKLY"@) && zone::naive_read(value) == Some(base)
            && rule_value(rule, "UNTIL"@) == Some(until) ==> expansion(
            event,
            property,
            value,
            rule,
            zone,
        ) == weekly_expansion(
            event,
            property,
            base,
            weekly_rule(rule),
            zone::ics_time(property, until, zone),
            zone,
        ),
        rule_value(rule, "FREQ"@) == Some("WEEKLY"@) && zone::naive_read(value) == Some(base)
            && rule_value(rule, "UNTIL"@) is None ==> expansion(
            event,
            property,
            value,
            rule,
            zone,
        ) == weekly_expansion(event, property, base, weekly_rule(rule), None, zone),
{
}

/// A part put behind a rule gives its key the value that stands behind the equals sign, whatever
/// value the rule gave it before, and leaves the other keys alone. It does the same where it
/// stands alone; other keys have no value then.
pub proof fn the_last_part_with_a_key_gives_its_value(
    rule: Seq<char>,
    key: Seq<char>,
    value: Seq<char>,
    other: Seq<char>,
)
    requires
        !key.contains(';') && !key.contains('='),
        !value.contains(';'),
        other != key,
    ensures
        rule_value(rule + seq![';'] + key + seq!['='] + value, key) == Some(value),
        rule_value(rule + seq![';'] + key + seq!['='] + value, other) == rule_value(rule, other),
        rule_value(key + seq!['='] + value, key) == Some(value),
        rule_value(key + seq!['='] + value, other) is None,
{
    let part = key + seq!['='] + value;
    let whole = rule + seq![';'] + key + seq!['='] + value;
    assert(whole == rule.push(';') + part);
    text::lemma_split_join(rule, part, ';');
    assert forall|i: int| 0 <= i < part.len() implies part[i] != ';' by {
        if i < key.len() {
            assert(key.contains(key[i]));
        } else if i > key.len() {
            assert(value.contains(value[i - key.len() - 1]));
        }
    }
    text::lemma_not_found(part, ';');
    assert(part == key.push('=') + value);
    text::lemma_index_before(key, value, '=');
    assert forall|i: int| 0 <= i < key.len() implies key[i] != '=' by {
        assert(key.contains(key[i]));
    }
    text::lemma_not_found(key, '=');
    assert(part.take(key.len() as int) == key);
    assert(part.skip(key.len() as int + 1) == value);
    let parts = text::split(rule, ';');
    assert(text::split(whole, ';') == parts.push(part));
    assert(parts.push(part).drop_last() == parts);
    assert(text::split(part, ';') == seq![part]);
    assert(seq![part].drop_last() == Seq::<Seq<char>>::empty());
    assert(last_value(Seq::<Seq<char>>::empty(), other) is None);
}

/// A part of a rule without an equals sign gives no key a value.
pub proof fn parts_without_a_value_are_passed_over(
    rule: Seq<char>,
    part: Seq<char>,
    key: Seq<char>,
)
    requires
        !part.contains(';') && !part.contains('='),
    ensures
        rule_value(rule + seq![';'] + part, key) == rule_value(rule, key),
        rule_value(part, key) is None,
{
    let whole = rule + seq![';'] + part;
    assert(whole == rule.push(';') + part);
    text::lemma_split_join(rule, part, ';');
    assert forall|i: int| 0 <= i < part.len() implies part[i] != ';' && part[i] != '=' by {
        assert(part.contains(part[i]));
    }
    text::lemma_not_found(part, ';');
    text::lemma_not_found(part, '=');
    let parts = text::split(rule, ';');
    assert(text::split(whole, ';') == parts.push(part));
    assert(parts.push(part).drop_last() == parts);
    assert(text::split(part, ';') == seq![part]);
    assert(seq![part].drop_last() == Seq::<Seq<char>>::empty());
    assert(last_value(Seq::<Seq<char>>::empty(), key) is None);
}

/// A rule is read if its frequency is weekly. Its interval is the number of its `INTERVAL`, but
/// never less than one week, which is also what stands for none or for what is no number. Its
/// greatest number of events is that of its `COUNT`, or two thousand. It names weekdays if it has
/// a `BYDAY`, and has the limit in time that its `UNTIL` spells out.
pub proof fn rules_are_read_by_their_keys(rule: &str, r: Option<WeeklyRule>, value: Seq<char>)
    requires
        call_ensures(read_weekly_rule, (rule,), r),
    ensures
        r is Some <==> rule_value(rule@, "FREQ"@) == Some("WEEKLY"@),
        r matches Some(weekly) ==> {
            &&& weekly.interval >= 1
            &&& rule_value(rule@, "INTERVAL"@) is None ==> weekly.interval == 1
            &&& rule_value(rule@, "INTERVAL"@) == Some(value) ==> match number::signed_number(
                value,
            ) {
                Some(n) => n >= 1 && weekly.interval == n || n < 1 && weekly.interval == 1,
                None => weekly.interval == 1,
            }
            &&& rule_value(rule@, "COUNT"@) is None ==> weekly.limit == 2_000
            &&& rule_value(rule@, "COUNT"@) == Some(value) ==> match number::count_number(value) {
                Some(n) => weekly.limit == n,
                None => weekly.limit == 2_000,
            }
            &&& weekly.until is Some <==> rule_value(rule@, "UNTIL"@) is Some
            &&& weekly.until matches Some(until) ==> rule_value(rule@, "UNTIL"@) == Some(until@)
            &&& weekly.days is Some <==> rule_value(rule@, "BYDAY"@) is Some
            &&& weekly.days matches Some(days) ==> days@ == weekdays_named(
                text::split(rule_value(rule@, "BYDAY"@).unwrap(), ','),
            )
        },
{
    if let Some(weekly) = r {
        let said = weekly_rule(rule@);
        assert(weekly@.until == said.until);
        assert(weekly@.days == said.days);
        assert(weekly@.interval == said.interval);
        assert(weekly@.limit == said.limit);
    }
}

/// Each name of a weekday in a list adds its weekday, in its place; what names none adds nothing.
pub proof fn lists_of_weekdays_are_read_name_by_name(
    names: Seq<Seq<char>>,
    more: Seq<Seq<char>>,
    name: Seq<char>,
    day: Weekday,
)
    ensures
        weekdays_named(names + more) == weekdays_named(names) + weekdays_named(more),
        weekday_named(name) is None ==> weekdays_named(seq![name]) == Seq::<Weekday>::empty(),
        weekday_named(name) == Some(day) ==> weekdays_named(seq![name]) == seq![day],
    decreases more.len(),
{
    assert(seq![name].drop_last() == Seq::<Seq<char>>::empty());
    assert(weekdays_named(seq![name].drop_last()) == Seq::<Weekday>::empty());
    assert(Seq::<Weekday>::empty().push(day) == seq![day]);
    if more.len() == 0 {
        assert(names + more == names);
        assert(weekdays_named(names) + weekdays_named(more) == weekdays_named(names));
    } else {
        let front = more.drop_last();
        lists_of_weekdays_are_read_name_by_name(names, front, name, day);
        assert((names + more).drop_last() == names + front);
        assert((names + more).last() == more.last());
        if let Some(last) = weekday_named(more.last()) {
            let (a, b) = (weekdays_named(names), weekdays_named(front));
            assert((a + b).push(last) == a + b.push(last));
        }
    }
}

/// The two capital letters that stand for a weekday.
pub open spec fn letters_of(day: Weekday) -> Seq<char> {
    match day {
        Weekday::Mon => seq!['M', 'O'],
        Weekday::Tue => seq!['T', 'U'],
        Weekday::Wed => seq!['W', 'E'],
        Weekday::Thu => seq!['T', 'H'],
        Weekday::Fri => seq!['F', 'R'],
        Weekday::Sat => seq!['S', 'A'],
        Weekday::Sun => seq!['S', 'U'],
    }
}

proof fn lemma_leading(prefix: Seq<char>, rest: Seq<char>)
    requires
        forall|i: int|
            0 <= i < prefix.len() ==> (#[trigger] prefix[i] == '+' || prefix[i] == '-' || '0'
                <= prefix[i] <= '9'),
    ensures
        text::drop_leading(prefix + rest, CharClass::SignOrDigit) == text::drop_leading(
            rest,
            CharClass::SignOrDigit,
        ),
    decreases prefix.len(),
{
    if prefix.len() > 0 {
        let fewer = prefix.drop_first();
        assert forall|i: int| 0 <= i < fewer.len() implies (#[trigger] fewer[i] == '+' || fewer[i]
            == '-' || '0' <= fewer[i] <= '9') by {
            assert(fewer[i] == prefix[i + 1]);
        }
        lemma_leading(fewer, rest);
        assert((prefix + rest)[0] == prefix[0]);
        assert((prefix + rest).drop_first() == fewer + rest);
    } else {
        assert(prefix + rest == rest);
    }
}

/// A weekday is read from its two letters, whatever signs and digits stand before them.
pub proof fn weekdays_are_read_from_their_letters(
    value: &str,
    r: Option<Weekday>,
    prefix: Seq<char>,
    day: Weekday,
)
    requires
        call_ensures(parse_weekday, (value,), r),
        value@ == prefix + letters_of(day),
        forall|i: int|
            0 <= i < prefix.len() ==> (#[trigger] prefix[i] == '+' || prefix[i] == '-' || '0'
                <= prefix[i] <= '9'),
    ensures
        r == Some(day),
{
    reveal_strlit("MO");
    reveal_strlit("TU");
    reveal_strlit("WE");
    reveal_strlit("TH");
    reveal_strlit("FR");
    reveal_strlit("SA");
    reveal_strlit("SU");
    let letters = letters_of(day);
    lemma_leading(prefix, letters);
    assert(text::drop_leading(letters, CharClass::SignOrDigit) == letters);
    assert("MO"@ == seq!['M', 'O']);
    assert("TU"@ == seq!['T', 'U']);
    assert("WE"@ == seq!['W', 'E']);
    assert("TH"@ == seq!['T', 'H']);
    assert("FR"@ == seq!['F', 'R']);
    assert("SA"@ == seq!['S', 'A']);
    assert("SU"@ == seq!['S', 'U']);
    assert(letters[0] != "MO"@[0] || letters[1] != "MO"@[1] || day == Weekday::Mon);
    assert(letters[0] != "TU"@[0] || letters[1] != "TU"@[1] || day == Weekday::Tue);
    assert(letters[0] != "WE"@[0] || letters[1] != "WE"@[1] || day == Weekday::Wed);
    assert(letters[0] != "TH"@[0] || letters[1] != "TH"@[1] || day == Weekday::Thu);
    assert(letters[0] != "FR"@[0] || letters[1] != "FR"@[1] || day == Weekday::Fri);
    assert(letters[0] != "SA"@[0] || letters[1] != "SA"@[1] || day == Weekday::Sat);
}

/// What is read as a weekday ends in its two letters, and only signs and digits stand before them.
pub proof fn weekdays_are_read_from_nothing_else(value: &str, r: Option<Weekday>)
    requires
        call_ensures(parse_weekday, (value,), r),
    ensures
        r matches Some(day) ==> value@.len() >= 2 && value@.skip(value@.len() - 2) == letters_of(day)
            && forall|i: int|
            0 <= i < value@.len() - 2 ==> (#[trigger] value@[i] == '+' || value@[i] == '-' || '0'
                <= value@[i] <= '9'),
{
    reveal_strlit("MO");
    reveal_strlit("TU");
    reveal_strlit("WE");
    reveal_strlit("TH");
    reveal_strlit("FR");
    reveal_strlit("SA");
    reveal_strlit("SU");
    assert("MO"@ == seq!['M', 'O']);
    assert("TU"@ == seq!['T', 'U']);
    assert("WE"@ == seq!['W', 'E']);
    assert("TH"@ == seq!['T', 'H']);
    assert("FR"@ == seq!['F', 'R']);
    assert("SA"@ == seq!['S', 'A']);
    assert("SU"@ == seq!['S', 'U']);
    lemma_leading_dropped(value@);
}

proof fn lemma_leading_dropped(value: Seq<char>)
    ensures
        ({
            let rest = text::drop_leading(value, CharClass::SignOrDigit);
            &&& rest.len() <= value.len()
            &&& value.skip(value.len() - rest.len()) == rest
            &&& forall|i: int|
                0 <= i < value.len() - rest.len() ==> (#[trigger] value[i] == '+' || value[i] == '-'
                    || '0' <= value[i] <= '9')
        }),
    decreases value.len(),
{
    let rest = text::drop_leading(value, CharClass::SignOrDigit);
    if value.len() > 0 && CharClass::SignOrDigit.has(value[0]) {
        let fewer = value.drop_first();
        lemma_leading_dropped(fewer);
        assert(value.skip(value.len() - rest.len()) == fewer.skip(fewer.len() - rest.len()));
        assert forall|i: int| 0 <= i < value.len() - rest.len() implies (#[trigger] value[i] == '+'
            || value[i] == '-' || '0' <= value[i] <= '9') by {
            if i > 0 {
                assert(fewer[i - 1] == value[i]);
            }
        }
    } else {
        assert(value.skip(0) == value);
    }
}

} // verus!
